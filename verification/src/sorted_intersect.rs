//! Intersection of descending streams of sequence numbers.
//!
//! Every secondary index hands out the sequence numbers that share one
//! attribute value, newest first. A query with several filters wants the
//! numbers that all of its streams hold, newest first, and no more than a page
//! of them.

use itertools::Itertools;
use vstd::multiset::Multiset;
use crate::index::IndexCursor;
use vstd::prelude::*;

verus! {

/// Each member is greater than every member after it.
pub open spec fn strictly_descending(s: Seq<u64>) -> bool {
    forall|i: int, j: int| 0 <= i < j < s.len() ==> s[i] > s[j]
}

/// No member is smaller than a member after it.
pub open spec fn descending(s: Seq<u64>) -> bool {
    forall|i: int, j: int| 0 <= i < j < s.len() ==> s[i] >= s[j]
}

/// The streams as sequences of numbers.
pub open spec fn stream_views(streams: Seq<Vec<u64>>) -> Seq<Seq<u64>> {
    Seq::new(streams.len(), |k: int| streams[k]@)
}

/// Whether every stream holds `x`.
pub open spec fn in_all(x: u64, streams: Seq<Seq<u64>>) -> bool {
    forall|k: int| 0 <= k < streams.len() ==> (#[trigger] streams[k]).contains(x)
}

/// The members of the first stream that every stream holds, in the order of the
/// first stream. No stream at all has no common member.
pub open spec fn intersection(streams: Seq<Seq<u64>>) -> Seq<u64> {
    if streams.len() == 0 {
        Seq::empty()
    } else {
        streams[0].filter(|x: u64| in_all(x, streams))
    }
}

/// The first `n` members of `s`, all of `s` where it has no more than `n`.
pub open spec fn first_n<T>(s: Seq<T>, n: nat) -> Seq<T> {
    if n >= s.len() {
        s
    } else {
        s.take(n as int)
    }
}

/// A strictly descending stream with all its members above `bound` up to `upto`
/// holds no number that is at most `bound` before `upto`, and where the member at
/// `upto` is below `x`, it does not hold `x` at all.
proof fn lemma_absent(stream: Seq<u64>, upto: int, x: u64)
    requires
        strictly_descending(stream),
        0 <= upto <= stream.len(),
        forall|j: int| 0 <= j < upto ==> stream[j] > x,
        upto < stream.len() ==> stream[upto] < x,
    ensures
        !stream.contains(x),
{
    if stream.contains(x) {
        let i = choose|i: int| 0 <= i < stream.len() && stream[i] == x;
        if i >= upto {
            assert(upto < stream.len());
            if i > upto {
                assert(stream[upto] > stream[i]);
            }
        }
    }
}

/// What is left of each scan, scan by scan.
pub open spec fn remaining_views(sources: Seq<IndexCursor<'_>>) -> Seq<Seq<u64>> {
    Seq::new(sources.len(), |k: int| sources[k].remaining())
}

/// Whether `after` is what is left of the stream `before` when some of its first
/// numbers were read.
pub open spec fn read_on(before: Seq<u64>, after: Seq<u64>) -> bool {
    exists|count: int| 0 <= count <= before.len() && after == #[trigger] before.skip(count)
}

/// The number that a scan handed out last, after `count` numbers of its stream.
pub open spec fn head_after(stream: Seq<u64>, count: int) -> Option<u64> {
    if count > 0 {
        Some(stream[count - 1])
    } else {
        None
    }
}

/// Reads one scan on until it shows a number that is not above `candidate`, and
/// hands that number out; `None` where the scan ends before.
fn catch_up(
    sources: &mut Vec<IndexCursor<'_>>,
    k: usize,
    head: Option<u64>,
    candidate: u64,
    Ghost(stream): Ghost<Seq<u64>>,
    Ghost(count): Ghost<int>,
) -> (now: (Option<u64>, Ghost<int>))
    requires
        k < old(sources)@.len(),
        forall|m: int| 0 <= m < old(sources)@.len() ==> (#[trigger] old(sources)@[m]).wf(),
        strictly_descending(stream),
        0 <= count <= stream.len(),
        old(sources)@[k as int].remaining() == stream.skip(count),
        head == head_after(stream, count),
        forall|j: int| 0 <= j < count - 1 ==> stream[j] > candidate,
    ensures
        final(sources)@.len() == old(sources)@.len(),
        forall|m: int| 0 <= m < final(sources)@.len() ==> (#[trigger] final(sources)@[m]).wf(),
        forall|m: int|
            0 <= m < final(sources)@.len() && m != k ==> #[trigger] final(sources)@[m] == old(
                sources,
            )@[m],
        count <= now.1@ <= stream.len(),
        final(sources)@[k as int].remaining() == stream.skip(now.1@),
        forall|j: int| 0 <= j < now.1@ - 1 ==> stream[j] > candidate,
        match now.0 {
            Some(h) => now.1@ > 0 && h == stream[now.1@ - 1] && h <= candidate,
            None => forall|j: int| 0 <= j < stream.len() ==> stream[j] > candidate,
        },
{
    let mut head = head;
    let ghost mut taken = count;
    loop
        invariant
            k < sources@.len(),
            sources@.len() == old(sources)@.len(),
            forall|m: int| 0 <= m < sources@.len() ==> (#[trigger] sources@[m]).wf(),
            forall|m: int|
                0 <= m < sources@.len() && m != k ==> #[trigger] sources@[m] == old(sources)@[m],
            strictly_descending(stream),
            0 <= count <= taken <= stream.len(),
            sources@[k as int].remaining() == stream.skip(taken),
            head == head_after(stream, taken),
            forall|j: int| 0 <= j < taken - 1 ==> stream[j] > candidate,
        decreases stream.len() - taken,
    {
        match head {
            Some(h) => {
                if h <= candidate {
                    return (Some(h), Ghost(taken));
                }
            },
            None => {},
        }
        let ghost before = sources@[k as int].remaining();
        match sources[k].next() {
            Some(h) => {
                proof {
                    let after = sources@[k as int].remaining();
                    assert(before == seq![h] + after);
                    assert(before.len() == after.len() + 1);
                    assert(taken < stream.len());
                    assert(before[0] == h);
                    assert(stream.skip(taken)[0] == stream[taken]);
                    assert(after =~= before.skip(1));
                    assert(before.skip(1) =~= stream.skip(taken + 1));
                    taken = taken + 1;
                }
                head = Some(h);
            },
            None => {
                proof {
                    assert(stream.skip(taken).len() == 0);
                }
                return (None, Ghost(taken));
            },
        }
    }
}

/// Walks the scans in step, the first one leading, and reads no scan further than
/// the walk needs: a number of the first scan is kept when every other scan, read
/// on past all greater numbers, shows the same number. The walk ends with the
/// first scan, with any other scan, or with `limit` numbers kept.
pub fn sorted_intersect(sources: &mut Vec<IndexCursor<'_>>, limit: usize) -> (out: Vec<u64>)
    requires
        forall|k: int| 0 <= k < old(sources)@.len() ==> (#[trigger] old(sources)@[k]).wf(),
    ensures
        final(sources)@.len() == old(sources)@.len(),
        forall|k: int| 0 <= k < final(sources)@.len() ==> (#[trigger] final(sources)@[k]).wf(),
        forall|k: int|
            0 <= k < final(sources)@.len() ==> read_on(
                (#[trigger] old(sources)@[k]).remaining(),
                final(sources)@[k].remaining(),
            ),
        out@ == first_n(intersection(remaining_views(old(sources)@)), limit as nat),
{
    let mut out: Vec<u64> = Vec::new();
    let n = sources.len();
    if n == 0 {
        return out;
    }
    let ghost full = remaining_views(old(sources)@);
    let ghost pred = |x: u64| in_all(x, full);
    let ghost first = full[0];
    let ghost mut pulled: Seq<int> = Seq::new(n as nat, |k: int| 0int);
    proof {
        assert forall|k: int| 0 <= k < n implies strictly_descending(#[trigger] full[k]) by {
            old(sources)@[k].lemma_remaining();
        }
    }

    let mut heads: Vec<Option<u64>> = Vec::new();
    while heads.len() < n
        invariant
            heads@.len() <= n,
            forall|k: int| 0 <= k < heads@.len() ==> heads@[k] is None,
        decreases n - heads@.len(),
    {
        heads.push(None);
    }

    let ghost mut lead: int = 0;
    let mut live = true;
    proof {
        reveal(Seq::filter);
        assert(first.take(0).filter(pred) =~= Seq::<u64>::empty());
        assert forall|k: int| 0 <= k < n implies (#[trigger] sources@[k]).remaining()
            == full[k].skip(pulled[k]) by {
            assert(full[k].skip(0) =~= full[k]);
        }
    }
    while live && out.len() < limit
        invariant
            n == sources@.len(),
            n > 0,
            heads@.len() == n,
            pulled.len() == n,
            full.len() == n,
            first == full[0],
            pred == (|x: u64| in_all(x, full)),
            0 <= lead <= first.len(),
            lead == pulled[0],
            out@ == first.take(lead).filter(pred),
            out@.len() <= limit,
            forall|k: int| 0 <= k < n ==> (#[trigger] sources@[k]).wf(),
            forall|k: int| 0 <= k < n ==> strictly_descending(#[trigger] full[k]),
            forall|k: int| 0 <= k < n ==> 0 <= #[trigger] pulled[k] <= full[k].len(),
            forall|k: int|
                0 <= k < n ==> (#[trigger] sources@[k]).remaining() == full[k].skip(pulled[k]),
            live ==> forall|k: int|
                1 <= k < n ==> #[trigger] heads@[k] == head_after(full[k], pulled[k]),
            forall|k: int, j: int|
                1 <= k < n && 0 <= j < pulled[k] - 1 && lead < first.len() ==> (
                #[trigger] full[k][j]) > first[lead],
            !live ==> forall|i: int| lead <= i < first.len() ==> !pred(#[trigger] first[i]),
        decreases (first.len() - lead) + (if live { 1int } else { 0int }),
    {
        let ghost before = sources@[0].remaining();
        match sources[0].next() {
            None => {
                proof {
                    assert(first.skip(lead).len() == 0);
                }
                live = false;
            },
            Some(candidate) => {
                proof {
                    let after = sources@[0].remaining();
                    assert(before == seq![candidate] + after);
                    assert(before.len() == after.len() + 1);
                    assert(lead < first.len());
                    assert(before[0] == candidate);
                    assert(first.skip(lead)[0] == first[lead]);
                    assert(after =~= before.skip(1));
                    assert(before.skip(1) =~= first.skip(lead + 1));
                    pulled = pulled.update(0, lead + 1);
                }
                let mut k: usize = 1;
                let mut hit = true;
                while k < n && hit && live
                    invariant
                        n == sources@.len(),
                        1 <= k <= n,
                        heads@.len() == n,
                        pulled.len() == n,
                        full.len() == n,
                        first == full[0],
                        pred == (|x: u64| in_all(x, full)),
                        0 <= lead < first.len(),
                        pulled[0] == lead + 1,
                        candidate == first[lead],
                        forall|m: int| 0 <= m < n ==> (#[trigger] sources@[m]).wf(),
                        forall|m: int| 0 <= m < n ==> strictly_descending(#[trigger] full[m]),
                        forall|m: int| 0 <= m < n ==> 0 <= #[trigger] pulled[m] <= full[m].len(),
                        forall|m: int|
                            0 <= m < n ==> (#[trigger] sources@[m]).remaining() == full[m].skip(
                                pulled[m],
                            ),
                        live ==> forall|m: int|
                            1 <= m < n ==> #[trigger] heads@[m] == head_after(full[m], pulled[m]),
                        forall|m: int, j: int|
                            1 <= m < n && 0 <= j < pulled[m] - 1 ==> (#[trigger] full[m][j])
                                > candidate,
                        hit && live ==> forall|m: int|
                            1 <= m < k ==> (#[trigger] full[m]).contains(candidate),
                        !hit ==> !pred(candidate),
                        !live ==> forall|i: int|
                            lead <= i < first.len() ==> !pred(#[trigger] first[i]),
                    decreases n - k,
                {
                    let ghost stream = full[k as int];
                    let caught = catch_up(
                        sources,
                        k,
                        heads[k],
                        candidate,
                        Ghost(stream),
                        Ghost(pulled[k as int]),
                    );
                    let ghost count = caught.1@;
                    proof {
                        pulled = pulled.update(k as int, count);
                    }
                    match caught.0 {
                        None => {
                            live = false;
                            proof {
                                assert forall|i: int| lead <= i < first.len() implies !pred(
                                    #[trigger] first[i],
                                ) by {
                                    let x = first[i];
                                    assert(x <= candidate) by {
                                        if i > lead {
                                            assert(first[lead] > first[i]);
                                        }
                                    }
                                    lemma_absent(stream, stream.len() as int, x);
                                    assert(!full[k as int].contains(x));
                                }
                            }
                        },
                        Some(h) => {
                            heads[k] = Some(h);
                            if h < candidate {
                                hit = false;
                                proof {
                                    lemma_absent(stream, count - 1, candidate);
                                    assert(!full[k as int].contains(candidate));
                                }
                            } else {
                                assert(stream[count - 1] == candidate);
                                assert(full[k as int].contains(candidate));
                            }
                        },
                    }
                    k += 1;
                }
                proof {
                    assert(first.take(lead + 1) =~= first.take(lead).push(candidate));
                    first.take(lead).lemma_filter_push(candidate, pred);
                    if live && hit {
                        assert(full[0].contains(candidate));
                        assert(in_all(candidate, full));
                    }
                    if !live {
                        assert(!pred(first[lead]));
                    }
                    assert forall|m: int, j: int|
                        1 <= m < n && 0 <= j < pulled[m] - 1 && lead + 1
                            < first.len() implies (#[trigger] full[m][j]) > first[lead + 1] by {
                        assert(first[lead] > first[lead + 1]);
                    }
                }
                if live && hit {
                    out.push(candidate);
                }
                proof {
                    lead = lead + 1;
                }
            },
        }
    }
    proof {
        let all = first.filter(pred);
        let head = first.take(lead);
        let tail = first.skip(lead);
        assert(first =~= head + tail);
        Seq::filter_distributes_over_add(head, tail, pred);
        assert(all == out@ + tail.filter(pred));
        if !live {
            assert(tail.all(|x: u64| !pred(x))) by {
                assert forall|i: int| 0 <= i < tail.len() implies !pred(#[trigger] tail[i]) by {
                    assert(tail[i] == first[lead + i]);
                }
            }
            tail.lemma_all_neg_filter_empty(pred);
            assert(all =~= out@);
        } else {
            assert(out@.len() == limit);
            assert(all.take(limit as int) =~= out@);
            if (limit as nat) >= all.len() {
                assert(all =~= out@);
            }
        }
        assert(intersection(full) == all);
        assert forall|k: int| 0 <= k < sources@.len() implies read_on(
            (#[trigger] old(sources)@[k]).remaining(),
            sources@[k].remaining(),
        ) by {
            assert(full[k] == old(sources)@[k].remaining());
            assert(sources@[k].remaining() == full[k].skip(pulled[k]));
        }
    }
    out
}

/// A number is among the common members exactly when every stream holds it, and
/// the common members come in strictly descending order when the first stream does.
pub proof fn lemma_intersection_members(streams: Seq<Seq<u64>>)
    requires
        streams.len() > 0,
        strictly_descending(streams[0]),
    ensures
        strictly_descending(intersection(streams)),
        forall|x: u64| #[trigger] intersection(streams).contains(x) <==> in_all(x, streams),
{
    let pred = |x: u64| in_all(x, streams);
    let first = streams[0];
    lemma_filter_descending(first, pred);
    assert forall|x: u64| #[trigger] intersection(streams).contains(x) <==> in_all(
        x,
        streams,
    ) by {
        if intersection(streams).contains(x) {
            let i = choose|i: int| 0 <= i < first.filter(pred).len() && first.filter(pred)[i] == x;
            first.lemma_filter_pred(pred, i);
        }
        if in_all(x, streams) {
            assert(streams[0].contains(x));
            let i = choose|i: int| 0 <= i < first.len() && first[i] == x;
            first.lemma_filter_contains(pred, i);
        }
    }
}

/// Keeping some members of a strictly descending stream leaves it strictly descending,
/// and keeps exactly the members that the test accepts.
pub proof fn lemma_filter_descending(s: Seq<u64>, pred: spec_fn(u64) -> bool)
    requires
        strictly_descending(s),
    ensures
        strictly_descending(s.filter(pred)),
        forall|x: u64| #[trigger] s.filter(pred).contains(x) <==> s.contains(x) && pred(x),
    decreases s.len(),
{
    reveal(Seq::filter);
    if s.len() > 0 {
        let rest = s.drop_last();
        lemma_filter_descending(rest, pred);
        let kept = rest.filter(pred);
        assert forall|i: int| 0 <= i < kept.len() implies #[trigger] kept[i] > s.last() by {
            assert(kept.contains(kept[i]));
            assert(rest.contains(kept[i]));
            let j = choose|j: int| 0 <= j < rest.len() && rest[j] == kept[i];
            assert(s[j] > s[s.len() - 1]);
        }
        assert forall|x: u64| #[trigger] s.filter(pred).contains(x) <==> s.contains(x) && pred(
            x,
        ) by {
            if s.filter(pred).contains(x) {
                let i = choose|i: int| 0 <= i < s.filter(pred).len() && s.filter(pred)[i] == x;
                if i < kept.len() {
                    assert(kept[i] == x);
                    assert(kept.contains(x));
                    assert(rest.contains(x));
                    let j = choose|j: int| 0 <= j < rest.len() && rest[j] == x;
                    assert(s[j] == x);
                } else {
                    assert(x == s.last());
                    assert(s[s.len() - 1] == x);
                }
            }
            if s.contains(x) && pred(x) {
                let j = choose|j: int| 0 <= j < s.len() && s[j] == x;
                if j < rest.len() {
                    assert(rest[j] == x);
                    assert(rest.contains(x));
                    assert(kept.contains(x));
                    let i = choose|i: int| 0 <= i < kept.len() && kept[i] == x;
                    assert(s.filter(pred)[i] == x);
                } else {
                    assert(s.filter(pred)[s.filter(pred).len() - 1] == x);
                }
            }
        }
    }
}

/// Two strictly descending streams with the same members are the same stream.
pub proof fn lemma_descending_unique(a: Seq<u64>, b: Seq<u64>)
    requires
        strictly_descending(a),
        strictly_descending(b),
        forall|x: u64| a.contains(x) <==> b.contains(x),
    ensures
        a == b,
    decreases a.len(),
{
    if a.len() == 0 {
        if b.len() > 0 {
            assert(b.contains(b[0]));
        }
        assert(a =~= b);
    } else {
        assert(a.contains(a[0]));
        assert(b.contains(a[0]));
        let j = choose|j: int| 0 <= j < b.len() && b[j] == a[0];
        assert(b.contains(b[0]));
        assert(a.contains(b[0]));
        let i = choose|i: int| 0 <= i < a.len() && a[i] == b[0];
        if j > 0 {
            assert(b[0] > b[j]);
            if i > 0 {
                assert(a[0] > a[i]);
            }
        }
        assert(a[0] == b[0]);
        let ra = a.drop_first();
        let rb = b.drop_first();
        assert forall|x: u64| ra.contains(x) <==> rb.contains(x) by {
            if ra.contains(x) {
                let k = choose|k: int| 0 <= k < ra.len() && ra[k] == x;
                assert(a[k + 1] == x);
                assert(a[0] > a[k + 1]);
                assert(a.contains(x));
                let m = choose|m: int| 0 <= m < b.len() && b[m] == x;
                assert(m > 0);
                assert(rb[m - 1] == x);
            }
            if rb.contains(x) {
                let k = choose|k: int| 0 <= k < rb.len() && rb[k] == x;
                assert(b[k + 1] == x);
                assert(b[0] > b[k + 1]);
                assert(b.contains(x));
                let m = choose|m: int| 0 <= m < a.len() && a[m] == x;
                assert(m > 0);
                assert(ra[m - 1] == x);
            }
        }
        assert(strictly_descending(ra)) by {
            assert forall|i: int, j: int| 0 <= i < j < ra.len() implies ra[i] > ra[j] by {
                assert(a[i + 1] > a[j + 1]);
            }
        }
        assert(strictly_descending(rb)) by {
            assert forall|i: int, j: int| 0 <= i < j < rb.len() implies rb[i] > rb[j] by {
                assert(b[i + 1] > b[j + 1]);
            }
        }
        lemma_descending_unique(ra, rb);
        assert(a =~= seq![a[0]] + ra);
        assert(b =~= seq![b[0]] + rb);
    }
}

/// All the numbers of all the streams, each as often as the streams hold it.
pub open spec fn members_of(streams: Seq<Seq<u64>>) -> Multiset<u64>
    decreases streams.len(),
{
    if streams.len() == 0 {
        Multiset::empty()
    } else {
        members_of(streams.drop_last()).add(streams.last().to_multiset())
    }
}

/// Whether `x` comes before `y` in a stream that runs from the newest number down.
pub fn newer(x: &u64, y: &u64) -> (before: bool)
    ensures
        before == (*x > *y),
{
    *x > *y
}

/// `Itertools::kmerge_by` over the streams, with `newer` as the order: the merge
/// hands out every number of every stream, each as often as the streams hold it,
/// and hands them out in descending order where each stream is in descending order.
#[verifier::external_body]
fn kmerge_descending(streams: Vec<Vec<u64>>) -> (merged: Vec<u64>)
    ensures
        merged@.to_multiset() == members_of(stream_views(streams@)),
        (forall|k: int| 0 <= k < streams@.len() ==> descending(#[trigger] streams@[k]@))
            ==> descending(merged@),
{
    streams.into_iter().kmerge_by(|x, y| newer(x, y)).collect()
}

/// A number is among the numbers of all the streams exactly when some stream holds it.
proof fn lemma_members_of(streams: Seq<Seq<u64>>, x: u64)
    ensures
        members_of(streams).count(x) > 0 <==> exists|k: int|
            0 <= k < streams.len() && (#[trigger] streams[k]).contains(x),
    decreases streams.len(),
{
    broadcast use vstd::seq_lib::to_multiset_contains;

    if streams.len() > 0 {
        let rest = streams.drop_last();
        lemma_members_of(rest, x);
        if members_of(streams).count(x) > 0 {
            if streams.last().to_multiset().count(x) > 0 {
                assert(streams[streams.len() - 1].contains(x));
            } else {
                let k = choose|k: int| 0 <= k < rest.len() && (#[trigger] rest[k]).contains(x);
                assert(streams[k].contains(x));
            }
        }
        if exists|k: int| 0 <= k < streams.len() && (#[trigger] streams[k]).contains(x) {
            let k = choose|k: int| 0 <= k < streams.len() && (#[trigger] streams[k]).contains(x);
            if k < rest.len() {
                assert(rest[k].contains(x));
            } else {
                assert(streams.last().contains(x));
            }
        }
    }
}

/// Merges descending streams into one strictly descending stream: a number that
/// several streams hold, or that one stream holds several times, comes out once.
pub fn merge_descending(streams: Vec<Vec<u64>>) -> (out: Vec<u64>)
    requires
        forall|k: int| 0 <= k < streams@.len() ==> descending(#[trigger] streams@[k]@),
    ensures
        strictly_descending(out@),
        forall|x: u64|
            out@.contains(x) <==> exists|k: int|
                0 <= k < streams@.len() && (#[trigger] stream_views(streams@)[k]).contains(x),
{
    let ghost views = stream_views(streams@);
    let merged = kmerge_descending(streams);
    let mut out: Vec<u64> = Vec::new();
    let mut i: usize = 0;
    while i < merged.len()
        invariant
            i <= merged@.len(),
            descending(merged@),
            strictly_descending(out@),
            i == 0 ==> out@.len() == 0,
            i > 0 ==> out@.len() > 0 && out@.last() == merged@[i - 1],
            forall|x: u64| out@.contains(x) <==> merged@.take(i as int).contains(x),
        decreases merged@.len() - i,
    {
        let x = merged[i];
        let ghost before = out@;
        let fresh = out.len() == 0 || out[out.len() - 1] != x;
        if fresh {
            out.push(x);
        }
        proof {
            let head = merged@.take(i as int);
            let next = merged@.take(i + 1);
            assert(next =~= head.push(x));
            if fresh {
                if i > 0 {
                    assert(merged@[i - 1] >= merged@[i as int]);
                }
                assert forall|a: int, b: int| 0 <= a < b < out@.len() implies out@[a] > out@[b] by {
                    if b == before.len() {
                        if a < before.len() - 1 {
                            assert(before[a] > before[before.len() - 1]);
                        }
                    } else {
                        assert(before[a] > before[b]);
                    }
                }
            }
            assert forall|y: u64| out@.contains(y) <==> next.contains(y) by {
                if out@.contains(y) {
                    let a = choose|a: int| 0 <= a < out@.len() && out@[a] == y;
                    if a < before.len() {
                        assert(before.contains(y));
                        let b = choose|b: int| 0 <= b < head.len() && head[b] == y;
                        assert(next[b] == y);
                    } else {
                        assert(next[i as int] == y);
                    }
                }
                if next.contains(y) {
                    let b = choose|b: int| 0 <= b < next.len() && next[b] == y;
                    if b < i {
                        assert(head[b] == y);
                        assert(head.contains(y));
                        assert(before.contains(y));
                        let a = choose|a: int| 0 <= a < before.len() && before[a] == y;
                        assert(out@[a] == y);
                    } else {
                        assert(y == x);
                        assert(out@[out@.len() - 1] == y);
                    }
                }
            }
        }
        i += 1;
    }
    proof {
        broadcast use vstd::seq_lib::to_multiset_contains;

        assert(merged@.take(i as int) =~= merged@);
        assert forall|x: u64|
            out@.contains(x) <==> exists|k: int|
                0 <= k < streams@.len() && (#[trigger] views[k]).contains(x) by {
            lemma_members_of(views, x);
        }
    }
    out
}

} // verus!
