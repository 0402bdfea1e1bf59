//! Reading a table from its newest row down, and the scan of a secondary index
//! that a filter of a query opens.

use crate::sorted_intersect::{first_n, strictly_descending};
use crate::tables::{IndexEntry, IndexKey};
use vstd::prelude::*;

verus! {

/// The rows that `keep` accepts, the last row of the table first.
pub open spec fn newest_first<T>(rows: Seq<T>, keep: spec_fn(T) -> bool) -> Seq<T> {
    rows.filter(keep).reverse()
}

/// Reading a table with one more row at its end: the new row comes first where it
/// is kept, and the rest is what the table gave before.
pub proof fn lemma_newest_first_push<T>(rows: Seq<T>, last: T, keep: spec_fn(T) -> bool)
    ensures
        newest_first(rows.push(last), keep) == if keep(last) {
            seq![last] + newest_first(rows, keep)
        } else {
            newest_first(rows, keep)
        },
{
    rows.lemma_filter_push(last, keep);
    if keep(last) {
        assert(rows.filter(keep).push(last).reverse() =~= seq![last] + rows.filter(keep).reverse());
    }
}

/// An empty table gives nothing.
pub proof fn lemma_newest_first_empty<T>(keep: spec_fn(T) -> bool)
    ensures
        newest_first(Seq::<T>::empty(), keep) == Seq::<T>::empty(),
{
    reveal(Seq::filter);
    assert(Seq::<T>::empty().filter(keep).reverse() =~= Seq::<T>::empty());
}

/// Of a table whose rows are numbered in strictly ascending order: read from the
/// newest row down, the numbers of the kept rows are strictly descending, they are
/// the numbers of exactly the rows that `keep` accepts, and every row read is a row
/// of the table.
pub proof fn lemma_newest_first_numbers<T>(
    rows: Seq<T>,
    keep: spec_fn(T) -> bool,
    number: spec_fn(T) -> u64,
)
    requires
        forall|i: int, j: int| 0 <= i < j < rows.len() ==> number(rows[i]) < number(rows[j]),
    ensures
        strictly_descending(newest_first(rows, keep).map_values(number)),
        forall|x: u64|
            newest_first(rows, keep).map_values(number).contains(x) <==> exists|i: int|
                0 <= i < rows.len() && keep(#[trigger] rows[i]) && number(rows[i]) == x,
        forall|j: int|
            0 <= j < newest_first(rows, keep).len() ==> keep(#[trigger] newest_first(rows, keep)[j])
                && rows.contains(newest_first(rows, keep)[j]),
    decreases rows.len(),
{
    let read = newest_first(rows, keep);
    let numbers = read.map_values(number);
    if rows.len() == 0 {
        lemma_newest_first_empty(keep);
    } else {
        let rest = rows.drop_last();
        let last = rows.last();
        assert(rows =~= rest.push(last));
        lemma_newest_first_push(rest, last, keep);
        lemma_newest_first_numbers(rest, keep, number);
        let before = newest_first(rest, keep);
        let before_numbers = before.map_values(number);
        assert forall|j: int| 0 <= j < before.len() implies number(#[trigger] before[j]) < number(
            last,
        ) by {
            assert(rest.contains(before[j]));
            let i = choose|i: int| 0 <= i < rest.len() && rest[i] == before[j];
            assert(number(rows[i]) < number(rows[rows.len() - 1]));
        }
        let shift: int = if keep(last) { 1 } else { 0 };
        assert(read.len() == before.len() + shift);
        assert forall|j: int| shift <= j < read.len() implies #[trigger] read[j] == before[j
            - shift] by {}
        assert forall|a: int, b: int| 0 <= a < b < numbers.len() implies numbers[a] > numbers[b] by {
            if a >= shift {
                assert(before_numbers[a - shift] > before_numbers[b - shift]);
            } else {
                assert(number(before[b - shift]) < number(last));
            }
        }
        assert forall|j: int| 0 <= j < read.len() implies keep(#[trigger] read[j])
            && rows.contains(read[j]) by {
            if j >= shift {
                assert(keep(before[j - shift]) && rest.contains(before[j - shift]));
                let i = choose|i: int| 0 <= i < rest.len() && rest[i] == before[j - shift];
                assert(rows[i] == read[j]);
            } else {
                assert(rows[rows.len() - 1] == read[j]);
            }
        }
        assert forall|x: u64|
            numbers.contains(x) <==> exists|i: int|
                0 <= i < rows.len() && keep(#[trigger] rows[i]) && number(rows[i]) == x by {
            if numbers.contains(x) {
                let j = choose|j: int| 0 <= j < numbers.len() && numbers[j] == x;
                if j >= shift {
                    assert(before_numbers[j - shift] == x);
                    assert(before_numbers.contains(x));
                    let i = choose|i: int|
                        0 <= i < rest.len() && keep(#[trigger] rest[i]) && number(rest[i]) == x;
                    assert(keep(rows[i]) && number(rows[i]) == x);
                } else {
                    assert(keep(rows[rows.len() - 1]) && number(rows[rows.len() - 1]) == x);
                }
            }
            if exists|i: int|
                0 <= i < rows.len() && keep(#[trigger] rows[i]) && number(rows[i]) == x {
                let i = choose|i: int|
                    0 <= i < rows.len() && keep(#[trigger] rows[i]) && number(rows[i]) == x;
                if i < rest.len() {
                    assert(keep(rest[i]) && number(rest[i]) == x);
                    assert(before_numbers.contains(x));
                    let j = choose|j: int| 0 <= j < before_numbers.len() && before_numbers[j] == x;
                    assert(numbers[j + shift] == x);
                } else {
                    assert(numbers[0] == x);
                }
            }
        }
    }
}

/// Whether a scan for `key` below `cursor` takes an entry.
pub open spec fn scanned(entry: IndexEntry, key: IndexKey, cursor: u64) -> bool {
    entry.key == key && entry.seq < cursor
}

/// What a scan of an index hands out: the sequence numbers of the entries under
/// `key` that lie below `cursor`, the newest entry first.
pub open spec fn index_scan(table: Seq<IndexEntry>, key: IndexKey, cursor: u64) -> Seq<u64> {
    newest_first(table, |e: IndexEntry| scanned(e, key, cursor)).map_values(|e: IndexEntry| e.seq)
}

/// Whether the entries of an index are numbered in strictly ascending order.
pub open spec fn ascending(table: Seq<IndexEntry>) -> bool {
    forall|i: int, j: int| 0 <= i < j < table.len() ==> table[i].seq < table[j].seq
}

/// The scan of an index whose entries are numbered in strictly ascending order is
/// strictly descending, and it hands out a number exactly when the index holds it
/// under the key and the number lies below the cursor.
pub proof fn lemma_index_scan(table: Seq<IndexEntry>, key: IndexKey, cursor: u64)
    requires
        ascending(table),
    ensures
        strictly_descending(index_scan(table, key, cursor)),
        forall|x: u64|
            index_scan(table, key, cursor).contains(x) <==> exists|i: int|
                0 <= i < table.len() && scanned(#[trigger] table[i], key, cursor) && table[i].seq
                    == x,
{
    let keep = |e: IndexEntry| scanned(e, key, cursor);
    let number = |e: IndexEntry| e.seq;
    lemma_newest_first_numbers(table, keep, number);
    assert forall|x: u64|
        index_scan(table, key, cursor).contains(x) <==> exists|i: int|
            0 <= i < table.len() && scanned(#[trigger] table[i], key, cursor) && table[i].seq
                == x by {
        if index_scan(table, key, cursor).contains(x) {
            let i = choose|i: int|
                0 <= i < table.len() && keep(#[trigger] table[i]) && number(table[i]) == x;
            assert(scanned(table[i], key, cursor) && table[i].seq == x);
        }
        if exists|i: int|
            0 <= i < table.len() && scanned(#[trigger] table[i], key, cursor) && table[i].seq
                == x {
            let i = choose|i: int|
                0 <= i < table.len() && scanned(#[trigger] table[i], key, cursor) && table[i].seq
                    == x;
            assert(keep(table[i]) && number(table[i]) == x);
        }
    }
}

/// Scans an index from its newest entry down for the entries under `key` that lie
/// below `cursor`.
pub fn scan_index(table: &Vec<IndexEntry>, key: IndexKey, cursor: u64) -> (out: Vec<u64>)
    ensures
        out@ == index_scan(table@, key, cursor),
{
    let ghost keep = |e: IndexEntry| scanned(e, key, cursor);
    let ghost number = |e: IndexEntry| e.seq;
    let mut out: Vec<u64> = Vec::new();
    let mut i: usize = table.len();
    proof {
        assert(table@.take(i as int) =~= table@);
    }
    while i > 0
        invariant
            i <= table@.len(),
            keep == (|e: IndexEntry| scanned(e, key, cursor)),
            number == (|e: IndexEntry| e.seq),
            out@ + newest_first(table@.take(i as int), keep).map_values(number) == index_scan(
                table@,
                key,
                cursor,
            ),
        decreases i,
    {
        i -= 1;
        let entry = table[i];
        proof {
            let shorter = table@.take(i as int);
            assert(table@.take(i + 1) =~= shorter.push(entry));
            lemma_newest_first_push(shorter, entry, keep);
            let rest = newest_first(shorter, keep).map_values(number);
            if keep(entry) {
                assert((seq![entry] + newest_first(shorter, keep)).map_values(number) =~= seq![
                    entry.seq,
                ] + rest);
                assert(out@.push(entry.seq) + rest =~= out@ + (seq![entry.seq] + rest));
            }
        }
        if entry.key == key && entry.seq < cursor {
            out.push(entry.seq);
        }
    }
    proof {
        lemma_newest_first_empty(keep);
        assert(table@.take(0) =~= Seq::<IndexEntry>::empty());
        assert(out@ + Seq::<IndexEntry>::empty().map_values(number) =~= out@);
    }
    out
}

/// The scan of an index with one more entry at its end: the number of the new
/// entry comes first where the scan takes it, and the rest is the scan of before.
pub proof fn lemma_index_scan_push(
    table: Seq<IndexEntry>,
    entry: IndexEntry,
    key: IndexKey,
    cursor: u64,
)
    ensures
        index_scan(table.push(entry), key, cursor) == if scanned(entry, key, cursor) {
            seq![entry.seq] + index_scan(table, key, cursor)
        } else {
            index_scan(table, key, cursor)
        },
{
    let keep = |e: IndexEntry| scanned(e, key, cursor);
    let number = |e: IndexEntry| e.seq;
    lemma_newest_first_push(table, entry, keep);
    if keep(entry) {
        assert((seq![entry] + newest_first(table, keep)).map_values(number) =~= seq![entry.seq]
            + newest_first(table, keep).map_values(number));
    }
}

/// A scan of an index that is read on demand: each call for the next number
/// goes down the index as far as the next entry under the key, and no further.
#[derive(Debug)]
pub struct IndexCursor<'a> {
    table: &'a Vec<IndexEntry>,
    key: IndexKey,
    cursor: u64,
    /// The entries from here on were read.
    at: usize,
}

impl<'a> IndexCursor<'a> {
    /// The numbers that the scan has not handed out yet, the newest first.
    pub closed spec fn remaining(&self) -> Seq<u64> {
        index_scan(self.table@.take(self.at as int), self.key, self.cursor)
    }

    /// Whether the scan is in order: it stands inside its index, and the
    /// entries of the index are numbered in strictly ascending order.
    pub closed spec fn wf(&self) -> bool {
        self.at <= self.table@.len() && ascending(self.table@)
    }

    /// What is left of a scan is strictly descending.
    pub proof fn lemma_remaining(&self)
        requires
            self.wf(),
        ensures
            strictly_descending(self.remaining()),
    {
        let read = self.table@.take(self.at as int);
        assert(ascending(read)) by {
            assert forall|i: int, j: int| 0 <= i < j < read.len() implies read[i].seq
                < read[j].seq by {
                assert(self.table@[i].seq < self.table@[j].seq);
            }
        }
        lemma_index_scan(read, self.key, self.cursor);
    }

    /// Opens the scan of `table` for the entries under `key` that lie below `cursor`.
    pub fn open(table: &'a Vec<IndexEntry>, key: IndexKey, cursor: u64) -> (scan: IndexCursor<'a>)
        requires
            ascending(table@),
        ensures
            scan.wf(),
            scan.remaining() == index_scan(table@, key, cursor),
    {
        proof {
            assert(table@.take(table@.len() as int) =~= table@);
        }
        IndexCursor { table, key, cursor, at: table.len() }
    }

    /// The next number of the scan, if there is one.
    pub fn next(&mut self) -> (number: Option<u64>)
        requires
            old(self).wf(),
        ensures
            final(self).wf(),
            match number {
                Some(x) => old(self).remaining() == seq![x] + final(self).remaining(),
                None => old(self).remaining() == Seq::<u64>::empty() && final(self).remaining()
                    == Seq::<u64>::empty(),
            },
    {
        while self.at > 0
            invariant
                self.wf(),
                self.table == old(self).table,
                self.key == old(self).key,
                self.cursor == old(self).cursor,
                self.remaining() == old(self).remaining(),
            decreases self.at,
        {
            self.at = self.at - 1;
            let entry = self.table[self.at];
            proof {
                let shorter = self.table@.take(self.at as int);
                assert(self.table@.take(self.at + 1) =~= shorter.push(entry));
                lemma_index_scan_push(shorter, entry, self.key, self.cursor);
            }
            if entry.key == self.key && entry.seq < self.cursor {
                return Some(entry.seq);
            }
        }
        proof {
            assert(self.table@.take(0) =~= Seq::<IndexEntry>::empty());
            lemma_newest_first_empty(|e: IndexEntry| scanned(e, self.key, self.cursor));
            assert(self.remaining() =~= Seq::<u64>::empty());
        }
        None
    }
}

/// Keeping some rows of a table leaves the rows that are kept in their order.
pub proof fn lemma_filter_keeps_order<T>(
    rows: Seq<T>,
    keep: spec_fn(T) -> bool,
    before: spec_fn(T, T) -> bool,
)
    requires
        forall|i: int, j: int| 0 <= i < j < rows.len() ==> before(rows[i], rows[j]),
    ensures
        forall|i: int, j: int|
            0 <= i < j < rows.filter(keep).len() ==> before(
                #[trigger] rows.filter(keep)[i],
                #[trigger] rows.filter(keep)[j],
            ),
    decreases rows.len(),
{
    reveal(Seq::filter);
    if rows.len() > 0 {
        let rest = rows.drop_last();
        lemma_filter_keeps_order(rest, keep, before);
        let kept = rest.filter(keep);
        let all = rows.filter(keep);
        assert forall|i: int, j: int| 0 <= i < j < all.len() implies before(
            #[trigger] all[i],
            #[trigger] all[j],
        ) by {
            if j < kept.len() {
                assert(all[i] == kept[i] && all[j] == kept[j]);
            } else {
                assert(all[j] == rows.last());
                assert(all[i] == kept[i]);
                assert(kept.contains(kept[i]));
                rest.lemma_filter_contains_rev(keep, kept[i]);
                let at = choose|at: int| 0 <= at < rest.len() && rest[at] == kept[i];
                assert(before(rows[at], rows[rows.len() - 1]));
            }
        }
    }
}

/// A forward listing that stopped at row `upto`, at the end of the table or with a
/// full page, holds the first page of the rows that `keep` accepts.
pub proof fn lemma_page_of_filter<T>(
    rows: Seq<T>,
    keep: spec_fn(T) -> bool,
    upto: int,
    page: Seq<T>,
    limit: nat,
)
    requires
        0 <= upto <= rows.len(),
        page == rows.take(upto).filter(keep),
        page.len() <= limit,
        upto == rows.len() || page.len() == limit,
    ensures
        page == first_n(rows.filter(keep), limit),
{
    let head = rows.take(upto);
    let tail = rows.skip(upto);
    assert(rows =~= head + tail);
    Seq::filter_distributes_over_add(head, tail, keep);
    if upto == rows.len() {
        reveal(Seq::filter);
        assert(tail.filter(keep) =~= Seq::<T>::empty());
        assert(rows.filter(keep) =~= page);
    } else {
        assert(rows.filter(keep).take(limit as int) =~= page);
        if limit >= rows.filter(keep).len() {
            assert(rows.filter(keep) =~= page);
        }
    }
}

/// A listing from the newest row down that stopped above row `from`, at the start of
/// the table or with a full page, holds the first page of the rows that `keep` accepts.
pub proof fn lemma_page_of_newest<T>(
    rows: Seq<T>,
    keep: spec_fn(T) -> bool,
    from: int,
    page: Seq<T>,
    limit: nat,
)
    requires
        0 <= from <= rows.len(),
        page + newest_first(rows.take(from), keep) == newest_first(rows, keep),
        page.len() <= limit,
        from == 0 || page.len() == limit,
    ensures
        page == first_n(newest_first(rows, keep), limit),
{
    let all = newest_first(rows, keep);
    if from == 0 {
        assert(rows.take(0) =~= Seq::<T>::empty());
        lemma_newest_first_empty(keep);
        assert(all =~= page);
    } else {
        assert(all.take(limit as int) =~= page);
        if limit >= all.len() {
            assert(all =~= page);
        }
    }
}

} // verus!
