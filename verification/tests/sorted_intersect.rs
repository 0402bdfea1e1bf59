use tezedge_recorder::index::{scan_index, IndexCursor};
use tezedge_recorder::sorted_intersect::{merge_descending, newer, sorted_intersect};
use tezedge_recorder::tables::{IndexEntry, IndexKey};

const KEY: IndexKey = IndexKey { value: 7, extra: 1 };
const OTHER: IndexKey = IndexKey { value: 7, extra: 2 };

/// An index that holds the numbers under `KEY`, with entries under another key in between.
fn index_of(descending: &[u64]) -> Vec<IndexEntry> {
    let mut table = Vec::new();
    for seq in 0..=descending.first().copied().unwrap_or(0).min(1000) {
        if descending.contains(&seq) {
            table.push(IndexEntry { key: KEY, seq });
        } else if seq % 3 == 0 {
            table.push(IndexEntry { key: OTHER, seq });
        }
    }
    table
}

fn intersect(streams: &[Vec<u64>], limit: usize) -> Vec<u64> {
    let tables: Vec<Vec<IndexEntry>> = streams.iter().map(|s| index_of(s)).collect();
    let mut sources: Vec<IndexCursor> =
        tables.iter().map(|t| IndexCursor::open(t, KEY, u64::MAX)).collect();
    sorted_intersect(&mut sources, limit)
}

#[test]
fn no_stream_has_no_common_member() {
    assert_eq!(intersect(&[], 10), Vec::<u64>::new());
}

#[test]
fn one_stream_is_handed_out_up_to_the_limit() {
    let streams = [vec![9u64, 7, 4, 1]];
    assert_eq!(intersect(&streams, 10), vec![9, 7, 4, 1]);
    assert_eq!(intersect(&streams, 4), vec![9, 7, 4, 1]);
    assert_eq!(intersect(&streams, 2), vec![9, 7]);
    assert_eq!(intersect(&streams, 0), Vec::<u64>::new());
}

#[test]
fn common_members_come_out_newest_first() {
    let streams = [
        vec![20u64, 18, 15, 12, 9, 6, 3],
        vec![19, 18, 12, 11, 9, 3, 2],
        vec![18, 17, 12, 9, 8, 3, 1, 0],
    ];
    assert_eq!(intersect(&streams, 10), vec![18, 12, 9, 3]);
    assert_eq!(intersect(&streams, 3), vec![18, 12, 9]);
    assert_eq!(intersect(&streams, 1), vec![18]);
}

#[test]
fn order_of_the_streams_does_not_matter() {
    let a = vec![900u64, 100, 50, 7, 0];
    let b = vec![100u64, 7, 6, 0];
    assert_eq!(intersect(&[a.clone(), b.clone()], 10), vec![100, 7, 0]);
    assert_eq!(intersect(&[b, a], 10), vec![100, 7, 0]);
}

#[test]
fn an_empty_stream_empties_the_result() {
    assert_eq!(intersect(&[vec![5u64, 4, 3], vec![], vec![5, 3]], 10), Vec::<u64>::new());
    assert_eq!(intersect(&[vec![], vec![5u64, 4, 3]], 10), Vec::<u64>::new());
}

#[test]
fn disjoint_streams_have_no_common_member() {
    assert_eq!(intersect(&[vec![9u64, 7, 5, 3, 1], vec![8, 6, 4, 2, 0]], 10), Vec::<u64>::new());
}

#[test]
fn intersection_agrees_with_the_sets() {
    // Streams of the multiples of 2, 3 and 5 below 200, newest first.
    let multiples = |k: u64| -> Vec<u64> { (0..200u64).rev().filter(|x| x % k == 0).collect() };
    let streams = [multiples(2), multiples(3), multiples(5)];
    let expected: Vec<u64> = (0..200u64).rev().filter(|x| x % 30 == 0).collect();
    assert_eq!(expected, vec![180, 150, 120, 90, 60, 30, 0]);
    for limit in 0..10usize {
        let page: Vec<u64> = expected.iter().copied().take(limit).collect();
        assert_eq!(intersect(&streams, limit), page);
    }
}

#[test]
fn walk_reads_the_scans_no_further_than_it_needs() {
    let a = index_of(&[50, 40, 30, 20, 10]);
    let b = index_of(&[45, 40, 35, 20, 5]);
    let mut sources = vec![IndexCursor::open(&a, KEY, u64::MAX), IndexCursor::open(&b, KEY, u64::MAX)];
    assert_eq!(sorted_intersect(&mut sources, 1), vec![40]);
    // The scans stand just behind the number that was found.
    assert_eq!(sources[0].next(), Some(30));
    assert_eq!(sources[1].next(), Some(35));
    // A walk over what is left goes on from there.
    assert_eq!(sorted_intersect(&mut sources, 10), vec![20]);
    assert_eq!(sources[0].next(), None);
}

#[test]
fn scan_hands_out_the_entries_under_its_key_below_the_cursor() {
    let table = index_of(&[12, 9, 8, 3]);
    assert!(table.iter().any(|entry| entry.key == OTHER));
    assert_eq!(scan_index(&table, KEY, u64::MAX), vec![12, 9, 8, 3]);
    assert_eq!(scan_index(&table, KEY, 12), vec![9, 8, 3]);
    assert_eq!(scan_index(&table, KEY, 4), vec![3]);
    assert_eq!(scan_index(&table, KEY, 3), Vec::<u64>::new());
    assert_eq!(scan_index(&table, OTHER, 8), vec![6, 0]);
    assert_eq!(scan_index(&table, IndexKey { value: 0, extra: 0 }, u64::MAX), Vec::<u64>::new());
    let mut scan = IndexCursor::open(&table, KEY, 10);
    assert_eq!(scan.next(), Some(9));
    assert_eq!(scan.next(), Some(8));
    assert_eq!(scan.next(), Some(3));
    assert_eq!(scan.next(), None);
    assert_eq!(scan.next(), None);
}

#[test]
fn newer_is_greater() {
    assert!(newer(&2, &1));
    assert!(!newer(&1, &2));
    assert!(!newer(&1, &1));
}

#[test]
fn merge_interleaves_the_streams() {
    let merged = merge_descending(vec![vec![9u64, 5, 1], vec![8, 6, 2], vec![7, 4, 3, 0]]);
    assert_eq!(merged, vec![9, 8, 7, 6, 5, 4, 3, 2, 1, 0]);
}

#[test]
fn merge_hands_a_number_out_once() {
    let merged = merge_descending(vec![vec![9u64, 5, 5, 1], vec![9, 6, 5], vec![], vec![1]]);
    assert_eq!(merged, vec![9, 6, 5, 1]);
    assert_eq!(merge_descending(vec![]), Vec::<u64>::new());
    assert_eq!(merge_descending(vec![vec![], vec![]]), Vec::<u64>::new());
}
