use tezedge_recorder::consumer::{Action, Consumer, Event, EventKind};

fn event(pid: u32, event: EventKind) -> Event {
    Event { pid, event }
}

#[test]
fn nothing_is_tallied_before_the_first_allocation() {
    let mut consumer = Consumer::new();
    assert_eq!(consumer.pid(), 0);
    assert_eq!(consumer.arrive(&event(7, EventKind::PageFree { pfn: 5 }), 0), Action::Ignore);
    assert_eq!(consumer.arrive(&event(7, EventKind::AddToPageCache { pfn: 5 }), 0), Action::Ignore);
    assert_eq!(consumer.arrive(&event(7, EventKind::RssStat { member: 1, size: 9_000_000 }), 1), Action::Ignore);
    assert_eq!(consumer.pid(), 0);
    assert_eq!(
        consumer.arrive(&event(7, EventKind::PageAlloc { pfn: 5, order: 2 }), 0),
        Action::TrackAlloc { pfn: 5, order: 2 }
    );
    assert_eq!(consumer.pid(), 7);
    assert_eq!(consumer.arrive(&event(7, EventKind::PageFree { pfn: 5 }), 0), Action::TrackFree { pfn: 5 });
}

#[test]
fn repeated_event_is_passed_over_once() {
    let mut consumer = Consumer::new();
    let alloc = event(3, EventKind::PageAlloc { pfn: 0x1_0000_0009, order: 0x102 });
    assert_eq!(consumer.arrive(&alloc, 0), Action::TrackAlloc { pfn: 9, order: 2 });
    assert_eq!(consumer.arrive(&alloc, 0), Action::Ignore);
    assert_eq!(consumer.arrive(&alloc, 0), Action::Ignore);
    let other = event(3, EventKind::Other { discriminant: 40 });
    assert_eq!(consumer.arrive(&other, 0), Action::Ignore);
    assert_eq!(consumer.arrive(&alloc, 0), Action::TrackAlloc { pfn: 9, order: 2 });
}

#[test]
fn events_without_a_page_are_passed_over() {
    let mut consumer = Consumer::new();
    assert_eq!(consumer.arrive(&event(3, EventKind::PageAlloc { pfn: 0, order: 1 }), 0), Action::Ignore);
    assert_eq!(consumer.pid(), 0);
    assert_eq!(consumer.arrive(&event(3, EventKind::PageAlloc { pfn: 1, order: 1 }), 0), Action::TrackAlloc { pfn: 1, order: 1 });
    assert_eq!(consumer.arrive(&event(3, EventKind::PageFree { pfn: 0 }), 0), Action::Ignore);
    assert_eq!(consumer.arrive(&event(3, EventKind::AddToPageCache { pfn: 0 }), 0), Action::Ignore);
    assert_eq!(consumer.arrive(&event(3, EventKind::RemoveFromPageCache { pfn: 0 }), 0), Action::Ignore);
    assert_eq!(
        consumer.arrive(&event(3, EventKind::AddToPageCache { pfn: 8 }), 0),
        Action::MarkCache { pfn: 8, cached: true }
    );
    assert_eq!(
        consumer.arrive(&event(3, EventKind::RemoveFromPageCache { pfn: 8 }), 0),
        Action::MarkCache { pfn: 8, cached: false }
    );
}

#[test]
fn process_over_its_limit_is_killed_and_heard_no_more() {
    let mut consumer = Consumer::new();
    consumer.arrive(&event(11, EventKind::PageAlloc { pfn: 1, order: 0 }), 500);
    assert_eq!(
        consumer.arrive(&event(11, EventKind::RssStat { member: 1, size: 500_999 }), 500),
        Action::TrackRss { size: 500_999 }
    );
    // Another part of the resident set is not tallied.
    assert_eq!(consumer.arrive(&event(11, EventKind::RssStat { member: 0, size: 900_000 }), 500), Action::Ignore);
    // No limit, no kill.
    assert_eq!(
        consumer.arrive(&event(11, EventKind::RssStat { member: 1, size: 900_000 }), 0),
        Action::TrackRss { size: 900_000 }
    );
    assert_eq!(
        consumer.arrive(&event(11, EventKind::RssStat { member: 1, size: 501_000 }), 500),
        Action::KillAndTrackRss { pid: 11, size: 501_000 }
    );
    assert_eq!(consumer.arrive(&event(11, EventKind::PageAlloc { pfn: 2, order: 0 }), 500), Action::Ignore);
    assert_eq!(consumer.arrive(&event(11, EventKind::RssStat { member: 1, size: 1 }), 500), Action::Ignore);
}

#[test]
fn sizes_below_zero_keep_their_bits() {
    let mut consumer = Consumer::new();
    consumer.arrive(&event(11, EventKind::PageAlloc { pfn: 1, order: 0 }), 0);
    assert_eq!(
        consumer.arrive(&event(11, EventKind::RssStat { member: 1, size: -1 }), 0),
        Action::TrackRss { size: u64::MAX }
    );
    // -5000 bytes are -5 thousands, which read without a sign lie over every limit.
    assert_eq!(
        consumer.arrive(&event(11, EventKind::RssStat { member: 1, size: -5000 }), 10),
        Action::KillAndTrackRss { pid: 11, size: (-5000i64) as u64 }
    );
    let mut consumer = Consumer::new();
    consumer.arrive(&event(11, EventKind::PageAlloc { pfn: 1, order: 0 }), 0);
    // -999 bytes are no thousand at all.
    assert_eq!(
        consumer.arrive(&event(11, EventKind::RssStat { member: 1, size: -999 }), 10),
        Action::TrackRss { size: (-999i64) as u64 }
    );
    assert_eq!(
        consumer.arrive(&event(11, EventKind::RssStat { member: 1, size: i64::MIN }), 10),
        Action::KillAndTrackRss { pid: 11, size: 1 << 63 }
    );
}
