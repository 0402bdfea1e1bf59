use tezedge_recorder::events::{
    CacheAlloc, CacheAllocNode, CacheFree, CommonHeader, KFree, KMAlloc, KMAllocNode, PageAlloc,
    PageAllocExtFrag, PageAllocZoneLocked, PageFaultUser, PageFree, PageFreeBatched, PagePcpuDrain,
    Pod,
};

fn bytes_of(parts: &[&[u8]]) -> Vec<u8> {
    let mut bytes = Vec::new();
    for part in parts {
        bytes.extend_from_slice(part);
    }
    bytes
}

#[test]
fn common_header_is_read_field_by_field() {
    let bytes = bytes_of(&[&0x1234u16.to_ne_bytes(), &[7, 9], &0xdead_beefu32.to_ne_bytes()]);
    let header = CommonHeader::from_slice(&bytes).unwrap();
    assert_eq!(header.ty, 0x1234);
    assert_eq!(header.flags, 7);
    assert_eq!(header.preempt_count, 9);
    assert_eq!(header.pid, 0xdead_beef);
    assert_eq!(CommonHeader::SIZE, 8);
    assert_eq!(CommonHeader::discriminant(), None);
    assert!(CommonHeader::from_slice(&bytes[..7]).is_none());
}

#[test]
fn kfree_and_cache_free_hold_two_addresses() {
    let bytes = bytes_of(&[
        &0x0102_0304_0506_0708u64.to_ne_bytes(),
        &0x1112_1314_1516_1718u64.to_ne_bytes(),
        &[0xaa],
    ]);
    let event = KFree::from_slice(&bytes).unwrap();
    assert_eq!(event.call_site.0, 0x0102_0304_0506_0708);
    assert_eq!(event.ptr.0, 0x1112_1314_1516_1718);
    let event = CacheFree::from_slice(&bytes).unwrap();
    assert_eq!(event.call_site.0, 0x0102_0304_0506_0708);
    assert_eq!(event.ptr.0, 0x1112_1314_1516_1718);
    assert!(KFree::from_slice(&bytes[..15]).is_none());
    assert!(CacheFree::from_slice(&[]).is_none());
    assert_eq!(KFree::discriminant(), Some(1));
    assert_eq!(CacheFree::discriminant(), Some(6));
    assert_eq!(KFree::SIZE, 0x10);
    assert_eq!(CacheFree::SIZE, 0x10);
}

#[test]
fn allocations_hold_sizes_and_flags() {
    let bytes = bytes_of(&[
        &1u64.to_ne_bytes(),
        &2u64.to_ne_bytes(),
        &0x300u64.to_ne_bytes(),
        &0x400u64.to_ne_bytes(),
        &0x0500_0006u32.to_ne_bytes(),
        &0x0700_0008u32.to_ne_bytes(),
    ]);
    let event = KMAlloc::from_slice(&bytes).unwrap();
    assert_eq!(
        (event.call_site.0, event.ptr.0, event.bytes_req.0, event.bytes_alloc.0, event.gfp_flags.0),
        (1, 2, 0x300, 0x400, 0x0500_0006)
    );
    let event = CacheAlloc::from_slice(&bytes[..0x24]).unwrap();
    assert_eq!(
        (event.call_site.0, event.ptr.0, event.bytes_req.0, event.bytes_alloc.0, event.gfp_flags.0),
        (1, 2, 0x300, 0x400, 0x0500_0006)
    );
    let event = KMAllocNode::from_slice(&bytes).unwrap();
    assert_eq!((event.bytes_alloc.0, event.gfp_flags.0, event.node.0), (0x400, 0x0500_0006, 0x0700_0008));
    let event = CacheAllocNode::from_slice(&bytes).unwrap();
    assert_eq!((event.call_site.0, event.ptr.0, event.bytes_req.0), (1, 2, 0x300));
    assert_eq!(event.node.0, 0x0700_0008);
    assert!(KMAlloc::from_slice(&bytes[..0x23]).is_none());
    assert!(CacheAlloc::from_slice(&bytes[..0x23]).is_none());
    assert!(KMAllocNode::from_slice(&bytes[..0x27]).is_none());
    assert!(CacheAllocNode::from_slice(&bytes[..0x27]).is_none());
    assert_eq!(
        (KMAlloc::discriminant(), KMAllocNode::discriminant(), CacheAlloc::discriminant(), CacheAllocNode::discriminant()),
        (Some(2), Some(3), Some(4), Some(5))
    );
    assert_eq!((KMAlloc::SIZE, KMAllocNode::SIZE, CacheAlloc::SIZE, CacheAllocNode::SIZE), (0x24, 0x28, 0x24, 0x28));
}

#[test]
fn page_events_hold_signed_migration_types() {
    let bytes = bytes_of(&[
        &0xabcdu64.to_ne_bytes(),
        &3u32.to_ne_bytes(),
        &0x0010_0cc0u32.to_ne_bytes(),
        &(-2i32).to_ne_bytes(),
        &i32::MIN.to_ne_bytes(),
        &i32::MAX.to_ne_bytes(),
    ]);
    let event = PageAlloc::from_slice(&bytes).unwrap();
    assert_eq!((event.pfn.0, event.order, event.gfp_flags.0, event.migrate_ty), (0xabcd, 3, 0x0010_0cc0, -2));
    let event = PageAllocExtFrag::from_slice(&bytes).unwrap();
    assert_eq!((event.pfn.0, event.alloc_order, event.fallback_order), (0xabcd, 3, 0x0010_0cc0));
    assert_eq!(
        (event.alloc_migrate_ty, event.fallback_migrate_ty, event.change_ownership),
        (-2, i32::MIN, i32::MAX)
    );
    assert!(PageAlloc::from_slice(&bytes[..0x13]).is_none());
    assert!(PageAllocExtFrag::from_slice(&bytes[..0x1b]).is_none());
    assert_eq!((PageAlloc::discriminant(), PageAllocExtFrag::discriminant()), (Some(7), Some(8)));
    assert_eq!((PageAlloc::SIZE, PageAllocExtFrag::SIZE), (0x14, 0x1c));
}

#[test]
fn short_page_events_are_read_from_their_first_bytes() {
    let bytes = bytes_of(&[&0x77u64.to_ne_bytes(), &9u32.to_ne_bytes(), &(-1i32).to_ne_bytes()]);
    let event = PageAllocZoneLocked::from_slice(&bytes).unwrap();
    assert_eq!((event.pfn.0, event.order, event.migrate_ty), (0x77, 9, -1));
    let event = PagePcpuDrain::from_slice(&bytes).unwrap();
    assert_eq!((event.pfn.0, event.order, event.migrate_ty), (0x77, 9, -1));
    let event = PageFree::from_slice(&bytes).unwrap();
    assert_eq!((event.pfn.0, event.order), (0x77, 9));
    let event = PageFreeBatched::from_slice(&bytes).unwrap();
    assert_eq!(event.pfn.0, 0x77);
    assert!(PageAllocZoneLocked::from_slice(&bytes[..0x0f]).is_none());
    assert!(PagePcpuDrain::from_slice(&bytes[..0x0f]).is_none());
    assert!(PageFree::from_slice(&bytes[..0x0b]).is_none());
    assert!(PageFreeBatched::from_slice(&bytes[..0x07]).is_none());
    assert_eq!(
        (
            PageAllocZoneLocked::discriminant(),
            PageFree::discriminant(),
            PageFreeBatched::discriminant(),
            PagePcpuDrain::discriminant()
        ),
        (Some(9), Some(10), Some(11), Some(12))
    );
    assert_eq!(
        (PageAllocZoneLocked::SIZE, PageFree::SIZE, PageFreeBatched::SIZE, PagePcpuDrain::SIZE),
        (0x10, 0x0c, 0x08, 0x10)
    );
}

#[test]
fn page_fault_holds_three_numbers() {
    let bytes = bytes_of(&[
        &0x7fff_0000_1000u64.to_ne_bytes(),
        &0x5555_0000_2000u64.to_ne_bytes(),
        &u64::MAX.to_ne_bytes(),
    ]);
    let event = PageFaultUser::from_slice(&bytes).unwrap();
    assert_eq!((event.address.0, event.ip.0, event.error_code), (0x7fff_0000_1000, 0x5555_0000_2000, u64::MAX));
    assert!(PageFaultUser::from_slice(&bytes[..0x17]).is_none());
    assert_eq!(PageFaultUser::discriminant(), Some(13));
    assert_eq!(PageFaultUser::SIZE, 0x18);
}
