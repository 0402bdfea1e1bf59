//! Records of the memory events of the kernel, read from the bytes of a trace.
//!
//! The numbers of a record stand in the byte order of the machine that wrote
//! the trace, which is the machine that reads it.

use crate::nonce::be_value;
use vstd::prelude::*;

verus! {

/// A number of 64 bits that is shown in hexadecimal.
#[derive(Clone, Copy, Debug)]
pub struct Hex64(pub u64);

/// A number of 32 bits that is shown in hexadecimal.
#[derive(Clone, Copy, Debug)]
pub struct Hex32(pub u32);

/// The number that a byte string stands for, its first byte the least significant.
pub open spec fn le_value(bytes: Seq<u8>) -> nat
    decreases bytes.len(),
{
    if bytes.len() == 0 {
        0
    } else {
        bytes[0] as nat + 256 * le_value(bytes.drop_first())
    }
}

/// Whether `value` is what the bytes stand for in one of the two byte orders.
pub open spec fn native_reading(bytes: Seq<u8>, value: nat) -> bool {
    value == le_value(bytes) || value == be_value(bytes)
}

/// The number of 32 bits without a sign that has the bits of `value`.
pub open spec fn unsigned_of(value: i32) -> nat {
    if value >= 0 {
        value as nat
    } else {
        (value + 0x1_0000_0000) as nat
    }
}

/// `u16::from_ne_bytes` of std: the number that two bytes stand for in the byte
/// order of the machine, which is one of the two byte orders.
#[verifier::external_body]
fn u16_from_ne_bytes(bytes: &[u8]) -> (value: u16)
    requires
        bytes@.len() == 2,
    ensures
        native_reading(bytes@, value as nat),
{
    u16::from_ne_bytes(bytes.try_into().unwrap())
}

/// `u32::from_ne_bytes` of std: the number that four bytes stand for in the byte
/// order of the machine, which is one of the two byte orders.
#[verifier::external_body]
fn u32_from_ne_bytes(bytes: &[u8]) -> (value: u32)
    requires
        bytes@.len() == 4,
    ensures
        native_reading(bytes@, value as nat),
{
    u32::from_ne_bytes(bytes.try_into().unwrap())
}

/// `u64::from_ne_bytes` of std: the number that eight bytes stand for in the byte
/// order of the machine, which is one of the two byte orders.
#[verifier::external_body]
fn u64_from_ne_bytes(bytes: &[u8]) -> (value: u64)
    requires
        bytes@.len() == 8,
    ensures
        native_reading(bytes@, value as nat),
{
    u64::from_ne_bytes(bytes.try_into().unwrap())
}

/// `i32::from_ne_bytes` of std: the number in two's complement whose bits four
/// bytes give in the byte order of the machine, which is one of the two byte orders.
#[verifier::external_body]
fn i32_from_ne_bytes(bytes: &[u8]) -> (value: i32)
    requires
        bytes@.len() == 4,
    ensures
        native_reading(bytes@, unsigned_of(value)),
{
    i32::from_ne_bytes(bytes.try_into().unwrap())
}

/// The number of 16 bits at `at`.
fn read_u16(s: &[u8], at: usize) -> (value: u16)
    requires
        at + 2 <= s@.len(),
    ensures
        native_reading(s@.subrange(at as int, at + 2), value as nat),
{
    let len = s.len();
    assert(at + 2 <= len);
    u16_from_ne_bytes(&s[at..at + 2])
}

/// The number of 32 bits at `at`.
fn read_u32(s: &[u8], at: usize) -> (value: u32)
    requires
        at + 4 <= s@.len(),
    ensures
        native_reading(s@.subrange(at as int, at + 4), value as nat),
{
    let len = s.len();
    assert(at + 4 <= len);
    u32_from_ne_bytes(&s[at..at + 4])
}

/// The number of 64 bits at `at`.
fn read_u64(s: &[u8], at: usize) -> (value: u64)
    requires
        at + 8 <= s@.len(),
    ensures
        native_reading(s@.subrange(at as int, at + 8), value as nat),
{
    let len = s.len();
    assert(at + 8 <= len);
    u64_from_ne_bytes(&s[at..at + 8])
}

/// The signed number of 32 bits at `at`.
fn read_i32(s: &[u8], at: usize) -> (value: i32)
    requires
        at + 4 <= s@.len(),
    ensures
        native_reading(s@.subrange(at as int, at + 4), unsigned_of(value)),
{
    let len = s.len();
    assert(at + 4 <= len);
    i32_from_ne_bytes(&s[at..at + 4])
}

/// A record of fixed size that is read from the bytes of a trace.
pub trait Pod: Sized {
    /// The number of bytes that the record takes.
    const SIZE: usize;

    /// The number that marks the record in a trace, where it has one.
    fn discriminant() -> Option<u32>;

    /// Reads the record from the start of `s`. Bytes behind the record are
    /// passed over; bytes too few for the record give nothing.
    fn from_slice(s: &[u8]) -> (record: Option<Self>)
        ensures
            record is Some <==> s@.len() >= Self::SIZE,
    ;
}

/// The header that every event of a trace starts with.
#[derive(Clone, Copy, Debug)]
pub struct CommonHeader {
    pub ty: u16,
    pub flags: u8,
    pub preempt_count: u8,
    pub pid: u32,
}

impl Pod for CommonHeader {
    const SIZE: usize = 0x08;

    fn discriminant() -> (tag: Option<u32>)
        ensures
            tag is None,
    {
        None
    }

    fn from_slice(s: &[u8]) -> (record: Option<Self>)
        ensures
            record is Some <==> s@.len() >= 0x08,
            record matches Some(r) ==> {
                &&& native_reading(s@.subrange(0, 2), r.ty as nat)
                &&& r.flags == s@[2]
                &&& r.preempt_count == s@[3]
                &&& native_reading(s@.subrange(4, 8), r.pid as nat)
            },
    {
        if s.len() < Self::SIZE {
            return None;
        }
        Some(
            CommonHeader {
                ty: read_u16(s, 0x00),
                flags: s[0x02],
                preempt_count: s[0x03],
                pid: read_u32(s, 0x04),
            },
        )
    }
}

/// Memory of the kernel was freed.
#[derive(Clone, Copy, Debug)]
pub struct KFree {
    pub call_site: Hex64,
    pub ptr: Hex64,
}

impl Pod for KFree {
    const SIZE: usize = 0x10;

    fn discriminant() -> (tag: Option<u32>)
        ensures
            tag == Some(1u32),
    {
        Some(1)
    }

    fn from_slice(s: &[u8]) -> (record: Option<Self>)
        ensures
            record is Some <==> s@.len() >= 0x10,
            record matches Some(r) ==> {
                &&& native_reading(s@.subrange(0, 8), r.call_site.0 as nat)
                &&& native_reading(s@.subrange(8, 16), r.ptr.0 as nat)
            },
    {
        if s.len() < Self::SIZE {
            return None;
        }
        Some(
            KFree {
                call_site: Hex64(read_u64(s, 0x00)),
                ptr: Hex64(read_u64(s, 0x08)),
            },
        )
    }
}

/// Memory of the kernel was allocated.
#[derive(Clone, Copy, Debug)]
pub struct KMAlloc {
    pub call_site: Hex64,
    pub ptr: Hex64,
    pub bytes_req: Hex64,
    pub bytes_alloc: Hex64,
    pub gfp_flags: Hex32,
}

impl Pod for KMAlloc {
    const SIZE: usize = 0x24;

    fn discriminant() -> (tag: Option<u32>)
        ensures
            tag == Some(2u32),
    {
        Some(2)
    }

    fn from_slice(s: &[u8]) -> (record: Option<Self>)
        ensures
            record is Some <==> s@.len() >= 0x24,
            record matches Some(r) ==> {
                &&& native_reading(s@.subrange(0, 8), r.call_site.0 as nat)
                &&& native_reading(s@.subrange(8, 16), r.ptr.0 as nat)
                &&& native_reading(s@.subrange(16, 24), r.bytes_req.0 as nat)
                &&& native_reading(s@.subrange(24, 32), r.bytes_alloc.0 as nat)
                &&& native_reading(s@.subrange(32, 36), r.gfp_flags.0 as nat)
            },
    {
        if s.len() < Self::SIZE {
            return None;
        }
        Some(
            KMAlloc {
                call_site: Hex64(read_u64(s, 0x00)),
                ptr: Hex64(read_u64(s, 0x08)),
                bytes_req: Hex64(read_u64(s, 0x10)),
                bytes_alloc: Hex64(read_u64(s, 0x18)),
                gfp_flags: Hex32(read_u32(s, 0x20)),
            },
        )
    }
}

/// Memory of the kernel was allocated on a given node.
#[derive(Clone, Copy, Debug)]
pub struct KMAllocNode {
    pub call_site: Hex64,
    pub ptr: Hex64,
    pub bytes_req: Hex64,
    pub bytes_alloc: Hex64,
    pub gfp_flags: Hex32,
    pub node: Hex32,
}

impl Pod for KMAllocNode {
    const SIZE: usize = 0x28;

    fn discriminant() -> (tag: Option<u32>)
        ensures
            tag == Some(3u32),
    {
        Some(3)
    }

    fn from_slice(s: &[u8]) -> (record: Option<Self>)
        ensures
            record is Some <==> s@.len() >= 0x28,
            record matches Some(r) ==> {
                &&& native_reading(s@.subrange(0, 8), r.call_site.0 as nat)
                &&& native_reading(s@.subrange(8, 16), r.ptr.0 as nat)
                &&& native_reading(s@.subrange(16, 24), r.bytes_req.0 as nat)
                &&& native_reading(s@.subrange(24, 32), r.bytes_alloc.0 as nat)
                &&& native_reading(s@.subrange(32, 36), r.gfp_flags.0 as nat)
                &&& native_reading(s@.subrange(36, 40), r.node.0 as nat)
            },
    {
        if s.len() < Self::SIZE {
            return None;
        }
        Some(
            KMAllocNode {
                call_site: Hex64(read_u64(s, 0x00)),
                ptr: Hex64(read_u64(s, 0x08)),
                bytes_req: Hex64(read_u64(s, 0x10)),
                bytes_alloc: Hex64(read_u64(s, 0x18)),
                gfp_flags: Hex32(read_u32(s, 0x20)),
                node: Hex32(read_u32(s, 0x24)),
            },
        )
    }
}

/// An object was allocated from a cache.
#[derive(Clone, Copy, Debug)]
pub struct CacheAlloc {
    pub call_site: Hex64,
    pub ptr: Hex64,
    pub bytes_req: Hex64,
    pub bytes_alloc: Hex64,
    pub gfp_flags: Hex32,
}

impl Pod for CacheAlloc {
    const SIZE: usize = 0x24;

    fn discriminant() -> (tag: Option<u32>)
        ensures
            tag == Some(4u32),
    {
        Some(4)
    }

    fn from_slice(s: &[u8]) -> (record: Option<Self>)
        ensures
            record is Some <==> s@.len() >= 0x24,
            record matches Some(r) ==> {
                &&& native_reading(s@.subrange(0, 8), r.call_site.0 as nat)
                &&& native_reading(s@.subrange(8, 16), r.ptr.0 as nat)
                &&& native_reading(s@.subrange(16, 24), r.bytes_req.0 as nat)
                &&& native_reading(s@.subrange(24, 32), r.bytes_alloc.0 as nat)
                &&& native_reading(s@.subrange(32, 36), r.gfp_flags.0 as nat)
            },
    {
        if s.len() < Self::SIZE {
            return None;
        }
        Some(
            CacheAlloc {
                call_site: Hex64(read_u64(s, 0x00)),
                ptr: Hex64(read_u64(s, 0x08)),
                bytes_req: Hex64(read_u64(s, 0x10)),
                bytes_alloc: Hex64(read_u64(s, 0x18)),
                gfp_flags: Hex32(read_u32(s, 0x20)),
            },
        )
    }
}

/// An object was allocated from a cache on a given node.
#[derive(Clone, Copy, Debug)]
pub struct CacheAllocNode {
    pub call_site: Hex64,
    pub ptr: Hex64,
    pub bytes_req: Hex64,
    pub bytes_alloc: Hex64,
    pub gfp_flags: Hex32,
    pub node: Hex32,
}

impl Pod for CacheAllocNode {
    const SIZE: usize = 0x28;

    fn discriminant() -> (tag: Option<u32>)
        ensures
            tag == Some(5u32),
    {
        Some(5)
    }

    fn from_slice(s: &[u8]) -> (record: Option<Self>)
        ensures
            record is Some <==> s@.len() >= 0x28,
            record matches Some(r) ==> {
                &&& native_reading(s@.subrange(0, 8), r.call_site.0 as nat)
                &&& native_reading(s@.subrange(8, 16), r.ptr.0 as nat)
                &&& native_reading(s@.subrange(16, 24), r.bytes_req.0 as nat)
                &&& native_reading(s@.subrange(24, 32), r.bytes_alloc.0 as nat)
                &&& native_reading(s@.subrange(32, 36), r.gfp_flags.0 as nat)
                &&& native_reading(s@.subrange(36, 40), r.node.0 as nat)
            },
    {
        if s.len() < Self::SIZE {
            return None;
        }
        Some(
            CacheAllocNode {
                call_site: Hex64(read_u64(s, 0x00)),
                ptr: Hex64(read_u64(s, 0x08)),
                bytes_req: Hex64(read_u64(s, 0x10)),
                bytes_alloc: Hex64(read_u64(s, 0x18)),
                gfp_flags: Hex32(read_u32(s, 0x20)),
                node: Hex32(read_u32(s, 0x24)),
            },
        )
    }
}

/// An object was given back to a cache.
#[derive(Clone, Copy, Debug)]
pub struct CacheFree {
    pub call_site: Hex64,
    pub ptr: Hex64,
}

impl Pod for CacheFree {
    const SIZE: usize = 0x10;

    fn discriminant() -> (tag: Option<u32>)
        ensures
            tag == Some(6u32),
    {
        Some(6)
    }

    fn from_slice(s: &[u8]) -> (record: Option<Self>)
        ensures
            record is Some <==> s@.len() >= 0x10,
            record matches Some(r) ==> {
                &&& native_reading(s@.subrange(0, 8), r.call_site.0 as nat)
                &&& native_reading(s@.subrange(8, 16), r.ptr.0 as nat)
            },
    {
        if s.len() < Self::SIZE {
            return None;
        }
        Some(
            CacheFree {
                call_site: Hex64(read_u64(s, 0x00)),
                ptr: Hex64(read_u64(s, 0x08)),
            },
        )
    }
}

/// Pages were allocated.
#[derive(Clone, Copy, Debug)]
pub struct PageAlloc {
    pub pfn: Hex64,
    pub order: u32,
    pub gfp_flags: Hex32,
    pub migrate_ty: i32,
}

impl Pod for PageAlloc {
    const SIZE: usize = 0x14;

    fn discriminant() -> (tag: Option<u32>)
        ensures
            tag == Some(7u32),
    {
        Some(7)
    }

    fn from_slice(s: &[u8]) -> (record: Option<Self>)
        ensures
            record is Some <==> s@.len() >= 0x14,
            record matches Some(r) ==> {
                &&& native_reading(s@.subrange(0, 8), r.pfn.0 as nat)
                &&& native_reading(s@.subrange(8, 12), r.order as nat)
                &&& native_reading(s@.subrange(12, 16), r.gfp_flags.0 as nat)
                &&& native_reading(s@.subrange(16, 20), unsigned_of(r.migrate_ty))
            },
    {
        if s.len() < Self::SIZE {
            return None;
        }
        Some(
            PageAlloc {
                pfn: Hex64(read_u64(s, 0x00)),
                order: read_u32(s, 0x08),
                gfp_flags: Hex32(read_u32(s, 0x0c)),
                migrate_ty: read_i32(s, 0x10),
            },
        )
    }
}

/// Pages were allocated from a block of another migration type.
#[derive(Clone, Copy, Debug)]
pub struct PageAllocExtFrag {
    pub pfn: Hex64,
    pub alloc_order: u32,
    pub fallback_order: u32,
    pub alloc_migrate_ty: i32,
    pub fallback_migrate_ty: i32,
    pub change_ownership: i32,
}

impl Pod for PageAllocExtFrag {
    const SIZE: usize = 0x1c;

    fn discriminant() -> (tag: Option<u32>)
        ensures
            tag == Some(8u32),
    {
        Some(8)
    }

    fn from_slice(s: &[u8]) -> (record: Option<Self>)
        ensures
            record is Some <==> s@.len() >= 0x1c,
            record matches Some(r) ==> {
                &&& native_reading(s@.subrange(0, 8), r.pfn.0 as nat)
                &&& native_reading(s@.subrange(8, 12), r.alloc_order as nat)
                &&& native_reading(s@.subrange(12, 16), r.fallback_order as nat)
                &&& native_reading(s@.subrange(16, 20), unsigned_of(r.alloc_migrate_ty))
                &&& native_reading(s@.subrange(20, 24), unsigned_of(r.fallback_migrate_ty))
                &&& native_reading(s@.subrange(24, 28), unsigned_of(r.change_ownership))
            },
    {
        if s.len() < Self::SIZE {
            return None;
        }
        Some(
            PageAllocExtFrag {
                pfn: Hex64(read_u64(s, 0x00)),
                alloc_order: read_u32(s, 0x08),
                fallback_order: read_u32(s, 0x0c),
                alloc_migrate_ty: read_i32(s, 0x10),
                fallback_migrate_ty: read_i32(s, 0x14),
                change_ownership: read_i32(s, 0x18),
            },
        )
    }
}

/// Pages were allocated with the zone locked.
#[derive(Clone, Copy, Debug)]
pub struct PageAllocZoneLocked {
    pub pfn: Hex64,
    pub order: u32,
    pub migrate_ty: i32,
}

impl Pod for PageAllocZoneLocked {
    const SIZE: usize = 0x10;

    fn discriminant() -> (tag: Option<u32>)
        ensures
            tag == Some(9u32),
    {
        Some(9)
    }

    fn from_slice(s: &[u8]) -> (record: Option<Self>)
        ensures
            record is Some <==> s@.len() >= 0x10,
            record matches Some(r) ==> {
                &&& native_reading(s@.subrange(0, 8), r.pfn.0 as nat)
                &&& native_reading(s@.subrange(8, 12), r.order as nat)
                &&& native_reading(s@.subrange(12, 16), unsigned_of(r.migrate_ty))
            },
    {
        if s.len() < Self::SIZE {
            return None;
        }
        Some(
            PageAllocZoneLocked {
                pfn: Hex64(read_u64(s, 0x00)),
                order: read_u32(s, 0x08),
                migrate_ty: read_i32(s, 0x0c),
            },
        )
    }
}

/// Pages were freed.
#[derive(Clone, Copy, Debug)]
pub struct PageFree {
    pub pfn: Hex64,
    pub order: u32,
}

impl Pod for PageFree {
    const SIZE: usize = 0x0c;

    fn discriminant() -> (tag: Option<u32>)
        ensures
            tag == Some(10u32),
    {
        Some(10)
    }

    fn from_slice(s: &[u8]) -> (record: Option<Self>)
        ensures
            record is Some <==> s@.len() >= 0x0c,
            record matches Some(r) ==> {
                &&& native_reading(s@.subrange(0, 8), r.pfn.0 as nat)
                &&& native_reading(s@.subrange(8, 12), r.order as nat)
            },
    {
        if s.len() < Self::SIZE {
            return None;
        }
        Some(
            PageFree {
                pfn: Hex64(read_u64(s, 0x00)),
                order: read_u32(s, 0x08),
            },
        )
    }
}

/// A page was freed in a batch.
#[derive(Clone, Copy, Debug)]
pub struct PageFreeBatched {
    pub pfn: Hex64,
}

impl Pod for PageFreeBatched {
    const SIZE: usize = 0x08;

    fn discriminant() -> (tag: Option<u32>)
        ensures
            tag == Some(11u32),
    {
        Some(11)
    }

    fn from_slice(s: &[u8]) -> (record: Option<Self>)
        ensures
            record is Some <==> s@.len() >= 0x08,
            record matches Some(r) ==> {
                &&& native_reading(s@.subrange(0, 8), r.pfn.0 as nat)
            },
    {
        if s.len() < Self::SIZE {
            return None;
        }
        Some(
            PageFreeBatched {
                pfn: Hex64(read_u64(s, 0x00)),
            },
        )
    }
}

/// Pages were drained from a list of a processor.
#[derive(Clone, Copy, Debug)]
pub struct PagePcpuDrain {
    pub pfn: Hex64,
    pub order: u32,
    pub migrate_ty: i32,
}

impl Pod for PagePcpuDrain {
    const SIZE: usize = 0x10;

    fn discriminant() -> (tag: Option<u32>)
        ensures
            tag == Some(12u32),
    {
        Some(12)
    }

    fn from_slice(s: &[u8]) -> (record: Option<Self>)
        ensures
            record is Some <==> s@.len() >= 0x10,
            record matches Some(r) ==> {
                &&& native_reading(s@.subrange(0, 8), r.pfn.0 as nat)
                &&& native_reading(s@.subrange(8, 12), r.order as nat)
                &&& native_reading(s@.subrange(12, 16), unsigned_of(r.migrate_ty))
            },
    {
        if s.len() < Self::SIZE {
            return None;
        }
        Some(
            PagePcpuDrain {
                pfn: Hex64(read_u64(s, 0x00)),
                order: read_u32(s, 0x08),
                migrate_ty: read_i32(s, 0x0c),
            },
        )
    }
}

/// A page fault in user space.
#[derive(Clone, Copy, Debug)]
pub struct PageFaultUser {
    pub address: Hex64,
    pub ip: Hex64,
    pub error_code: u64,
}

impl Pod for PageFaultUser {
    const SIZE: usize = 0x18;

    fn discriminant() -> (tag: Option<u32>)
        ensures
            tag == Some(13u32),
    {
        Some(13)
    }

    fn from_slice(s: &[u8]) -> (record: Option<Self>)
        ensures
            record is Some <==> s@.len() >= 0x18,
            record matches Some(r) ==> {
                &&& native_reading(s@.subrange(0, 8), r.address.0 as nat)
                &&& native_reading(s@.subrange(8, 16), r.ip.0 as nat)
                &&& native_reading(s@.subrange(16, 24), r.error_code as nat)
            },
    {
        if s.len() < Self::SIZE {
            return None;
        }
        Some(
            PageFaultUser {
                address: Hex64(read_u64(s, 0x00)),
                ip: Hex64(read_u64(s, 0x08)),
                error_code: read_u64(s, 0x10),
            },
        )
    }
}

} // verus!
