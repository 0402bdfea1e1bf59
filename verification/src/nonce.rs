//! The nonce of a session: a counter of 24 bytes, read as one big-endian number,
//! that moves on by one with every chunk that was decrypted.

use vstd::arithmetic::div_mod::{
    lemma_add_mod_noop, lemma_mod_self_0, lemma_mod_twice, lemma_small_mod,
};
use vstd::prelude::*;

verus! {

/// Number of bytes in a nonce.
pub const NONCE_SIZE: usize = 24;

/// 256 to the power of `n`.
pub open spec fn pow256(n: nat) -> nat
    decreases n,
{
    if n == 0 {
        1
    } else {
        256 * pow256((n - 1) as nat)
    }
}

/// The number that a byte string stands for, its first byte the most significant.
pub open spec fn be_value(bytes: Seq<u8>) -> nat
    decreases bytes.len(),
{
    if bytes.len() == 0 {
        0
    } else {
        be_value(bytes.drop_last()) * 256 + bytes.last() as nat
    }
}

/// The byte string after `bytes` in the counter: the last byte goes up by one,
/// and a byte that is full falls to zero and carries to the byte before it.
pub open spec fn next_bytes(bytes: Seq<u8>) -> Seq<u8>
    decreases bytes.len(),
{
    if bytes.len() == 0 {
        bytes
    } else if bytes.last() == 255 {
        next_bytes(bytes.drop_last()).push(0)
    } else {
        bytes.drop_last().push((bytes.last() + 1) as u8)
    }
}

/// How many values a nonce can take.
pub open spec fn nonce_space() -> nat {
    pow256(NONCE_SIZE as nat)
}

/// The value after `value` in the counter: one more, and zero after the last one.
pub open spec fn next_value(value: nat) -> nat {
    (value + 1) % nonce_space()
}

/// The value that the counter has after `n` steps from `value`.
pub open spec fn incremented(value: nat, n: nat) -> nat
    decreases n,
{
    if n == 0 {
        value
    } else {
        next_value(incremented(value, (n - 1) as nat))
    }
}

/// A byte string stands for a number below 256 to the power of its length.
pub proof fn lemma_be_value_bound(bytes: Seq<u8>)
    ensures
        be_value(bytes) < pow256(bytes.len()),
    decreases bytes.len(),
{
    if bytes.len() > 0 {
        lemma_be_value_bound(bytes.drop_last());
    }
}

/// The next byte string is as long as the one before, and stands for the next
/// number: one more, and zero after the greatest number of its length.
pub proof fn lemma_next_bytes(bytes: Seq<u8>)
    ensures
        next_bytes(bytes).len() == bytes.len(),
        be_value(bytes) + 1 < pow256(bytes.len()) ==> be_value(next_bytes(bytes)) == be_value(
            bytes,
        ) + 1,
        be_value(bytes) + 1 >= pow256(bytes.len()) ==> be_value(next_bytes(bytes)) == 0,
    decreases bytes.len(),
{
    if bytes.len() > 0 {
        let front = bytes.drop_last();
        lemma_next_bytes(front);
        lemma_be_value_bound(front);
        if bytes.last() == 255 {
            assert(next_bytes(bytes).drop_last() =~= next_bytes(front));
        } else {
            assert(next_bytes(bytes).drop_last() =~= front);
        }
    }
}

/// The next nonce stands for the next value of the counter.
pub proof fn lemma_next_nonce(bytes: Seq<u8>)
    requires
        bytes.len() == NONCE_SIZE,
    ensures
        next_bytes(bytes).len() == NONCE_SIZE,
        be_value(next_bytes(bytes)) == next_value(be_value(bytes)),
{
    lemma_next_bytes(bytes);
    lemma_be_value_bound(bytes);
    lemma_be_value_bound(next_bytes(bytes));
    if be_value(bytes) + 1 < nonce_space() {
        lemma_small_mod(be_value(next_bytes(bytes)), nonce_space());
    } else {
        lemma_mod_self_0(nonce_space() as int);
    }
}

/// A carry that stops at byte `at`: the bytes before it stay, the byte itself goes
/// up by one, and the bytes after it, all full, fall to zero.
proof fn lemma_carry_stops(before: Seq<u8>, after: Seq<u8>, at: int)
    requires
        before.len() == after.len(),
        0 <= at < before.len(),
        forall|j: int| 0 <= j < at ==> before[j] == after[j],
        before[at] < 255,
        after[at] == before[at] + 1,
        forall|j: int| at < j < before.len() ==> before[j] == 255,
        forall|j: int| at < j < after.len() ==> after[j] == 0,
    ensures
        after == next_bytes(before),
    decreases before.len(),
{
    if at == before.len() - 1 {
        assert(after =~= before.drop_last().push((before.last() + 1) as u8));
    } else {
        lemma_carry_stops(before.drop_last(), after.drop_last(), at);
        assert(after =~= after.drop_last().push(0));
    }
}

/// A carry that runs through: all bytes were full and are zero.
proof fn lemma_carry_wraps(before: Seq<u8>, after: Seq<u8>)
    requires
        before.len() == after.len(),
        forall|j: int| 0 <= j < before.len() ==> before[j] == 255,
        forall|j: int| 0 <= j < after.len() ==> after[j] == 0,
    ensures
        after == next_bytes(before),
    decreases before.len(),
{
    if before.len() > 0 {
        lemma_carry_wraps(before.drop_last(), after.drop_last());
        assert(after =~= after.drop_last().push(0));
    } else {
        assert(after =~= before);
    }
}

/// The nonce of one direction of a session.
#[derive(Clone, Copy, Debug)]
pub struct Nonce {
    bytes: [u8; 24],
}

impl View for Nonce {
    type V = Seq<u8>;

    closed spec fn view(&self) -> Seq<u8> {
        self.bytes@
    }
}

impl Nonce {
    /// The number that the nonce stands for.
    pub open spec fn value(&self) -> nat {
        be_value(self@)
    }

    /// A nonce has 24 bytes.
    pub proof fn lemma_len(&self)
        ensures
            self@.len() == NONCE_SIZE,
    {
    }

    pub fn new(bytes: [u8; 24]) -> (nonce: Nonce)
        ensures
            nonce@ == bytes@,
    {
        Nonce { bytes }
    }

    /// The bytes of the nonce.
    pub fn get_bytes(&self) -> (bytes: [u8; 24])
        ensures
            bytes@ == self@,
            self@.len() == NONCE_SIZE,
    {
        self.bytes
    }

    /// The nonce after this one.
    pub fn increment(&self) -> (next: Nonce)
        ensures
            next@ == next_bytes(self@),
            next@.len() == NONCE_SIZE,
            next.value() == next_value(self.value()),
    {
        let mut bytes = self.bytes;
        let mut i: usize = NONCE_SIZE;
        let mut carry = true;
        while carry && i > 0
            invariant
                i <= NONCE_SIZE,
                bytes@.len() == NONCE_SIZE,
                self.bytes@.len() == NONCE_SIZE,
                forall|j: int| 0 <= j < i ==> bytes@[j] == self.bytes@[j],
                !carry ==> i < NONCE_SIZE && self.bytes@[i as int] < 255 && bytes@[i as int]
                    == self.bytes@[i as int] + 1,
                forall|j: int|
                    (if carry {
                        i as int
                    } else {
                        i + 1
                    }) <= j < NONCE_SIZE ==> self.bytes@[j] == 255,
                forall|j: int|
                    (if carry {
                        i as int
                    } else {
                        i + 1
                    }) <= j < NONCE_SIZE ==> bytes@[j] == 0,
            decreases i + (if carry { 1int } else { 0int }),
        {
            i -= 1;
            let byte = bytes[i];
            if byte == 255 {
                bytes[i] = 0;
            } else {
                bytes[i] = byte + 1;
                carry = false;
            }
        }
        proof {
            if carry {
                lemma_carry_wraps(self.bytes@, bytes@);
            } else {
                lemma_carry_stops(self.bytes@, bytes@, i as int);
            }
            lemma_next_nonce(self.bytes@);
        }
        Nonce { bytes }
    }
}

/// A nonce that took `n` steps stands `n` values after the one it started from,
/// the values counted round the nonce space.
pub proof fn lemma_incremented_sum(value: nat, n: nat)
    requires
        value < nonce_space(),
    ensures
        incremented(value, n) == (value + n) % nonce_space(),
    decreases n,
{
    let space = nonce_space();
    assert(space > 0) by {
        lemma_be_value_bound(Seq::new(NONCE_SIZE as nat, |i: int| 0u8));
    }
    if n == 0 {
        lemma_small_mod(value, space);
    } else {
        lemma_incremented_sum(value, (n - 1) as nat);
        let before = (value + n - 1) as nat;
        lemma_add_mod_noop(before as int, 1, space as int);
        lemma_mod_twice(before as int, space as int);
        if space > 1 {
            lemma_small_mod(1, space);
        }
        lemma_add_mod_noop((before % space) as int, 1, space as int);
    }
}

} // verus!
