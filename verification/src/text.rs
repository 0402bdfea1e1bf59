//! Reading text: the parts of a list between its separators, and numbers in
//! decimal digits.

use vstd::prelude::*;

verus! {

/// The parts of `text` between the bytes that equal `separator`. A text without a
/// separator is one part, the empty text too.
pub open spec fn parts_of(text: Seq<u8>, separator: u8) -> Seq<Seq<u8>>
    decreases text.len(),
{
    if text.len() == 0 {
        seq![Seq::empty()]
    } else {
        let before = parts_of(text.drop_last(), separator);
        if text.last() == separator {
            before.push(Seq::empty())
        } else {
            before.drop_last().push(before.last().push(text.last()))
        }
    }
}

/// The byte strings as mathematical values.
pub open spec fn name_views(names: Seq<Vec<u8>>) -> Seq<Seq<u8>> {
    names.map_values(|name: Vec<u8>| name@)
}

/// Parts a text at its separators.
pub fn split_bytes(text: &[u8], separator: u8) -> (names: Vec<Vec<u8>>)
    ensures
        name_views(names@) == parts_of(text@, separator),
{
    let mut names: Vec<Vec<u8>> = Vec::new();
    let mut current: Vec<u8> = Vec::new();
    let mut i: usize = 0;
    proof {
        assert(text@.take(0) =~= Seq::<u8>::empty());
        assert(name_views(names@).push(current@) =~= seq![Seq::<u8>::empty()]);
    }
    while i < text.len()
        invariant
            i <= text@.len(),
            parts_of(text@.take(i as int), separator) == name_views(names@).push(current@),
        decreases text@.len() - i,
    {
        let byte = text[i];
        let ghost done = name_views(names@);
        let ghost part = current@;
        proof {
            assert(text@.take(i + 1).drop_last() =~= text@.take(i as int));
            assert(text@.take(i + 1).last() == byte);
            assert(done.push(part).drop_last() =~= done);
        }
        if byte == separator {
            names.push(current);
            current = Vec::new();
            proof {
                assert(name_views(names@) =~= done.push(part));
            }
        } else {
            current.push(byte);
        }
        i += 1;
    }
    let ghost done = name_views(names@);
    names.push(current);
    proof {
        assert(text@.take(i as int) =~= text@);
        assert(name_views(names@) =~= done.push(current@));
    }
    names
}

/// Whether a byte is a decimal digit.
pub open spec fn is_digit(byte: u8) -> bool {
    48 <= byte <= 57
}

/// Whether a text is a number: one decimal digit or more, and nothing else.
pub open spec fn is_number(text: Seq<u8>) -> bool {
    text.len() > 0 && forall|i: int| 0 <= i < text.len() ==> is_digit(#[trigger] text[i])
}

/// The number that decimal digits stand for.
pub open spec fn digits_value(text: Seq<u8>) -> nat
    decreases text.len(),
{
    if text.len() == 0 {
        0
    } else {
        digits_value(text.drop_last()) * 10 + (text.last() - 48) as nat
    }
}

/// The number that a text stands for, where it is a number and no greater than `max`.
pub open spec fn number_named(text: Seq<u8>, max: nat) -> Option<nat> {
    if is_number(text) && digits_value(text) <= max {
        Some(digits_value(text))
    } else {
        None
    }
}

/// The digits of a number stand for no less than its first digits do.
proof fn lemma_digits_grow(text: Seq<u8>, upto: int)
    requires
        0 <= upto <= text.len(),
        forall|i: int| 0 <= i < text.len() ==> is_digit(#[trigger] text[i]),
    ensures
        digits_value(text.take(upto)) <= digits_value(text),
    decreases text.len() - upto,
{
    if upto < text.len() {
        lemma_digits_grow(text, upto + 1);
        assert(text.take(upto + 1).drop_last() =~= text.take(upto));
        assert(is_digit(text[upto]));
    } else {
        assert(text.take(upto) =~= text);
    }
}

/// Reads a number in decimal digits that is no greater than `max`.
pub fn parse_number(text: &[u8], max: u128) -> (number: Option<u128>)
    ensures
        match number {
            Some(value) => number_named(text@, max as nat) == Some(value as nat),
            None => number_named(text@, max as nat) is None,
        },
{
    if text.len() == 0 {
        return None;
    }
    let mut value: u128 = 0;
    let mut i: usize = 0;
    proof {
        assert(text@.take(0) =~= Seq::<u8>::empty());
    }
    while i < text.len()
        invariant
            i <= text@.len(),
            text@.len() > 0,
            forall|j: int| 0 <= j < i ==> is_digit(#[trigger] text@[j]),
            value == digits_value(text@.take(i as int)),
            value <= max,
        decreases text@.len() - i,
    {
        let byte = text[i];
        if byte < 48 || byte > 57 {
            assert(!is_digit(text@[i as int]));
            return None;
        }
        let digit: u128 = (byte - 48) as u128;
        proof {
            assert(text@.take(i + 1).drop_last() =~= text@.take(i as int));
            assert(text@.take(i + 1).last() == byte);
        }
        let ghost more = digits_value(text@.take(i + 1));
        assert(more == value * 10 + digit);
        let next = match value.checked_mul(10) {
            Some(scaled) => scaled.checked_add(digit),
            None => None,
        };
        let fits = match next {
            Some(sum) => sum <= max,
            None => false,
        };
        if !fits {
            proof {
                assert(more > max);
                if is_number(text@) {
                    lemma_digits_grow(text@, i + 1);
                }
            }
            return None;
        }
        value = value * 10 + digit;
        i += 1;
    }
    proof {
        assert(text@.take(i as int) =~= text@);
    }
    Some(value)
}

} // verus!
