//! What is written is read back: the three encodings of integer sequences
//! against their decoders.

use crate::error::Error;
use crate::format::{
    greatest, lemma_fields_of_packed, lemma_greatest, lemma_limit_grows, lemma_limits,
    lemma_packed_len, lemma_width_fits, limit, packed, width_of,
};
use crate::read::{
    parse_framed, parse_magnitude, parse_magnitude_monotonic, parse_sign_magnitude, signed,
    signs_valid, total32, total64,
};
use crate::write::{
    before32, before64, common_width, delta, framed, magnitude, magnitude_bytes,
    magnitude_monotonic_bytes, magnitudes, plain, sign_magnitude_bytes, signs, steps,
};
use vstd::prelude::*;

verus! {

/// Numbers written behind their common width are read back as they were,
/// with nothing taken from what follows them, provided the reader allows
/// the widths that the writer may choose.
pub proof fn lemma_framed_round_trip(numbers: Seq<nat>, least: nat, most: nat, rest: Seq<u8>)
    requires
        least <= most <= 255,
        forall|i: int| 0 <= i < numbers.len() ==> #[trigger] numbers[i] < limit(most),
    ensures
        parse_framed(framed(numbers, least) + rest, numbers.len(), least, most) == Ok::<
            (Seq<nat>, nat),
            Error,
        >((numbers, framed(numbers, least).len())),
        numbers.len() > 0 ==> framed(numbers, least).len() == 1 + numbers.len() * common_width(
            numbers,
            least,
        ),
{
    if numbers.len() > 0 {
        let top = greatest(numbers);
        let width = common_width(numbers, least);
        let bytes = framed(numbers, least) + rest;
        lemma_greatest(numbers);
        lemma_width_fits(top, most);
        lemma_width_fits(top, width_of(top));
        lemma_limit_grows(width_of(top), width);
        lemma_packed_len(numbers, width);
        lemma_fields_of_packed(numbers, width, rest);
        assert(bytes[0] == width as u8);
        assert(bytes.skip(1) =~= packed(numbers, width) + rest);
    } else {
        assert(numbers =~= Seq::<nat>::empty());
    }
}

/// A sequence of `u32` written as it is reads back as it was.
pub proof fn lemma_magnitude_round_trip(values: Seq<u32>, rest: Seq<u8>)
    ensures
        parse_magnitude(magnitude_bytes(values) + rest, values.len()) == Ok::<
            (Seq<u32>, nat),
            Error,
        >((values, magnitude_bytes(values).len())),
{
    lemma_limits();
    lemma_framed_round_trip(plain(values), 0, 4, rest);
    let numbers = plain(values);
    assert(Seq::new(values.len(), |i: int| numbers[i] as u32) =~= values);
}

/// The differences of a sequence of `u32` add up to its values.
pub proof fn lemma_steps_add_up(values: Seq<u32>, i: int)
    requires
        0 <= i <= values.len(),
    ensures
        total32(steps(values), i) == before32(values, i),
    decreases i,
{
    if i > 0 {
        lemma_steps_add_up(values, i - 1);
    }
}

/// A sequence of `u32` written as differences reads back as it was.
pub proof fn lemma_magnitude_monotonic_round_trip(values: Seq<u32>, rest: Seq<u8>)
    ensures
        parse_magnitude_monotonic(magnitude_monotonic_bytes(values) + rest, values.len()) == Ok::<
            (Seq<u32>, nat),
            Error,
        >((values, magnitude_monotonic_bytes(values).len())),
{
    lemma_limits();
    lemma_framed_round_trip(steps(values), 0, 4, rest);
    let numbers = steps(values);
    assert forall|i: int| 0 <= i < values.len() implies total32(numbers, i + 1) == values[i] by {
        lemma_steps_add_up(values, i + 1);
    }
    assert(Seq::new(values.len(), |i: int| total32(numbers, i + 1)) =~= values);
}

/// A size and its sign stand for the difference they were taken from,
/// `i64::MIN` included.
pub proof fn lemma_signed_magnitude(d: i64)
    ensures
        signed(
            magnitude(d),
            if d < 0 {
                1u8
            } else {
                0u8
            },
        ) == d,
        magnitude(d) <= 0x8000_0000_0000_0000,
{
}

/// The signed differences of a sequence of `i64` add up to its values.
pub proof fn lemma_deltas_add_up(values: Seq<i64>, rest: Seq<u8>, i: int)
    requires
        0 <= i <= values.len(),
    ensures
        total64(magnitudes(values), signs(values) + rest, i) == before64(values, i),
    decreases i,
{
    if i > 0 {
        lemma_deltas_add_up(values, rest, i - 1);
        lemma_signed_magnitude(delta(values, i - 1));
    }
}

/// A sequence of `i64` reads back as it was.
pub proof fn lemma_sign_magnitude_round_trip(values: Seq<i64>, rest: Seq<u8>)
    ensures
        parse_sign_magnitude(sign_magnitude_bytes(values) + rest, values.len()) == Ok::<
            (Seq<i64>, nat),
            Error,
        >((values, sign_magnitude_bytes(values).len())),
{
    lemma_limits();
    let numbers = magnitudes(values);
    let head = framed(numbers, 1);
    let bytes = sign_magnitude_bytes(values) + rest;
    assert forall|i: int| 0 <= i < numbers.len() implies #[trigger] numbers[i] < limit(8) by {
        lemma_signed_magnitude(delta(values, i));
    }
    lemma_framed_round_trip(numbers, 1, 8, signs(values) + rest);
    assert(bytes =~= head + (signs(values) + rest));
    let flags = bytes.skip(head.len() as int);
    assert(flags =~= signs(values) + rest);
    assert(signs_valid(flags, values.len()));
    assert forall|i: int| 0 <= i < values.len() implies total64(numbers, flags, i + 1)
        == values[i] by {
        lemma_deltas_add_up(values, rest, i + 1);
    }
    assert(Seq::new(values.len(), |i: int| total64(numbers, flags, i + 1)) =~= values);
}

/// An empty sequence is written as no bytes at all, and reading no values
/// takes no bytes, whatever the source holds.
pub proof fn lemma_empty_sequences(bytes: Seq<u8>)
    ensures
        sign_magnitude_bytes(Seq::empty()).len() == 0,
        magnitude_monotonic_bytes(Seq::empty()).len() == 0,
        magnitude_bytes(Seq::empty()).len() == 0,
        parse_sign_magnitude(bytes, 0) == Ok::<(Seq<i64>, nat), Error>((Seq::empty(), 0)),
        parse_magnitude_monotonic(bytes, 0) == Ok::<(Seq<u32>, nat), Error>((Seq::empty(), 0)),
        parse_magnitude(bytes, 0) == Ok::<(Seq<u32>, nat), Error>((Seq::empty(), 0)),
{
    let none = Seq::<nat>::empty();
    assert(magnitudes(Seq::empty()) =~= none);
    assert(steps(Seq::empty()) =~= none);
    assert(plain(Seq::empty()) =~= none);
    assert(signs(Seq::empty()) =~= Seq::<u8>::empty());
    assert(bytes.skip(0) =~= bytes);
    assert(signs_valid(bytes.skip(0), 0));
    assert(Seq::new(0, |i: int| total64(none, bytes.skip(0), i + 1)) =~= Seq::<i64>::empty());
    assert(Seq::new(0, |i: int| total32(none, i + 1)) =~= Seq::<u32>::empty());
    assert(Seq::new(0, |i: int| none[i] as u32) =~= Seq::<u32>::empty());
}

/// A width that no number of the sequence can have is refused, whatever
/// follows it: above eight or zero for `i64`, above four for `u32`.
pub proof fn lemma_width_refused(bytes: Seq<u8>, count: nat)
    requires
        count > 0,
        bytes.len() > 0,
    ensures
        bytes[0] > 8 || bytes[0] == 0 ==> parse_sign_magnitude(bytes, count) == Err::<
            (Seq<i64>, nat),
            Error,
        >(Error::InvalidWidth),
        bytes[0] > 4 ==> parse_magnitude_monotonic(bytes, count) == Err::<(Seq<u32>, nat), Error>(
            Error::InvalidWidth,
        ),
        bytes[0] > 4 ==> parse_magnitude(bytes, count) == Err::<(Seq<u32>, nat), Error>(
            Error::InvalidWidth,
        ),
{
}

} // verus!
