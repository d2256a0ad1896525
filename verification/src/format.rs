//! The fields of the binary encoding: unsigned numbers of a fixed width,
//! least significant byte first.

use vstd::prelude::*;

verus! {

/// The first number that does not fit in `width` bytes.
pub open spec fn limit(width: nat) -> nat
    decreases width,
{
    if width == 0 {
        1
    } else {
        256 * limit((width - 1) as nat)
    }
}

/// The least number of bytes that hold `x`; none for zero.
pub open spec fn width_of(x: nat) -> nat
    decreases x,
{
    if x == 0 {
        0
    } else {
        1 + width_of(x / 256)
    }
}

/// The `width` low bytes of `x`, least significant first.
pub open spec fn le_bytes(x: nat, width: nat) -> Seq<u8>
    decreases width,
{
    if width == 0 {
        Seq::empty()
    } else {
        seq![(x % 256) as u8] + le_bytes(x / 256, (width - 1) as nat)
    }
}

/// The number that the bytes spell, least significant first.
pub open spec fn le_value(bytes: Seq<u8>) -> nat
    decreases bytes.len(),
{
    if bytes.len() == 0 {
        0
    } else {
        bytes[0] as nat + 256 * le_value(bytes.skip(1))
    }
}

/// The numbers one after the other, each in `width` bytes.
pub open spec fn packed(values: Seq<nat>, width: nat) -> Seq<u8>
    decreases values.len(),
{
    if values.len() == 0 {
        Seq::empty()
    } else {
        packed(values.drop_last(), width) + le_bytes(values.last(), width)
    }
}

/// The `i`-th of the fields of `width` bytes that `bytes` starts with.
pub open spec fn field(bytes: Seq<u8>, width: nat, i: int) -> nat {
    le_value(bytes.subrange(i * width, i * width + width))
}

/// The first `count` fields of `width` bytes.
pub open spec fn fields(bytes: Seq<u8>, width: nat, count: nat) -> Seq<nat> {
    Seq::new(count, |i: int| field(bytes, width, i))
}

/// The greatest of the numbers; zero if there is none.
pub open spec fn greatest(values: Seq<nat>) -> nat
    decreases values.len(),
{
    if values.len() == 0 {
        0
    } else {
        let before = greatest(values.drop_last());
        if values.last() > before {
            values.last()
        } else {
            before
        }
    }
}

pub proof fn lemma_limits()
    ensures
        limit(0) == 1,
        limit(1) == 0x100,
        limit(2) == 0x1_0000,
        limit(3) == 0x100_0000,
        limit(4) == 0x1_0000_0000,
        limit(5) == 0x100_0000_0000,
        limit(6) == 0x1_0000_0000_0000,
        limit(7) == 0x100_0000_0000_0000,
        limit(8) == 0x1_0000_0000_0000_0000,
{
    reveal_with_fuel(limit, 10);
}

pub proof fn lemma_limit_grows(a: nat, b: nat)
    requires
        a <= b,
    ensures
        0 < limit(a) <= limit(b),
    decreases b,
{
    if a < b {
        lemma_limit_grows(a, (b - 1) as nat);
    } else if a > 0 {
        lemma_limit_grows((a - 1) as nat, (a - 1) as nat);
    }
}

/// A number fits in `width` bytes exactly when it is below the limit of
/// that width.
pub proof fn lemma_width_fits(x: nat, width: nat)
    ensures
        width_of(x) <= width <==> x < limit(width),
    decreases width,
{
    if width == 0 {
        if x > 0 {
            assert(width_of(x) == 1 + width_of(x / 256));
        }
    } else {
        lemma_width_fits(x / 256, (width - 1) as nat);
        if x > 0 {
            assert(width_of(x) == 1 + width_of(x / 256));
        } else {
            lemma_limit_grows(0, width);
        }
    }
}

pub proof fn lemma_le_bytes_len(x: nat, width: nat)
    ensures
        le_bytes(x, width).len() == width,
    decreases width,
{
    if width > 0 {
        lemma_le_bytes_len(x / 256, (width - 1) as nat);
    }
}

/// The bytes of a number that fits spell that number.
pub proof fn lemma_le_value_of_bytes(x: nat, width: nat)
    requires
        x < limit(width),
    ensures
        le_value(le_bytes(x, width)) == x,
    decreases width,
{
    if width > 0 {
        let rest = le_bytes(x / 256, (width - 1) as nat);
        lemma_le_value_of_bytes(x / 256, (width - 1) as nat);
        assert(le_bytes(x, width).skip(1) =~= rest);
    }
}

/// What bytes spell fits in as many bytes.
pub proof fn lemma_le_value_fits(bytes: Seq<u8>)
    ensures
        le_value(bytes) < limit(bytes.len()),
    decreases bytes.len(),
{
    if bytes.len() > 0 {
        lemma_le_value_fits(bytes.skip(1));
    }
}

pub proof fn lemma_packed_len(values: Seq<nat>, width: nat)
    ensures
        packed(values, width).len() == values.len() * width,
    decreases values.len(),
{
    if values.len() > 0 {
        lemma_packed_len(values.drop_last(), width);
        lemma_le_bytes_len(values.last(), width);
        assert((values.len() - 1) * width + width == values.len() * width) by (nonlinear_arith);
    } else {
        assert(0 * width == 0) by (nonlinear_arith);
    }
}

/// The `i`-th field of packed numbers holds the bytes of the `i`-th
/// number, whatever follows them.
pub proof fn lemma_packed_field(values: Seq<nat>, width: nat, rest: Seq<u8>, i: int)
    requires
        0 <= i < values.len(),
    ensures
        0 <= i * width,
        i * width + width <= packed(values, width).len(),
        (packed(values, width) + rest).subrange(i * width, i * width + width) == le_bytes(
            values[i],
            width,
        ),
    decreases values.len(),
{
    let before = values.drop_last();
    let all = packed(values, width);
    lemma_packed_len(values, width);
    lemma_packed_len(before, width);
    lemma_le_bytes_len(values.last(), width);
    assert(0 <= i * width && i * width + width <= values.len() * width) by (nonlinear_arith)
        requires
            0 <= i < values.len(),
    ;
    if i == values.len() - 1 {
        assert((all + rest).subrange(i * width, i * width + width) =~= le_bytes(
            values[i],
            width,
        ));
    } else {
        lemma_packed_field(before, width, Seq::empty(), i);
        assert(i * width + width <= before.len() * width) by (nonlinear_arith)
            requires
                0 <= i < before.len(),
        ;
        assert((all + rest).subrange(i * width, i * width + width) =~= (packed(before, width)
            + Seq::<u8>::empty()).subrange(i * width, i * width + width));
    }
}

/// Packed numbers that fit are read back as they were, whatever follows
/// them.
pub proof fn lemma_fields_of_packed(values: Seq<nat>, width: nat, rest: Seq<u8>)
    requires
        forall|i: int| 0 <= i < values.len() ==> #[trigger] values[i] < limit(width),
    ensures
        fields(packed(values, width) + rest, width, values.len()) == values,
{
    let bytes = packed(values, width) + rest;
    assert forall|i: int| 0 <= i < values.len() implies field(bytes, width, i) == values[i] by {
        lemma_packed_field(values, width, rest, i);
        lemma_le_value_of_bytes(values[i], width);
    }
    assert(fields(bytes, width, values.len()) =~= values);
}

pub proof fn lemma_greatest(values: Seq<nat>)
    ensures
        forall|i: int| 0 <= i < values.len() ==> #[trigger] values[i] <= greatest(values),
        values.len() > 0 ==> exists|i: int| 0 <= i < values.len() && values[i] == greatest(values),
    decreases values.len(),
{
    if values.len() > 0 {
        let before = values.drop_last();
        lemma_greatest(before);
        assert forall|i: int| 0 <= i < values.len() implies #[trigger] values[i] <= greatest(
            values,
        ) by {
            if i < before.len() {
                assert(before[i] == values[i]);
            }
        }
        if values.last() > greatest(before) || before.len() == 0 {
            assert(values[values.len() - 1] == greatest(values));
        } else {
            let j = choose|j: int| 0 <= j < before.len() && before[j] == greatest(before);
            assert(values[j] == greatest(values));
        }
    }
}

} // verus!
