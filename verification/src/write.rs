//! Writing sequences of integers with one field width per sequence.

use crate::error::Error;
use crate::format::{greatest, le_bytes, lemma_limits, lemma_width_fits, packed, width_of};
use vstd::prelude::*;

verus! {

/// The numbers as natural numbers.
pub open spec fn nats(numbers: Seq<u64>) -> Seq<nat> {
    Seq::new(numbers.len(), |i: int| numbers[i] as nat)
}

/// The numbers that stand for a sequence of `u32` written as it is.
pub open spec fn plain(values: Seq<u32>) -> Seq<nat> {
    Seq::new(values.len(), |i: int| values[i] as nat)
}

/// The value before the `i`-th; zero before the first.
pub open spec fn before32(values: Seq<u32>, i: int) -> u32 {
    if i <= 0 {
        0
    } else {
        values[i - 1]
    }
}

/// The numbers that stand for a sequence of `u32` written as differences:
/// each value less the one before it, wrapping around.
pub open spec fn steps(values: Seq<u32>) -> Seq<nat> {
    Seq::new(values.len(), |i: int| values[i].wrapping_sub(before32(values, i)) as nat)
}

/// The value before the `i`-th; zero before the first.
pub open spec fn before64(values: Seq<i64>, i: int) -> i64 {
    if i <= 0 {
        0
    } else {
        values[i - 1]
    }
}

/// The `i`-th value less the one before it, wrapping around.
pub open spec fn delta(values: Seq<i64>, i: int) -> i64 {
    values[i].wrapping_sub(before64(values, i))
}

/// The size of a difference without its sign.
pub open spec fn magnitude(d: i64) -> nat {
    if d < 0 {
        (-d) as nat
    } else {
        d as nat
    }
}

/// The sizes of the differences of a sequence of `i64`.
pub open spec fn magnitudes(values: Seq<i64>) -> Seq<nat> {
    Seq::new(values.len(), |i: int| magnitude(delta(values, i)))
}

/// The signs of the differences of a sequence of `i64`: 1 for a negative
/// difference, 0 for any other.
pub open spec fn signs(values: Seq<i64>) -> Seq<u8> {
    Seq::new(
        values.len(),
        |i: int|
            if delta(values, i) < 0 {
                1u8
            } else {
                0u8
            },
    )
}

/// The width in which numbers are written: the least that holds the
/// greatest of them, but no less than `least`.
pub open spec fn common_width(numbers: Seq<nat>, least: nat) -> nat {
    let needed = width_of(greatest(numbers));
    if needed < least {
        least
    } else {
        needed
    }
}

/// Numbers behind their common width: nothing at all if there are none,
/// else one byte for the width, then each number in that width.
pub open spec fn framed(numbers: Seq<nat>, least: nat) -> Seq<u8> {
    if numbers.len() == 0 {
        Seq::empty()
    } else {
        let width = common_width(numbers, least);
        seq![width as u8] + packed(numbers, width)
    }
}

/// The encoding of a sequence of `u32` without differences. If all values
/// are zero, the width is zero and no fields follow.
pub open spec fn magnitude_bytes(values: Seq<u32>) -> Seq<u8> {
    framed(plain(values), 0)
}

/// The encoding of a sequence of `u32` by the differences between
/// neighbours. If all differences are zero, the width is zero and no
/// fields follow.
pub open spec fn magnitude_monotonic_bytes(values: Seq<u32>) -> Seq<u8> {
    framed(steps(values), 0)
}

/// The encoding of a sequence of `i64`: the sizes of the differences
/// between neighbours in a common width of at least one byte, then one
/// sign byte for each.
pub open spec fn sign_magnitude_bytes(values: Seq<i64>) -> Seq<u8> {
    framed(magnitudes(values), 1) + signs(values)
}

/// The bytes of `value` as a plain `u32`, least significant first.
pub open spec fn u32_bytes(value: u32) -> Seq<u8> {
    le_bytes(value as nat, 4)
}

/// The least number of bytes that hold `x`.
pub fn width(x: u64) -> (w: u8)
    ensures
        w == width_of(x as nat),
        w <= 8,
{
    let mut rest = x;
    let mut w: u8 = 0;
    proof {
        lemma_limits();
        lemma_width_fits(x as nat, 8);
    }
    while rest > 0
        invariant
            w as nat + width_of(rest as nat) == width_of(x as nat),
            width_of(x as nat) <= 8,
        decreases rest,
    {
        rest = rest / 256;
        w = w + 1;
    }
    w
}

/// Appends the `width` low bytes of `x` to `buf`, least significant first.
pub fn put_le(buf: &mut Vec<u8>, x: u64, width: u8)
    ensures
        final(buf)@ == old(buf)@ + le_bytes(x as nat, width as nat),
{
    let mut rest = x;
    let mut i: u8 = 0;
    while i < width
        invariant
            i <= width,
            buf@ + le_bytes(rest as nat, (width - i) as nat) == old(buf)@ + le_bytes(
                x as nat,
                width as nat,
            ),
        decreases width - i,
    {
        let ghost before = buf@;
        buf.push((rest % 256) as u8);
        proof {
            assert(before.push((rest % 256) as u8) + le_bytes(
                (rest / 256) as nat,
                (width - i - 1) as nat,
            ) =~= before + le_bytes(rest as nat, (width - i) as nat));
        }
        rest = rest / 256;
        i = i + 1;
    }
    proof {
        assert(le_bytes(rest as nat, 0) =~= Seq::<u8>::empty());
        assert(buf@ + Seq::<u8>::empty() =~= buf@);
    }
}

/// The greatest of the numbers; zero if there is none.
pub fn greatest_of(numbers: &Vec<u64>) -> (most: u64)
    ensures
        most == greatest(nats(numbers@)),
{
    let mut most: u64 = 0;
    let mut i: usize = 0;
    while i < numbers.len()
        invariant
            i <= numbers@.len(),
            most == greatest(nats(numbers@).take(i as int)),
        decreases numbers@.len() - i,
    {
        proof {
            let now = nats(numbers@).take(i + 1);
            assert(now.drop_last() =~= nats(numbers@).take(i as int));
            assert(now.last() == numbers@[i as int] as nat);
        }
        if numbers[i] > most {
            most = numbers[i];
        }
        i += 1;
    }
    proof {
        assert(nats(numbers@).take(numbers@.len() as int) =~= nats(numbers@));
    }
    most
}

/// The size of a difference without its sign.
pub fn magnitude_of(d: i64) -> (m: u64)
    ensures
        m == magnitude(d),
{
    if d == i64::MIN {
        0x8000_0000_0000_0000
    } else if d < 0 {
        (-d) as u64
    } else {
        d as u64
    }
}

/// A sink of bytes.
pub trait Write: Sized {
    /// The bytes written so far.
    spec fn written(&self) -> Seq<u8>;

    /// The sink takes whatever it is given; it does not fail.
    spec fn dependable(&self) -> bool;

    /// Writes all of `bytes`, or fails.
    fn write_bytes(&mut self, bytes: &[u8]) -> (r: Result<(), Error>)
        ensures
            match r {
                Ok(()) => {
                    &&& final(self).written() == old(self).written() + bytes@
                    &&& final(self).dependable() == old(self).dependable()
                },
                Err(e) => e == Error::Failed && !old(self).dependable(),
            },
    ;

    /// Writes `value` in four bytes, least significant first.
    fn write_u32(&mut self, value: u32) -> (r: Result<(), Error>)
        ensures
            match r {
                Ok(()) => {
                    &&& final(self).written() == old(self).written() + u32_bytes(value)
                    &&& final(self).dependable() == old(self).dependable()
                },
                Err(e) => e == Error::Failed && !old(self).dependable(),
            },
    {
        let mut buf: Vec<u8> = Vec::new();
        put_le(&mut buf, value as u64, 4);
        assert(buf@ =~= u32_bytes(value));
        self.write_bytes(buf.as_slice())
    }

    /// Writes the numbers behind their common width.
    fn write_framed(&mut self, numbers: &Vec<u64>, least: u8) -> (r: Result<(), Error>)
        requires
            least <= 8,
        ensures
            match r {
                Ok(()) => {
                    &&& final(self).written() == old(self).written() + framed(
                        nats(numbers@),
                        least as nat,
                    )
                    &&& final(self).dependable() == old(self).dependable()
                },
                Err(e) => e == Error::Failed && !old(self).dependable(),
            },
    {
        let ghost from = self.written();
        let ghost all = nats(numbers@);
        if numbers.len() == 0 {
            assert(from + framed(all, least as nat) =~= from);
            return Ok(());
        }
        let needed = width(greatest_of(numbers));
        let w = if needed < least {
            least
        } else {
            needed
        };
        assert(w == common_width(all, least as nat));
        let mut buf: Vec<u8> = Vec::new();
        buf.push(w);
        match self.write_bytes(buf.as_slice()) {
            Ok(()) => {},
            Err(e) => {
                return Err(e);
            },
        }
        let mut i: usize = 0;
        assert(buf@ =~= seq![w]);
        assert(packed(all.take(0), w as nat) =~= Seq::<u8>::empty());
        assert(from + seq![w] + Seq::<u8>::empty() =~= from + seq![w]);
        while i < numbers.len()
            invariant
                i <= numbers@.len(),
                all == nats(numbers@),
                self.written() == from + seq![w] + packed(all.take(i as int), w as nat),
                self.dependable() == old(self).dependable(),
            decreases numbers@.len() - i,
        {
            buf.clear();
            put_le(&mut buf, numbers[i], w);
            proof {
                let now = all.take(i + 1);
                assert(now.drop_last() =~= all.take(i as int));
                assert(now.last() == numbers@[i as int] as nat);
                assert(buf@ =~= le_bytes(numbers@[i as int] as nat, w as nat));
                assert(from + seq![w] + packed(all.take(i as int), w as nat) + buf@ =~= from
                    + seq![w] + packed(now, w as nat));
            }
            match self.write_bytes(buf.as_slice()) {
                Ok(()) => {},
                Err(e) => {
                    return Err(e);
                },
            }
            i += 1;
        }
        proof {
            assert(all.take(numbers@.len() as int) =~= all);
            assert(from + seq![w] + packed(all, w as nat) =~= from + framed(all, least as nat));
        }
        Ok(())
    }

    /// Writes a sequence of `i64` by the differences between neighbours,
    /// their sizes first and their signs behind them. Nothing is written
    /// for an empty sequence.
    fn write_sign_magnitude(&mut self, values: &[i64]) -> (r: Result<(), Error>)
        ensures
            match r {
                Ok(()) => {
                    &&& final(self).written() == old(self).written() + sign_magnitude_bytes(
                        values@,
                    )
                    &&& final(self).dependable() == old(self).dependable()
                },
                Err(e) => e == Error::Failed && !old(self).dependable(),
            },
    {
        let ghost from = self.written();
        let mut numbers: Vec<u64> = Vec::new();
        let mut flags: Vec<u8> = Vec::new();
        let mut prev: i64 = 0;
        let mut i: usize = 0;
        while i < values.len()
            invariant
                i <= values@.len(),
                prev == before64(values@, i as int),
                numbers@.len() == i,
                flags@.len() == i,
                nats(numbers@) == magnitudes(values@).take(i as int),
                flags@ == signs(values@).take(i as int),
            decreases values@.len() - i,
        {
            let ghost done = numbers@;
            let ghost marked = flags@;
            let d = values[i].wrapping_sub(prev);
            numbers.push(magnitude_of(d));
            flags.push(
                if d < 0 {
                    1
                } else {
                    0
                },
            );
            prev = values[i];
            i += 1;
            proof {
                assert forall|j: int| 0 <= j < i implies nats(numbers@)[j] == magnitudes(
                    values@,
                )[j] by {
                    if j < i - 1 {
                        assert(nats(done)[j] == magnitudes(values@).take(i - 1)[j]);
                    }
                }
                assert(nats(numbers@) =~= magnitudes(values@).take(i as int));
                assert forall|j: int| 0 <= j < i implies flags@[j] == signs(values@)[j] by {
                    if j < i - 1 {
                        assert(marked[j] == signs(values@).take(i - 1)[j]);
                    }
                }
                assert(flags@ =~= signs(values@).take(i as int));
            }
        }
        proof {
            assert(magnitudes(values@).take(values@.len() as int) =~= magnitudes(values@));
            assert(signs(values@).take(values@.len() as int) =~= signs(values@));
        }
        match self.write_framed(&numbers, 1) {
            Ok(()) => {},
            Err(e) => {
                return Err(e);
            },
        }
        let r = self.write_bytes(flags.as_slice());
        proof {
            assert(from + framed(magnitudes(values@), 1) + signs(values@) =~= from
                + sign_magnitude_bytes(values@));
        }
        r
    }

    /// Writes a sequence of `u32` by the differences between neighbours.
    /// Nothing is written for an empty sequence.
    fn write_magnitude_monotonic(&mut self, values: &[u32]) -> (r: Result<(), Error>)
        ensures
            match r {
                Ok(()) => {
                    &&& final(self).written() == old(self).written() + magnitude_monotonic_bytes(
                        values@,
                    )
                    &&& final(self).dependable() == old(self).dependable()
                },
                Err(e) => e == Error::Failed && !old(self).dependable(),
            },
    {
        let mut numbers: Vec<u64> = Vec::new();
        let mut prev: u32 = 0;
        let mut i: usize = 0;
        while i < values.len()
            invariant
                i <= values@.len(),
                prev == before32(values@, i as int),
                numbers@.len() == i,
                nats(numbers@) == steps(values@).take(i as int),
            decreases values@.len() - i,
        {
            let ghost done = numbers@;
            numbers.push(values[i].wrapping_sub(prev) as u64);
            prev = values[i];
            i += 1;
            proof {
                assert forall|j: int| 0 <= j < i implies nats(numbers@)[j] == steps(values@)[j] by {
                    if j < i - 1 {
                        assert(nats(done)[j] == steps(values@).take(i - 1)[j]);
                    }
                }
                assert(nats(numbers@) =~= steps(values@).take(i as int));
            }
        }
        proof {
            assert(steps(values@).take(values@.len() as int) =~= steps(values@));
        }
        self.write_framed(&numbers, 0)
    }

    /// Writes a sequence of `u32` as it is. Nothing is written for an
    /// empty sequence.
    fn write_magnitude(&mut self, values: &[u32]) -> (r: Result<(), Error>)
        ensures
            match r {
                Ok(()) => {
                    &&& final(self).written() == old(self).written() + magnitude_bytes(values@)
                    &&& final(self).dependable() == old(self).dependable()
                },
                Err(e) => e == Error::Failed && !old(self).dependable(),
            },
    {
        let mut numbers: Vec<u64> = Vec::new();
        let mut i: usize = 0;
        while i < values.len()
            invariant
                i <= values@.len(),
                numbers@.len() == i,
                nats(numbers@) == plain(values@).take(i as int),
            decreases values@.len() - i,
        {
            let ghost done = numbers@;
            numbers.push(values[i] as u64);
            i += 1;
            proof {
                assert forall|j: int| 0 <= j < i implies nats(numbers@)[j] == plain(values@)[j] by {
                    if j < i - 1 {
                        assert(nats(done)[j] == plain(values@).take(i - 1)[j]);
                    }
                }
                assert(nats(numbers@) =~= plain(values@).take(i as int));
            }
        }
        proof {
            assert(plain(values@).take(values@.len() as int) =~= plain(values@));
        }
        self.write_framed(&numbers, 0)
    }
}

impl Write for Vec<u8> {
    open spec fn written(&self) -> Seq<u8> {
        self@
    }

    open spec fn dependable(&self) -> bool {
        true
    }

    fn write_bytes(&mut self, bytes: &[u8]) -> (r: Result<(), Error>) {
        self.extend_from_slice(bytes);
        Ok(())
    }
}

/// A sink with room for a given number of bytes. It fails when it is
/// given more than it has room for, and takes none of them.
pub struct Limited {
    bytes: Vec<u8>,
    limit: usize,
}

impl Limited {
    /// The bytes taken so far.
    pub closed spec fn bytes(&self) -> Seq<u8> {
        self.bytes@
    }

    /// How many bytes the sink takes in all.
    pub closed spec fn limit(&self) -> nat {
        self.limit as nat
    }

    /// An empty sink with room for `limit` bytes.
    pub fn new(limit: usize) -> (sink: Self)
        ensures
            sink.bytes() == Seq::<u8>::empty(),
            sink.limit() == limit,
    {
        Limited { bytes: Vec::new(), limit }
    }

    /// The bytes that the sink has taken.
    pub fn into_bytes(self) -> (bytes: Vec<u8>)
        ensures
            bytes@ == self.bytes(),
    {
        self.bytes
    }
}

impl Write for Limited {
    open spec fn written(&self) -> Seq<u8> {
        self.bytes()
    }

    open spec fn dependable(&self) -> bool {
        false
    }

    fn write_bytes(&mut self, bytes: &[u8]) -> (r: Result<(), Error>)
        ensures
            final(self).limit() == old(self).limit(),
            r is Ok <==> old(self).bytes().len() + bytes@.len() <= old(self).limit(),
            r is Err ==> final(self).bytes() == old(self).bytes(),
    {
        if self.bytes.len() > self.limit || bytes.len() > self.limit - self.bytes.len() {
            return Err(Error::Failed);
        }
        self.bytes.extend_from_slice(bytes);
        Ok(())
    }
}

} // verus!
