//! Reading sequences of integers with one field width per sequence.

use crate::error::Error;
use crate::format::{
    field, fields, le_value, lemma_le_value_fits, lemma_limit_grows, lemma_limits, limit,
};
use crate::write::nats;
use vstd::prelude::*;

verus! {

/// What the numbers behind a common width are read as: the numbers and
/// how many bytes they took. The width must lie between `least` and
/// `most`. Nothing is read for a count of zero.
pub open spec fn parse_framed(bytes: Seq<u8>, count: nat, least: nat, most: nat) -> Result<
    (Seq<nat>, nat),
    Error,
> {
    if count == 0 {
        Ok((Seq::empty(), 0))
    } else if bytes.len() < 1 {
        Err(Error::UnexpectedEnd)
    } else {
        let width = bytes[0] as nat;
        if width < least || width > most {
            Err(Error::InvalidWidth)
        } else if bytes.len() - 1 < count * width {
            Err(Error::UnexpectedEnd)
        } else {
            Ok((fields(bytes.skip(1), width, count), 1 + count * width))
        }
    }
}

/// The number that four bytes spell, least significant first.
pub open spec fn parse_u32(bytes: Seq<u8>) -> Result<(u32, nat), Error> {
    if bytes.len() < 4 {
        Err(Error::UnexpectedEnd)
    } else {
        Ok((le_value(bytes.take(4)) as u32, 4))
    }
}

/// What a sequence of `u32` written as it is reads as.
pub open spec fn parse_magnitude(bytes: Seq<u8>, count: nat) -> Result<(Seq<u32>, nat), Error> {
    match parse_framed(bytes, count, 0, 4) {
        Ok((numbers, used)) => Ok((Seq::new(count, |i: int| numbers[i] as u32), used)),
        Err(e) => Err(e),
    }
}

/// The sum of the first `i` differences, wrapping around.
pub open spec fn total32(numbers: Seq<nat>, i: int) -> u32
    decreases i,
{
    if i <= 0 {
        0
    } else {
        total32(numbers, i - 1).wrapping_add(numbers[i - 1] as u32)
    }
}

/// What a sequence of `u32` written as differences reads as.
pub open spec fn parse_magnitude_monotonic(bytes: Seq<u8>, count: nat) -> Result<
    (Seq<u32>, nat),
    Error,
> {
    match parse_framed(bytes, count, 0, 4) {
        Ok((numbers, used)) => Ok((Seq::new(count, |i: int| total32(numbers, i + 1)), used)),
        Err(e) => Err(e),
    }
}

/// The difference that a size and a sign byte stand for. A size of
/// 2^63 or more is read as the negative number with the same bits; the
/// sign byte 1 negates whatever can be negated, which `i64::MIN` cannot.
pub open spec fn signed(size: nat, sign: u8) -> i64 {
    let d = if size < 0x8000_0000_0000_0000 {
        size as int
    } else {
        size - 0x1_0000_0000_0000_0000
    };
    if sign == 1 && d != i64::MIN {
        (-d) as i64
    } else {
        d as i64
    }
}

/// The sum of the first `i` signed differences, wrapping around.
pub open spec fn total64(numbers: Seq<nat>, flags: Seq<u8>, i: int) -> i64
    decreases i,
{
    if i <= 0 {
        0
    } else {
        total64(numbers, flags, i - 1).wrapping_add(signed(numbers[i - 1], flags[i - 1]))
    }
}

/// The sign bytes at the start of `flags`, `count` at most, are all 0 or 1.
pub open spec fn signs_valid(flags: Seq<u8>, count: nat) -> bool {
    forall|i: int| 0 <= i < count && i < flags.len() ==> #[trigger] flags[i] <= 1
}

/// What a sequence of `i64` reads as: sizes behind a common width of one
/// to eight bytes, then one sign byte for each size.
pub open spec fn parse_sign_magnitude(bytes: Seq<u8>, count: nat) -> Result<
    (Seq<i64>, nat),
    Error,
> {
    match parse_framed(bytes, count, 1, 8) {
        Ok((numbers, used)) => {
            let flags = bytes.skip(used as int);
            if !signs_valid(flags, count) {
                Err(Error::InvalidSign)
            } else if flags.len() < count {
                Err(Error::UnexpectedEnd)
            } else {
                Ok((Seq::new(count, |i: int| total64(numbers, flags, i + 1)), used + count))
            }
        },
        Err(e) => Err(e),
    }
}

/// The source has moved from `before` to `after` and handed out `values`,
/// as `parsed` says it must.
pub open spec fn read_as<T>(
    parsed: Result<(Seq<T>, nat), Error>,
    before: Seq<u8>,
    after: Seq<u8>,
    values: Seq<T>,
) -> bool {
    parsed matches Ok((expected, used)) && expected == values && after == before.skip(used as int)
}

/// The number that the bytes spell, least significant first.
pub fn get_le(bytes: &[u8]) -> (x: u64)
    requires
        bytes@.len() <= 8,
    ensures
        x == le_value(bytes@),
{
    let mut x: u64 = 0;
    let mut i: usize = bytes.len();
    proof {
        assert(bytes@.skip(i as int).len() == 0);
    }
    while i > 0
        invariant
            i <= bytes@.len() <= 8,
            x == le_value(bytes@.skip(i as int)),
        decreases i,
    {
        proof {
            let tail = bytes@.skip(i as int);
            lemma_le_value_fits(tail);
            lemma_limit_grows(tail.len(), 7);
            lemma_limits();
            assert(bytes@.skip(i - 1).skip(1) =~= tail);
        }
        i -= 1;
        x = x * 256 + bytes[i] as u64;
    }
    proof {
        assert(bytes@.skip(0) =~= bytes@);
    }
    x
}

/// A source of bytes.
pub trait Read: Sized {
    /// The bytes still to come.
    spec fn remaining(&self) -> Seq<u8>;

    /// The source hands out whatever it has; it fails only at its end.
    spec fn dependable(&self) -> bool;

    /// Fills `buf` with the next bytes, or fails.
    fn read_bytes(&mut self, buf: &mut [u8]) -> (r: Result<(), Error>)
        ensures
            final(buf)@.len() == old(buf)@.len(),
            match r {
                Ok(()) => {
                    &&& old(buf)@.len() <= old(self).remaining().len()
                    &&& final(buf)@ == old(self).remaining().take(old(buf)@.len() as int)
                    &&& final(self).remaining() == old(self).remaining().skip(
                        old(buf)@.len() as int,
                    )
                    &&& final(self).dependable() == old(self).dependable()
                },
                Err(e) => {
                    ||| e == Error::UnexpectedEnd && old(self).remaining().len() < old(buf)@.len()
                    ||| e == Error::Failed && !old(self).dependable()
                },
            },
    ;

    /// Reads a `u32` of four bytes, least significant first.
    fn read_u32(&mut self) -> (r: Result<u32, Error>)
        ensures
            match r {
                Ok(value) => {
                    &&& parse_u32(old(self).remaining()) == Ok::<(u32, nat), Error>((value, 4))
                    &&& final(self).remaining() == old(self).remaining().skip(4)
                    &&& final(self).dependable() == old(self).dependable()
                },
                Err(e) => {
                    ||| parse_u32(old(self).remaining()) == Err::<(u32, nat), Error>(e)
                    ||| e == Error::Failed && !old(self).dependable()
                },
            },
    {
        let mut buf: Vec<u8> = vec![0u8; 4];
        match self.read_bytes(buf.as_mut_slice()) {
            Ok(()) => {},
            Err(e) => {
                return Err(e);
            },
        }
        let x = get_le(buf.as_slice());
        proof {
            lemma_le_value_fits(buf@);
            lemma_limits();
        }
        Ok(x as u32)
    }

    /// Reads `count` numbers behind their common width, which must lie
    /// between `least` and `most`.
    fn read_framed(&mut self, count: usize, least: u8, most: u8) -> (r: Result<Vec<u64>, Error>)
        requires
            most <= 8,
        ensures
            match r {
                Ok(numbers) => {
                    &&& read_as(
                        parse_framed(
                            old(self).remaining(),
                            count as nat,
                            least as nat,
                            most as nat,
                        ),
                        old(self).remaining(),
                        final(self).remaining(),
                        nats(numbers@),
                    )
                    &&& numbers@.len() == count
                    &&& forall|i: int|
                        0 <= i < count ==> (#[trigger] numbers@[i]) < limit(most as nat)
                    &&& final(self).dependable() == old(self).dependable()
                },
                Err(e) => {
                    ||| parse_framed(
                        old(self).remaining(),
                        count as nat,
                        least as nat,
                        most as nat,
                    ) == Err::<(Seq<nat>, nat), Error>(e)
                    ||| e == Error::Failed && !old(self).dependable()
                },
            },
    {
        let ghost bytes = self.remaining();
        let mut numbers: Vec<u64> = Vec::new();
        if count == 0 {
            proof {
                assert(nats(numbers@) =~= Seq::<nat>::empty());
                assert(bytes.skip(0) =~= bytes);
            }
            return Ok(numbers);
        }
        let mut head: Vec<u8> = vec![0u8; 1];
        match self.read_bytes(head.as_mut_slice()) {
            Ok(()) => {},
            Err(e) => {
                return Err(e);
            },
        }
        let w = head[0];
        assert(w == bytes[0]);
        if w < least || w > most {
            return Err(Error::InvalidWidth);
        }
        let ghost body = bytes.skip(1);
        let mut buf: Vec<u8> = vec![0u8; w as usize];
        let mut i: usize = 0;
        proof {
            assert(0 * (w as int) == 0) by (nonlinear_arith);
            assert(body.skip(0) =~= body);
        }
        while i < count
            invariant
                i <= count,
                least <= w <= most <= 8,
                w == bytes[0],
                buf@.len() == w,
                body == bytes.skip(1),
                bytes.len() >= 1,
                i * w <= body.len(),
                self.remaining() == body.skip(i * w),
                self.dependable() == old(self).dependable(),
                bytes == old(self).remaining(),
                numbers@.len() == i,
                forall|j: int| 0 <= j < i ==> (#[trigger] numbers@[j]) as nat == field(
                    body,
                    w as nat,
                    j,
                ),
                forall|j: int| 0 <= j < i ==> (#[trigger] numbers@[j]) < limit(most as nat),
            decreases count - i,
        {
            let ghost at = i * w;
            if w == 0 {
                proof {
                    assert(body.subrange(at, at + 0) =~= Seq::<u8>::empty());
                    lemma_limit_grows(0, most as nat);
                }
                numbers.push(0);
            } else {
                match self.read_bytes(buf.as_mut_slice()) {
                    Ok(()) => {},
                    Err(e) => {
                        proof {
                            if e == Error::UnexpectedEnd {
                                assert(body.len() - i * w < w);
                                assert((i + 1) * w <= count * w) by (nonlinear_arith)
                                    requires
                                        i + 1 <= count,
                                        0 <= w,
                                ;
                                assert((i + 1) * w == i * w + w) by (nonlinear_arith);
                            }
                        }
                        return Err(e);
                    },
                }
                let x = get_le(buf.as_slice());
                proof {
                    assert(buf@ =~= body.subrange(at, at + w));
                    lemma_le_value_fits(buf@);
                    lemma_limit_grows(w as nat, most as nat);
                }
                numbers.push(x);
            }
            proof {
                assert((i + 1) * w == i * w + w) by (nonlinear_arith);
                assert(body.skip(at).skip(w as int) =~= body.skip(at + w));
            }
            i += 1;
        }
        proof {
            assert(count * w <= body.len());
            assert(nats(numbers@) =~= fields(body, w as nat, count as nat));
            assert(bytes.skip(1).skip(count * w) =~= bytes.skip(1 + count * w));
        }
        Ok(numbers)
    }

    /// Reads `count` values of a sequence of `i64`: the sizes of the
    /// differences between neighbours, then their signs. Nothing is read
    /// for a count of zero.
    fn read_sign_magnitude(&mut self, count: usize) -> (r: Result<Vec<i64>, Error>)
        ensures
            match r {
                Ok(values) => {
                    &&& read_as(
                        parse_sign_magnitude(old(self).remaining(), count as nat),
                        old(self).remaining(),
                        final(self).remaining(),
                        values@,
                    )
                    &&& final(self).dependable() == old(self).dependable()
                },
                Err(e) => {
                    ||| parse_sign_magnitude(old(self).remaining(), count as nat) == Err::<
                        (Seq<i64>, nat),
                        Error,
                    >(e)
                    ||| e == Error::Failed && !old(self).dependable()
                },
            },
    {
        let ghost bytes = self.remaining();
        let numbers = match self.read_framed(count, 1, 8) {
            Ok(numbers) => numbers,
            Err(e) => {
                return Err(e);
            },
        };
        let ghost used = parse_framed(bytes, count as nat, 1, 8)->Ok_0.1;
        let ghost flags = bytes.skip(used as int);
        let ghost sizes = nats(numbers@);
        let mut values: Vec<i64> = Vec::new();
        let mut one: Vec<u8> = vec![0u8; 1];
        let mut prev: i64 = 0;
        let mut i: usize = 0;
        proof {
            assert(flags.skip(0) =~= flags);
            lemma_limits();
        }
        while i < count
            invariant
                i <= count,
                numbers@.len() == count,
                one@.len() == 1,
                sizes == nats(numbers@),
                bytes == old(self).remaining(),
                parse_framed(bytes, count as nat, 1, 8) == Ok::<(Seq<nat>, nat), Error>(
                    (sizes, used),
                ),
                flags == bytes.skip(used as int),
                forall|j: int|
                    0 <= j < count ==> (#[trigger] numbers@[j]) < 0x1_0000_0000_0000_0000,
                i <= flags.len(),
                self.remaining() == flags.skip(i as int),
                self.dependable() == old(self).dependable(),
                forall|j: int| 0 <= j < i ==> #[trigger] flags[j] <= 1,
                prev == total64(sizes, flags, i as int),
                values@.len() == i,
                forall|j: int| 0 <= j < i ==> #[trigger] values@[j] == total64(sizes, flags, j + 1),
            decreases count - i,
        {
            match self.read_bytes(one.as_mut_slice()) {
                Ok(()) => {},
                Err(e) => {
                    proof {
                        if e == Error::UnexpectedEnd {
                            assert(flags.len() == i);
                            assert(signs_valid(flags, count as nat));
                        }
                    }
                    return Err(e);
                },
            }
            let sign = one[0];
            assert(sign == flags[i as int]);
            if sign > 1 {
                proof {
                    assert(!signs_valid(flags, count as nat));
                }
                return Err(Error::InvalidSign);
            }
            let size = numbers[i];
            let wide: i64 = if size < 0x8000_0000_0000_0000 {
                size as i64
            } else {
                ((size - 0x8000_0000_0000_0000) as i64) + i64::MIN
            };
            let d: i64 = if sign == 1 && wide != i64::MIN {
                -wide
            } else {
                wide
            };
            assert(d == signed(sizes[i as int], flags[i as int]));
            let value = prev.wrapping_add(d);
            values.push(value);
            prev = value;
            proof {
                assert(flags.skip(i as int).skip(1) =~= flags.skip(i + 1));
            }
            i += 1;
        }
        proof {
            assert(signs_valid(flags, count as nat));
            assert(values@ =~= Seq::new(count as nat, |i: int| total64(sizes, flags, i + 1)));
            assert(bytes.skip(used as int).skip(count as int) =~= bytes.skip(used + count));
        }
        Ok(values)
    }

    /// Reads `count` values of a sequence of `u32` written as differences.
    /// Nothing is read for a count of zero.
    fn read_magnitude_monotonic(&mut self, count: usize) -> (r: Result<Vec<u32>, Error>)
        ensures
            match r {
                Ok(values) => {
                    &&& read_as(
                        parse_magnitude_monotonic(old(self).remaining(), count as nat),
                        old(self).remaining(),
                        final(self).remaining(),
                        values@,
                    )
                    &&& final(self).dependable() == old(self).dependable()
                },
                Err(e) => {
                    ||| parse_magnitude_monotonic(old(self).remaining(), count as nat) == Err::<
                        (Seq<u32>, nat),
                        Error,
                    >(e)
                    ||| e == Error::Failed && !old(self).dependable()
                },
            },
    {
        let numbers = match self.read_framed(count, 0, 4) {
            Ok(numbers) => numbers,
            Err(e) => {
                return Err(e);
            },
        };
        let ghost sizes = nats(numbers@);
        let mut values: Vec<u32> = Vec::new();
        let mut prev: u32 = 0;
        let mut i: usize = 0;
        proof {
            lemma_limits();
        }
        while i < count
            invariant
                i <= count,
                numbers@.len() == count,
                sizes == nats(numbers@),
                forall|j: int| 0 <= j < count ==> (#[trigger] numbers@[j]) < 0x1_0000_0000,
                prev == total32(sizes, i as int),
                values@.len() == i,
                forall|j: int| 0 <= j < i ==> #[trigger] values@[j] == total32(sizes, j + 1),
            decreases count - i,
        {
            let value = prev.wrapping_add(numbers[i] as u32);
            values.push(value);
            prev = value;
            i += 1;
        }
        proof {
            assert(values@ =~= Seq::new(count as nat, |i: int| total32(sizes, i + 1)));
        }
        Ok(values)
    }

    /// Reads `count` values of a sequence of `u32` written as it is.
    /// Nothing is read for a count of zero.
    fn read_magnitude(&mut self, count: usize) -> (r: Result<Vec<u32>, Error>)
        ensures
            match r {
                Ok(values) => {
                    &&& read_as(
                        parse_magnitude(old(self).remaining(), count as nat),
                        old(self).remaining(),
                        final(self).remaining(),
                        values@,
                    )
                    &&& final(self).dependable() == old(self).dependable()
                },
                Err(e) => {
                    ||| parse_magnitude(old(self).remaining(), count as nat) == Err::<
                        (Seq<u32>, nat),
                        Error,
                    >(e)
                    ||| e == Error::Failed && !old(self).dependable()
                },
            },
    {
        let numbers = match self.read_framed(count, 0, 4) {
            Ok(numbers) => numbers,
            Err(e) => {
                return Err(e);
            },
        };
        let ghost sizes = nats(numbers@);
        let mut values: Vec<u32> = Vec::new();
        let mut i: usize = 0;
        proof {
            lemma_limits();
        }
        while i < count
            invariant
                i <= count,
                numbers@.len() == count,
                sizes == nats(numbers@),
                forall|j: int| 0 <= j < count ==> (#[trigger] numbers@[j]) < 0x1_0000_0000,
                values@.len() == i,
                forall|j: int| 0 <= j < i ==> #[trigger] values@[j] == sizes[j] as u32,
            decreases count - i,
        {
            values.push(numbers[i] as u32);
            i += 1;
        }
        proof {
            assert(values@ =~= Seq::new(count as nat, |i: int| sizes[i] as u32));
        }
        Ok(values)
    }
}

impl<'a> Read for &'a [u8] {
    open spec fn remaining(&self) -> Seq<u8> {
        (*self)@
    }

    open spec fn dependable(&self) -> bool {
        true
    }

    fn read_bytes(&mut self, buf: &mut [u8]) -> (r: Result<(), Error>) {
        let n = buf.len();
        if self.len() < n {
            return Err(Error::UnexpectedEnd);
        }
        let mut i: usize = 0;
        while i < n
            invariant
                i <= n,
                n == buf@.len(),
                n <= (*self)@.len(),
                (*self)@ == (*old(self))@,
                forall|j: int| 0 <= j < i ==> buf@[j] == (*self)@[j],
            decreases n - i,
        {
            buf[i] = self[i];
            i += 1;
        }
        *self = vstd::slice::slice_subrange(*self, n, self.len());
        proof {
            assert(buf@ =~= (*old(self))@.take(n as int));
        }
        Ok(())
    }
}

} // verus!
