//! Big-endian integers and a bounds-checked byte reader.

use vstd::arithmetic::div_mod::*;
use vstd::prelude::*;

use crate::text::{literal, with_number, with_numbers};

use super::model::CertificateError;

verus! {

/// `256^width`.
pub open spec fn byte_power(width: nat) -> nat
    decreases width,
{
    if width == 0 {
        1
    } else {
        256 * byte_power((width - 1) as nat)
    }
}

/// The `width` big-endian bytes of `value` modulo `256^width`.
pub open spec fn be_bytes(value: nat, width: nat) -> Seq<u8>
    decreases width,
{
    if width == 0 {
        Seq::empty()
    } else {
        be_bytes(value / 256, (width - 1) as nat).push((value % 256) as u8)
    }
}

/// The value of big-endian bytes.
pub open spec fn be_value(bytes: Seq<u8>) -> nat
    decreases bytes.len(),
{
    if bytes.len() == 0 {
        0
    } else {
        be_value(bytes.drop_last()) * 256 + bytes.last() as nat
    }
}

pub proof fn lemma_byte_power_positive(width: nat)
    ensures
        byte_power(width) >= 1,
    decreases width,
{
    if width > 0 {
        lemma_byte_power_positive((width - 1) as nat);
    }
}

pub proof fn lemma_be_bytes_len(value: nat, width: nat)
    ensures
        be_bytes(value, width).len() == width,
    decreases width,
{
    if width > 0 {
        lemma_be_bytes_len(value / 256, (width - 1) as nat);
    }
}

/// Big-endian bytes read back as the value they encode.
pub proof fn lemma_be_roundtrip(value: nat, width: nat)
    requires
        value < byte_power(width),
    ensures
        be_value(be_bytes(value, width)) == value,
        be_bytes(value, width).len() == width,
    decreases width,
{
    lemma_be_bytes_len(value, width);
    if width > 0 {
        let rest = (width - 1) as nat;
        lemma_fundamental_div_mod(value as int, 256);
        lemma_mod_bound(value as int, 256);
        let q = value / 256;
        let b = byte_power(rest);
        assert(q < b) by (nonlinear_arith)
            requires
                value == 256 * q + value % 256,
                0 <= value % 256 < 256,
                value < 256 * b,
        ;
        lemma_be_roundtrip(value / 256, rest);
        let s = be_bytes(value, width);
        assert(s.drop_last() =~= be_bytes(value / 256, rest));
    }
}

/// Bytes read back as a value below `256^len`.
pub proof fn lemma_be_value_bound(bytes: Seq<u8>)
    ensures
        be_value(bytes) < byte_power(bytes.len()),
    decreases bytes.len(),
{
    if bytes.len() > 0 {
        lemma_be_value_bound(bytes.drop_last());
    }
}

/// Re-encoding read bytes gives the same bytes.
pub proof fn lemma_be_value_bytes(bytes: Seq<u8>)
    ensures
        be_bytes(be_value(bytes), bytes.len()) == bytes,
    decreases bytes.len(),
{
    if bytes.len() > 0 {
        let rest = bytes.drop_last();
        lemma_be_value_bytes(rest);
        let v = be_value(bytes);
        assert(v == 256 * be_value(rest) + bytes.last());
        lemma_div_multiples_vanish_fancy(be_value(rest) as int, bytes.last() as int, 256);
        lemma_small_mod(bytes.last() as nat, 256);
        lemma_mod_multiples_vanish(be_value(rest) as int, bytes.last() as int, 256);
        assert(be_bytes(v, bytes.len()) =~= bytes);
    }
}

proof fn lemma_byte_powers()
    ensures
        byte_power(1) == 256,
        byte_power(2) == 0x1_0000,
        byte_power(4) == 0x1_0000_0000,
        byte_power(7) == 0x100_0000_0000_0000,
        byte_power(8) == 0x1_0000_0000_0000_0000,
{
    reveal_with_fuel(byte_power, 9);
}

/// Append the `width` big-endian bytes of `value`.
pub fn put_be(out: &mut Vec<u8>, value: u64, width: usize)
    requires
        width <= 8,
    ensures
        final(out)@ == old(out)@ + be_bytes(value as nat, width as nat),
    decreases width,
{
    if width == 0 {
        assert(old(out)@ + be_bytes(value as nat, 0) =~= old(out)@);
        return;
    }
    put_be(out, value / 256, width - 1);
    out.push((value % 256) as u8);
}

/// Append a big-endian `u16`.
pub fn put_u16(out: &mut Vec<u8>, value: u16)
    ensures
        final(out)@ == old(out)@ + be_bytes(value as nat, 2),
{
    put_be(out, value as u64, 2);
}

/// Append a big-endian `u32`.
pub fn put_u32(out: &mut Vec<u8>, value: u32)
    ensures
        final(out)@ == old(out)@ + be_bytes(value as nat, 4),
{
    put_be(out, value as u64, 4);
}

/// Append a big-endian `u64`.
pub fn put_u64(out: &mut Vec<u8>, value: u64)
    ensures
        final(out)@ == old(out)@ + be_bytes(value as nat, 8),
{
    put_be(out, value, 8);
}

/// Append a `usize` as a big-endian `u64`.
pub fn put_usize(out: &mut Vec<u8>, value: usize, label: &str) -> (result: Result<
    (),
    CertificateError,
>)
    ensures
        result is Ok,
        final(out)@ == old(out)@ + be_bytes(value as nat, 8),
{
    put_u64(out, value as u64);
    Ok(())
}

/// A cursor over a byte slice that refuses reads past the end.
pub struct Reader<'a> {
    bytes: &'a [u8],
    position: usize,
}

impl<'a> Reader<'a> {
    /// Every byte the reader ranges over.
    pub closed spec fn all(&self) -> Seq<u8> {
        self.bytes@
    }

    /// Number of bytes already consumed.
    pub closed spec fn at(&self) -> int {
        self.position as int
    }

    /// The position lies within the bytes.
    pub closed spec fn wf(&self) -> bool {
        self.position <= self.bytes@.len()
    }

    /// The position is a count of bytes within the slice.
    pub proof fn lemma_bounds(&self)
        requires
            self.wf(),
        ensures
            0 <= self.at() <= self.all().len(),
    {
    }

    /// A reader at the first byte.
    pub fn new(bytes: &'a [u8]) -> (reader: Self)
        ensures
            reader.wf(),
            reader.all() == bytes@,
            reader.at() == 0,
    {
        Reader { bytes, position: 0 }
    }

    /// Bytes not yet consumed.
    pub fn remaining(&self) -> (count: usize)
        requires
            self.wf(),
        ensures
            count == self.all().len() - self.at(),
    {
        self.bytes.len() - self.position
    }

    /// Consume the next `count` bytes.
    pub fn take(&mut self, count: usize) -> (result: Result<&'a [u8], CertificateError>)
        requires
            old(self).wf(),
        ensures
            final(self).wf(),
            final(self).all() == old(self).all(),
            result is Ok <==> old(self).at() + count <= old(self).all().len(),
            result matches Ok(taken) ==> taken@ == old(self).all().subrange(
                old(self).at(),
                old(self).at() + count,
            ) && final(self).at() == old(self).at() + count,
            result is Err ==> final(self).at() == old(self).at(),
    {
        let total = self.bytes.len();
        let end = match self.position.checked_add(count) {
            None => {
                return Err(CertificateError::new(literal("read position overflows usize")));
            },
            Some(end) => end,
        };
        if end > total {
            return Err(
                CertificateError::new(
                    with_numbers(
                        "truncated at byte ",
                        self.position,
                        " while reading ",
                        count,
                        " bytes",
                    ),
                ),
            );
        }
        let value = &self.bytes[self.position..end];
        self.position = end;
        Ok(value)
    }

    /// Consume `width` bytes and read them as a big-endian integer.
    fn read_be(&mut self, width: usize) -> (result: Result<u64, CertificateError>)
        requires
            old(self).wf(),
            1 <= width <= 8,
        ensures
            final(self).wf(),
            final(self).all() == old(self).all(),
            result is Ok <==> old(self).at() + width <= old(self).all().len(),
            result matches Ok(value) ==> value == be_value(
                old(self).all().subrange(old(self).at(), old(self).at() + width),
            ) && final(self).at() == old(self).at() + width,
            result is Err ==> final(self).at() == old(self).at(),
    {
        let taken = self.take(width)?;
        let mut value: u64 = 0;
        let mut index: usize = 0;
        while index < width
            invariant
                taken@.len() == width,
                width <= 8,
                index <= width,
                value == be_value(taken@.take(index as int)),
                value < byte_power(index as nat),
            decreases width - index,
        {
            proof {
                assert(taken@.take(index + 1).drop_last() =~= taken@.take(index as int));
                lemma_byte_powers();
                lemma_byte_power_monotone(index as nat, 7);
                assert(byte_power(index as nat + 1) == 256 * byte_power(index as nat));
            }
            value = value * 256 + taken[index] as u64;
            index += 1;
        }
        proof {
            assert(taken@.take(width as int) =~= taken@);
        }
        Ok(value)
    }

    /// Consume one byte.
    pub fn u8(&mut self) -> (result: Result<u8, CertificateError>)
        requires
            old(self).wf(),
        ensures
            final(self).wf(),
            final(self).all() == old(self).all(),
            result is Ok <==> old(self).at() + 1 <= old(self).all().len(),
            result matches Ok(value) ==> value == old(self).all()[old(self).at()]
                && final(self).at() == old(self).at() + 1,
            result is Err ==> final(self).at() == old(self).at(),
    {
        let taken = self.take(1)?;
        Ok(taken[0])
    }

    /// Consume a big-endian `u16`.
    pub fn u16(&mut self) -> (result: Result<u16, CertificateError>)
        requires
            old(self).wf(),
        ensures
            final(self).wf(),
            final(self).all() == old(self).all(),
            result is Ok <==> old(self).at() + 2 <= old(self).all().len(),
            result matches Ok(value) ==> value == be_value(
                old(self).all().subrange(old(self).at(), old(self).at() + 2),
            ) && final(self).at() == old(self).at() + 2,
            result is Err ==> final(self).at() == old(self).at(),
    {
        let ghost start = self.at();
        let value = self.read_be(2)?;
        proof {
            lemma_be_value_bound(self.all().subrange(start, start + 2));
            lemma_byte_powers();
        }
        Ok(value as u16)
    }

    /// Consume a big-endian `u32`.
    pub fn u32(&mut self) -> (result: Result<u32, CertificateError>)
        requires
            old(self).wf(),
        ensures
            final(self).wf(),
            final(self).all() == old(self).all(),
            result is Ok <==> old(self).at() + 4 <= old(self).all().len(),
            result matches Ok(value) ==> value == be_value(
                old(self).all().subrange(old(self).at(), old(self).at() + 4),
            ) && final(self).at() == old(self).at() + 4,
            result is Err ==> final(self).at() == old(self).at(),
    {
        let ghost start = self.at();
        let value = self.read_be(4)?;
        proof {
            lemma_be_value_bound(self.all().subrange(start, start + 4));
            lemma_byte_powers();
        }
        Ok(value as u32)
    }

    /// Consume a big-endian `u64`.
    pub fn u64(&mut self) -> (result: Result<u64, CertificateError>)
        requires
            old(self).wf(),
        ensures
            final(self).wf(),
            final(self).all() == old(self).all(),
            result is Ok <==> old(self).at() + 8 <= old(self).all().len(),
            result matches Ok(value) ==> value == be_value(
                old(self).all().subrange(old(self).at(), old(self).at() + 8),
            ) && final(self).at() == old(self).at() + 8,
            result is Err ==> final(self).at() == old(self).at(),
    {
        self.read_be(8)
    }

    /// Consume a big-endian `u64` that must fit `usize`.
    pub fn usize(&mut self) -> (result: Result<usize, CertificateError>)
        requires
            old(self).wf(),
        ensures
            final(self).wf(),
            final(self).all() == old(self).all(),
            result is Ok <==> old(self).at() + 8 <= old(self).all().len() && be_value(
                old(self).all().subrange(old(self).at(), old(self).at() + 8),
            ) <= usize::MAX,
            result matches Ok(value) ==> value == be_value(
                old(self).all().subrange(old(self).at(), old(self).at() + 8),
            ) && final(self).at() == old(self).at() + 8,
    {
        let value = self.u64()?;
        if value > usize::MAX as u64 {
            return Err(CertificateError::new(literal("wire integer does not fit usize")));
        }
        Ok(value as usize)
    }

    /// Consume a `usize` no greater than `limit`.
    pub fn bounded_usize(&mut self, label: &str, limit: usize) -> (result: Result<
        usize,
        CertificateError,
    >)
        requires
            old(self).wf(),
        ensures
            final(self).wf(),
            final(self).all() == old(self).all(),
            result is Ok <==> old(self).at() + 8 <= old(self).all().len() && be_value(
                old(self).all().subrange(old(self).at(), old(self).at() + 8),
            ) <= limit,
            result matches Ok(value) ==> value == be_value(
                old(self).all().subrange(old(self).at(), old(self).at() + 8),
            ) && final(self).at() == old(self).at() + 8,
    {
        let value = self.usize()?;
        if value > limit {
            let mut message = String::from_str(label);
            message.append(with_numbers(" ", value, " exceeds the limit ", limit, "").as_str());
            return Err(CertificateError::new(message));
        }
        Ok(value)
    }

    /// Consume 32 bytes.
    pub fn array32(&mut self) -> (result: Result<[u8; 32], CertificateError>)
        requires
            old(self).wf(),
        ensures
            final(self).wf(),
            final(self).all() == old(self).all(),
            result is Ok <==> old(self).at() + 32 <= old(self).all().len(),
            result matches Ok(array) ==> array@ == old(self).all().subrange(
                old(self).at(),
                old(self).at() + 32,
            ) && final(self).at() == old(self).at() + 32,
    {
        let taken = self.take(32)?;
        let mut array = [0u8; 32];
        let mut index: usize = 0;
        while index < 32
            invariant
                taken@.len() == 32,
                index <= 32,
                forall|i: int| 0 <= i < index ==> array@[i] == taken@[i],
            decreases 32 - index,
        {
            array[index] = taken[index];
            index += 1;
        }
        assert(array@ =~= taken@);
        Ok(array)
    }

    /// Consume an optional float: a tag byte `0`, or a tag byte `1` and the
    /// eight bytes of its bit pattern.
    pub fn optional_f64(&mut self) -> (result: Result<Option<u64>, CertificateError>)
        requires
            old(self).wf(),
        ensures
            final(self).wf(),
            final(self).all() == old(self).all(),
            result is Ok <==> old(self).at() + 1 <= old(self).all().len() && (old(self).all()[old(self).at()] == 0 || (old(self).all()[old(self).at()] == 1 && old(self).at()
                + 9 <= old(self).all().len())),
            result matches Ok(None::<u64>) ==> old(self).all()[old(self).at()] == 0
                && final(self).at() == old(self).at() + 1,
            result matches Ok(Some(bits)) ==> old(self).all()[old(self).at()] == 1
                && bits == be_value(
                old(self).all().subrange(old(self).at() + 1, old(self).at() + 9),
            ) && final(self).at() == old(self).at() + 9,
    {
        let tag = self.u8()?;
        if tag == 0 {
            Ok(None)
        } else if tag == 1 {
            let bits = self.u64()?;
            Ok(Some(bits))
        } else {
            Err(CertificateError::new(with_number("unknown optional-float tag ", tag as usize, "")))
        }
    }
}

proof fn lemma_byte_power_monotone(small: nat, large: nat)
    requires
        small <= large,
    ensures
        byte_power(small) <= byte_power(large),
    decreases large,
{
    if small < large {
        lemma_byte_power_monotone(small, (large - 1) as nat);
    }
}

} // verus!
