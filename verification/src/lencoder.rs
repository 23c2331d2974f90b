//! Variable-length integers.
//!
//! Smaller values take fewer bytes. The leading bits of the first byte say
//! how many bytes follow.
//!
//! `L2`: one byte (leading bit 0) for 0..=127, two bytes (leading bit 1)
//! up to 32767.
//!
//! `L3`: one byte (leading bit 0) for 0..=127, two bytes (leading bits 10)
//! up to 16383, three bytes (leading bits 11) up to 4194303.

use crate::buffer::{lemma_le_value_single, lemma_rest_after, view_rest};
use crate::codec::{decoded, encoded, DataType};
use crate::error::ErrorKind;
use data_view::DataView;
use vstd::prelude::*;

verus! {

/// An integer of 15 usable bits, one or two bytes on the wire.
#[derive(Default, Debug, Clone, Copy, PartialEq, Eq)]
pub struct L2(pub u16);

/// An integer of 22 usable bits, one to three bytes on the wire.
#[derive(Default, Debug, Clone, Copy, PartialEq, Eq)]
pub struct L3(pub u32);

/// The layout that length prefixes use.
pub use self::L2 as Lencoder;

/// The bytes of `v` in the two-byte layout, for `v` up to 32767.
pub open spec fn l2_wire(v: u16) -> Seq<u8> {
    if v < 128 {
        seq![v as u8]
    } else {
        seq![(0x80u16 | (v & 0x7F)) as u8, (v >> 7) as u8]
    }
}

/// The value at the front of `s` in the two-byte layout, and its size.
pub open spec fn l2_parse(s: Seq<u8>) -> Result<(u16, nat), ErrorKind> {
    if s.len() < 1 {
        Err(ErrorKind::InsufficientBytes)
    } else if s[0] < 128 {
        Ok((s[0] as u16, 1))
    } else if s.len() < 2 {
        Err(ErrorKind::InsufficientBytes)
    } else {
        Ok((((s[0] & 0x7F) as u16) | ((s[1] as u16) << 7), 2))
    }
}

/// The bytes of `v` in the three-byte layout, for `v` up to 4194303.
pub open spec fn l3_wire(v: u32) -> Seq<u8> {
    if v < 128 {
        seq![v as u8]
    } else if v < 0x4000 {
        seq![(0x80u32 | (v & 0x3F)) as u8, (v >> 6) as u8]
    } else {
        seq![
            (0xC0u32 | (v & 0x3F)) as u8,
            ((v >> 6) & 0xFF) as u8,
            ((v >> 14) & 0xFF) as u8,
        ]
    }
}

/// The value at the front of `s` in the three-byte layout, and its size.
pub open spec fn l3_parse(s: Seq<u8>) -> Result<(u32, nat), ErrorKind> {
    if s.len() < 1 {
        Err(ErrorKind::InsufficientBytes)
    } else if s[0] < 128 {
        Ok((s[0] as u32, 1))
    } else if s[0] < 192 {
        if s.len() < 2 {
            Err(ErrorKind::InsufficientBytes)
        } else {
            Ok((((s[0] & 0x3F) as u32) | ((s[1] as u32) << 6), 2))
        }
    } else if s.len() < 3 {
        Err(ErrorKind::InsufficientBytes)
    } else {
        Ok((((s[0] & 0x3F) as u32) | ((s[1] as u32) << 6) | ((s[2] as u32) << 14), 3))
    }
}

impl L2 {
    /// The largest value that has a wire form.
    pub const MAX: u16 = 0x7FFF;

    /// The largest number of bytes that a value takes.
    pub const SIZE: usize = 2;

    /// A multi-byte encoding without its last byte does not decode: the
    /// parse ends with `InsufficientBytes`.
    pub proof fn lemma_truncated(v: u16)
        requires
            v <= L2::MAX,
            l2_wire(v).len() >= 2,
        ensures
            l2_parse(l2_wire(v).drop_last()) == Err::<(u16, nat), ErrorKind>(
                ErrorKind::InsufficientBytes,
            ),
    {
        assert(v >= 128 ==> (0x80u16 | (v & 0x7F)) as u8 >= 128) by (bit_vector);
    }

    /// A value below 128 takes one byte, any other value two.
    pub proof fn lemma_wire_len(v: u16)
        ensures
            l2_wire(v).len() == if v < 128 { 1nat } else { 2nat },
    {
    }
}

impl From<u16> for L2 {
    fn from(num: u16) -> (r: Self) {
        L2(num)
    }
}

impl vstd::std_specs::convert::FromSpecImpl<u16> for L2 {
    open spec fn obeys_from_spec() -> bool {
        true
    }

    open spec fn from_spec(num: u16) -> Self {
        L2(num)
    }
}

impl core::ops::Deref for L2 {
    type Target = u16;

    fn deref(&self) -> (r: &u16)
        ensures
            *r == self.0,
    {
        &self.0
    }
}

impl core::ops::DerefMut for L2 {
    fn deref_mut(&mut self) -> (r: &mut u16)
        ensures
            *r == old(self).0,
            final(self).0 == *final(r),
    {
        &mut self.0
    }
}

impl DataType for L2 {
    type Model = u16;

    open spec fn model(&self) -> u16 {
        self.0
    }

    open spec fn wire(m: u16) -> Option<Seq<u8>> {
        if m <= L2::MAX {
            Some(l2_wire(m))
        } else {
            None
        }
    }

    open spec fn parse(s: Seq<u8>) -> Result<(u16, nat), ErrorKind> {
        l2_parse(s)
    }

    open spec fn hint(m: u16) -> nat {
        2
    }

    proof fn lemma_round_trip(m: u16, rest: Seq<u8>) {
        if m <= L2::MAX {
            let s = l2_wire(m) + rest;
            if m < 128 {
                assert(s[0] == m as u8);
            } else {
                let b1 = (0x80u16 | (m & 0x7F)) as u8;
                let b2 = (m >> 7) as u8;
                assert(s[0] == b1 && s[1] == b2);
                assert(m >= 128 && m <= 0x7FFF ==> (0x80u16 | (m & 0x7F)) as u8 >= 128
                    && ((((0x80u16 | (m & 0x7F)) as u8) & 0x7F) as u16) | ((((m >> 7) as u8) as u16)
                    << 7) == m) by (bit_vector);
            }
        }
    }

    proof fn lemma_parse_bound(s: Seq<u8>) {
    }

    proof fn lemma_hint_bound(m: u16) {
    }

    fn size_hint(&self) -> (n: usize) {
        L2::SIZE
    }

    fn encoder(&self, out: &mut Vec<u8>) -> (r: Result<(), ErrorKind>) {
        let num: u16 = self.0;
        if num < 128 {
            out.push(num as u8);
            assert(final(out)@ =~= old(out)@ + l2_wire(num));
            Ok(())
        } else if num <= L2::MAX {
            let b1: u8 = (0x80u16 | (num & 0x7F)) as u8;
            let b2: u8 = (num >> 7) as u8;
            out.push(b1);
            out.push(b2);
            assert(final(out)@ =~= old(out)@ + l2_wire(num));
            Ok(())
        } else {
            Err(ErrorKind::InvalidLength)
        }
    }

    fn decoder(view: &mut DataView<Vec<u8>>) -> (r: Result<Self, ErrorKind>) {
        let ghost s = view_rest(*view);
        let ghost start = *view;
        let b1: u8 = match u8::decoder(view) {
            Ok(b) => b,
            Err(e) => { return Err(e); },
        };
        proof {
            lemma_le_value_single(s);
            lemma_rest_after(start, *view, 1);
        }
        if b1 < 128 {
            return Ok(L2(b1 as u16));
        }
        let ghost mid = *view;
        let b2: u8 = match u8::decoder(view) {
            Ok(b) => b,
            Err(e) => { return Err(e); },
        };
        proof {
            lemma_le_value_single(s.skip(1));
        }
        Ok(L2(((b1 & 0x7F) as u16) | ((b2 as u16) << 7)))
    }
}

impl L3 {
    /// The largest value that has a wire form.
    pub const MAX: u32 = 0x3FFFFF;

    /// The largest number of bytes that a value takes.
    pub const SIZE: usize = 3;

    /// A multi-byte encoding without its last byte does not decode: the
    /// parse ends with `InsufficientBytes`.
    pub proof fn lemma_truncated(v: u32)
        requires
            v <= L3::MAX,
            l3_wire(v).len() >= 2,
        ensures
            l3_parse(l3_wire(v).drop_last()) == Err::<(u32, nat), ErrorKind>(
                ErrorKind::InsufficientBytes,
            ),
    {
        assert(v >= 128 ==> ((0x80u32 | (v & 0x3F)) as u8) >= 128 && ((0x80u32 | (v & 0x3F)) as u8) < 192) by (bit_vector);
        assert(v >= 128 ==> (0xC0u32 | (v & 0x3F)) as u8 >= 192) by (bit_vector);
    }

    /// A value below 128 takes one byte, one below 16384 two, any other
    /// three.
    pub proof fn lemma_wire_len(v: u32)
        ensures
            l3_wire(v).len() == if v < 128 {
                1nat
            } else if v < 0x4000 {
                2nat
            } else {
                3nat
            },
    {
    }
}

impl From<u32> for L3 {
    fn from(num: u32) -> (r: Self) {
        L3(num)
    }
}

impl vstd::std_specs::convert::FromSpecImpl<u32> for L3 {
    open spec fn obeys_from_spec() -> bool {
        true
    }

    open spec fn from_spec(num: u32) -> Self {
        L3(num)
    }
}

impl core::ops::Deref for L3 {
    type Target = u32;

    fn deref(&self) -> (r: &u32)
        ensures
            *r == self.0,
    {
        &self.0
    }
}

impl core::ops::DerefMut for L3 {
    fn deref_mut(&mut self) -> (r: &mut u32)
        ensures
            *r == old(self).0,
            final(self).0 == *final(r),
    {
        &mut self.0
    }
}

impl DataType for L3 {
    type Model = u32;

    open spec fn model(&self) -> u32 {
        self.0
    }

    open spec fn wire(m: u32) -> Option<Seq<u8>> {
        if m <= L3::MAX {
            Some(l3_wire(m))
        } else {
            None
        }
    }

    open spec fn parse(s: Seq<u8>) -> Result<(u32, nat), ErrorKind> {
        l3_parse(s)
    }

    open spec fn hint(m: u32) -> nat {
        3
    }

    proof fn lemma_round_trip(m: u32, rest: Seq<u8>) {
        if m <= L3::MAX {
            let s = l3_wire(m) + rest;
            if m < 128 {
                assert(s[0] == m as u8);
            } else if m < 0x4000 {
                let b1 = (0x80u32 | (m & 0x3F)) as u8;
                let b2 = (m >> 6) as u8;
                assert(s[0] == b1 && s[1] == b2);
                assert(m >= 128 && m < 0x4000 ==> ((0x80u32 | (m & 0x3F)) as u8) >= 128 && ((0x80u32 | (m & 0x3F)) as u8) < 192 && ((((
                0x80u32 | (m & 0x3F)) as u8) & 0x3F) as u32) | ((((m >> 6) as u8) as u32) << 6)
                    == m) by (bit_vector);
            } else {
                let b1 = (0xC0u32 | (m & 0x3F)) as u8;
                let b2 = ((m >> 6) & 0xFF) as u8;
                let b3 = ((m >> 14) & 0xFF) as u8;
                assert(s[0] == b1 && s[1] == b2 && s[2] == b3);
                assert(m <= 0x3FFFFF ==> (0xC0u32 | (m & 0x3F)) as u8 >= 192 && ((((0xC0u32 | (m
                    & 0x3F)) as u8) & 0x3F) as u32) | (((((m >> 6) & 0xFF) as u8) as u32) << 6) | (
                ((((m >> 14) & 0xFF) as u8) as u32) << 14) == m) by (bit_vector);
            }
        }
    }

    proof fn lemma_parse_bound(s: Seq<u8>) {
    }

    proof fn lemma_hint_bound(m: u32) {
    }

    fn size_hint(&self) -> (n: usize) {
        L3::SIZE
    }

    fn encoder(&self, out: &mut Vec<u8>) -> (r: Result<(), ErrorKind>) {
        let num: u32 = self.0;
        if num < 128 {
            out.push(num as u8);
            assert(final(out)@ =~= old(out)@ + l3_wire(num));
            Ok(())
        } else if num < 0x4000 {
            let b1: u8 = (0x80u32 | (num & 0x3F)) as u8;
            let b2: u8 = (num >> 6) as u8;
            out.push(b1);
            out.push(b2);
            assert(final(out)@ =~= old(out)@ + l3_wire(num));
            Ok(())
        } else if num <= L3::MAX {
            let b1: u8 = (0xC0u32 | (num & 0x3F)) as u8;
            let b2: u8 = ((num >> 6) & 0xFF) as u8;
            let b3: u8 = ((num >> 14) & 0xFF) as u8;
            out.push(b1);
            out.push(b2);
            out.push(b3);
            assert(final(out)@ =~= old(out)@ + l3_wire(num));
            Ok(())
        } else {
            Err(ErrorKind::InvalidLength)
        }
    }

    fn decoder(view: &mut DataView<Vec<u8>>) -> (r: Result<Self, ErrorKind>) {
        let ghost s = view_rest(*view);
        let ghost start = *view;
        let b1: u8 = match u8::decoder(view) {
            Ok(b) => b,
            Err(e) => { return Err(e); },
        };
        proof {
            lemma_le_value_single(s);
            lemma_rest_after(start, *view, 1);
        }
        if b1 < 128 {
            return Ok(L3(b1 as u32));
        }
        let ghost mid = *view;
        let b2: u8 = match u8::decoder(view) {
            Ok(b) => b,
            Err(e) => { return Err(e); },
        };
        proof {
            lemma_le_value_single(s.skip(1));
            lemma_rest_after(mid, *view, 1);
        }
        if b1 < 192 {
            return Ok(L3(((b1 & 0x3F) as u32) | ((b2 as u32) << 6)));
        }
        let b3: u8 = match u8::decoder(view) {
            Ok(b) => b,
            Err(e) => { return Err(e); },
        };
        proof {
            lemma_le_value_single(s.skip(1).skip(1));
        }
        Ok(L3(((b1 & 0x3F) as u32) | ((b2 as u32) << 6) | ((b3 as u32) << 14)))
    }
}

/// The largest length that a length prefix can hold.
pub open spec fn len_max() -> nat {
    Lencoder::MAX as nat
}

/// The largest number of bytes that a length prefix takes.
pub open spec fn len_size() -> nat {
    Lencoder::SIZE as nat
}

/// The length prefix for `n`, where `n` is at most `len_max()`.
pub open spec fn len_wire(n: nat) -> Seq<u8> {
    l2_wire(n as u16)
}

/// The length at the front of `s`, and the size of its prefix.
pub open spec fn len_parse(s: Seq<u8>) -> Result<(nat, nat), ErrorKind> {
    match l2_parse(s) {
        Ok(p) => Ok((p.0 as nat, p.1)),
        Err(e) => Err(e),
    }
}

/// A length prefix reads back as the length it was written for, and takes
/// no more than `len_size()` bytes.
pub proof fn lemma_len_round_trip(n: nat, rest: Seq<u8>)
    requires
        n <= len_max(),
    ensures
        len_parse(len_wire(n) + rest) == Ok::<(nat, nat), ErrorKind>((n, len_wire(n).len())),
        1 <= len_wire(n).len() <= len_size(),
{
    Lencoder::lemma_round_trip(n as u16, rest);
}

/// A parsed length is at most `len_max()`, and its prefix lies inside the
/// input.
pub proof fn lemma_len_parse_bound(s: Seq<u8>)
    ensures
        len_parse(s) matches Ok(p) ==> p.0 <= len_max() && 1 <= p.1 <= s.len(),
{
    if s.len() >= 2 {
        let a = s[0];
        let b = s[1];
        assert((((a & 0x7F) as u16) | ((b as u16) << 7)) <= 0x7FFF) by (bit_vector);
    }
}

/// The largest number of bytes that a length prefix takes.
pub fn len_prefix_size() -> (n: usize)
    ensures
        n == len_size(),
{
    Lencoder::SIZE
}

/// Appends the length prefix for `n`; fails with `InvalidLength`, leaving
/// `out` as it was, where `n` exceeds `len_max()`.
pub fn encode_len(n: usize, out: &mut Vec<u8>) -> (r: Result<(), ErrorKind>)
    ensures
        encoded(
            old(out)@,
            final(out)@,
            if n <= len_max() {
                Some(len_wire(n as nat))
            } else {
                None
            },
            r,
        ),
        r is Err ==> final(out)@ == old(out)@,
{
    if n > Lencoder::MAX as usize {
        return Err(ErrorKind::InvalidLength);
    }
    Lencoder(n as u16).encoder(out)
}

/// Reads a length prefix at the offset of `view`.
pub fn decode_len(view: &mut DataView<Vec<u8>>) -> (r: Result<usize, ErrorKind>)
    ensures
        decoded(
            *old(view),
            *final(view),
            len_parse(view_rest(*old(view))),
            match r {
                Ok(n) => Ok(n as nat),
                Err(e) => Err(e),
            },
        ),
{
    match Lencoder::decoder(view) {
        Ok(n) => Ok(n.0 as usize),
        Err(e) => Err(e),
    }
}

} // verus!
