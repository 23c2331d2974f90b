//! The encode / decode capability and its implementations for fixed-width
//! integers, text, growable sequences and boxes.

use crate::buffer::{
    fixed_bytes_u16, fixed_bytes_u32, fixed_bytes_u64, fixed_bytes_u8, le_bytes, le_span,
    le_value, lemma_le_round_trip, remaining, spliced, view_bytes, view_new, view_offset,
    view_position, view_read_u16, view_read_u32, view_read_u64, view_read_u8, view_rest,
    view_write_slice,
};
use crate::error::ErrorKind;
use data_view::DataView;
use vstd::prelude::*;

verus! {

/// What an encode call does to the sink, given the wire form of the value:
/// where the value has one, the call succeeds and appends exactly it; where
/// it has none (a length that the length field cannot hold), the call fails
/// with `InvalidLength` and what the sink held before is still its prefix.
pub open spec fn encoded(
    before: Seq<u8>,
    after: Seq<u8>,
    wire: Option<Seq<u8>>,
    r: Result<(), ErrorKind>,
) -> bool {
    match wire {
        Some(w) => r is Ok && after == before + w,
        None => r == Err::<(), ErrorKind>(ErrorKind::InvalidLength) && before.is_prefix_of(after),
    }
}

/// What a decode call does to the cursor, given what the bytes behind the
/// offset parse to: on a value, the call returns it and the offset moves on
/// by the bytes consumed; on an error, the call returns that error. The
/// bytes never change.
pub open spec fn decoded<M>(
    before: DataView<Vec<u8>>,
    after: DataView<Vec<u8>>,
    parsed: Result<(M, nat), ErrorKind>,
    got: Result<M, ErrorKind>,
) -> bool {
    &&& view_bytes(after) == view_bytes(before)
    &&& match parsed {
        Ok(p) => got == Ok::<M, ErrorKind>(p.0) && view_offset(after) == view_offset(before) + p.1,
        Err(e) => got == Err::<M, ErrorKind>(e),
    }
}

/// A type with a wire form.
///
/// `model` is the mathematical value of an instance; `wire` gives the bytes
/// of a value, or `None` where a length inside it exceeds what its length
/// field can hold; `parse` reads a value from the front of a byte sequence
/// and says how many bytes it took.
pub trait DataType: Sized {
    type Model;

    spec fn model(&self) -> Self::Model;

    spec fn wire(m: Self::Model) -> Option<Seq<u8>>;

    spec fn parse(s: Seq<u8>) -> Result<(Self::Model, nat), ErrorKind>;

    /// An upper bound for the length of the wire form.
    spec fn hint(m: Self::Model) -> nat;

    /// Parsing the wire form of a value, whatever follows it, gives the
    /// value back and takes exactly the bytes of the wire form.
    proof fn lemma_round_trip(m: Self::Model, rest: Seq<u8>)
        ensures
            Self::wire(m) matches Some(w) ==> Self::parse(w + rest) == Ok::<
                (Self::Model, nat),
                ErrorKind,
            >((m, w.len())),
    ;

    /// A parse never takes more bytes than there are.
    proof fn lemma_parse_bound(s: Seq<u8>)
        ensures
            Self::parse(s) matches Ok(p) ==> p.1 <= s.len(),
    ;

    /// The wire form is never longer than the hint.
    proof fn lemma_hint_bound(m: Self::Model)
        ensures
            Self::wire(m) matches Some(w) ==> w.len() <= Self::hint(m),
    ;

    /// The hint, or `usize::MAX` where the hint is larger than that.
    fn size_hint(&self) -> (n: usize)
        ensures
            n == if Self::hint(self.model()) <= usize::MAX {
                Self::hint(self.model())
            } else {
                usize::MAX as nat
            },
    ;

    /// Appends the wire form of `self` to `out`.
    fn encoder(&self, out: &mut Vec<u8>) -> (r: Result<(), ErrorKind>)
        ensures
            encoded(old(out)@, final(out)@, Self::wire(self.model()), r),
    ;

    /// Reads a value at the offset of `view`.
    fn decoder(view: &mut DataView<Vec<u8>>) -> (r: Result<Self, ErrorKind>)
        ensures
            decoded(
                *old(view),
                *final(view),
                Self::parse(view_rest(*old(view))),
                match r {
                    Ok(v) => Ok(v.model()),
                    Err(e) => Err(e),
                },
            ),
    ;
}

/// What a fixed-width little-endian integer of `width` bytes parses to.
pub open spec fn fixed_parse(s: Seq<u8>, width: nat) -> Result<(nat, nat), ErrorKind> {
    if s.len() < width {
        Err(ErrorKind::InsufficientBytes)
    } else {
        Ok((le_value(s.subrange(0, width as int)), width))
    }
}

/// Fixed-width parsing reads back what fixed-width encoding wrote.
pub proof fn lemma_fixed_round_trip(v: nat, width: nat, rest: Seq<u8>)
    requires
        v < le_span(width),
    ensures
        le_bytes(v, width).len() == width,
        fixed_parse(le_bytes(v, width) + rest, width) == Ok::<(nat, nat), ErrorKind>((v, width)),
{
    lemma_le_round_trip(v, width);
    assert((le_bytes(v, width) + rest).subrange(0, width as int) =~= le_bytes(v, width));
}

/// Appends `src` to `out`.
pub fn append_bytes(out: &mut Vec<u8>, src: &[u8])
    ensures
        final(out)@ == old(out)@ + src@,
{
    let mut i: usize = 0;
    while i < src.len()
        invariant
            i <= src@.len(),
            out@ == old(out)@ + src@.subrange(0, i as int),
        decreases src@.len() - i,
    {
        out.push(src[i]);
        i += 1;
        assert(out@ =~= old(out)@ + src@.subrange(0, i as int));
    }
    assert(src@.subrange(0, i as int) =~= src@);
}

impl DataType for u8 {
    type Model = u8;

    open spec fn model(&self) -> u8 {
        *self
    }

    open spec fn wire(m: u8) -> Option<Seq<u8>> {
        Some(le_bytes(m as nat, 1))
    }

    open spec fn parse(s: Seq<u8>) -> Result<(u8, nat), ErrorKind> {
        match fixed_parse(s, 1) {
            Ok(p) => Ok((p.0 as u8, p.1)),
            Err(e) => Err(e),
        }
    }

    open spec fn hint(m: u8) -> nat {
        1
    }

    proof fn lemma_round_trip(m: u8, rest: Seq<u8>) {
        reveal_with_fuel(le_span, 2);
        lemma_fixed_round_trip(m as nat, 1, rest);
    }

    proof fn lemma_parse_bound(s: Seq<u8>) {
    }

    proof fn lemma_hint_bound(m: u8) {
        reveal_with_fuel(le_span, 2);
        lemma_le_round_trip(m as nat, 1);
    }

    fn size_hint(&self) -> (n: usize) {
        1
    }

    fn encoder(&self, out: &mut Vec<u8>) -> (r: Result<(), ErrorKind>) {
        let bytes = fixed_bytes_u8(*self);
        append_bytes(out, bytes.as_slice());
        Ok(())
    }

    fn decoder(view: &mut DataView<Vec<u8>>) -> (r: Result<Self, ErrorKind>) {
        if remaining(view) < 1 {
            return Err(ErrorKind::InsufficientBytes);
        }
        proof {
            let off = view_offset(*view) as int;
            assert(view_rest(*view).subrange(0, 1) =~= view_bytes(*view).subrange(off, off + 1));
        }
        match view_read_u8(view) {
            Some(v) => Ok(v),
            None => Err(ErrorKind::InsufficientBytes),
        }
    }
}

impl DataType for u16 {
    type Model = u16;

    open spec fn model(&self) -> u16 {
        *self
    }

    open spec fn wire(m: u16) -> Option<Seq<u8>> {
        Some(le_bytes(m as nat, 2))
    }

    open spec fn parse(s: Seq<u8>) -> Result<(u16, nat), ErrorKind> {
        match fixed_parse(s, 2) {
            Ok(p) => Ok((p.0 as u16, p.1)),
            Err(e) => Err(e),
        }
    }

    open spec fn hint(m: u16) -> nat {
        2
    }

    proof fn lemma_round_trip(m: u16, rest: Seq<u8>) {
        reveal_with_fuel(le_span, 3);
        lemma_fixed_round_trip(m as nat, 2, rest);
    }

    proof fn lemma_parse_bound(s: Seq<u8>) {
    }

    proof fn lemma_hint_bound(m: u16) {
        reveal_with_fuel(le_span, 3);
        lemma_le_round_trip(m as nat, 2);
    }

    fn size_hint(&self) -> (n: usize) {
        2
    }

    fn encoder(&self, out: &mut Vec<u8>) -> (r: Result<(), ErrorKind>) {
        let bytes = fixed_bytes_u16(*self);
        append_bytes(out, bytes.as_slice());
        Ok(())
    }

    fn decoder(view: &mut DataView<Vec<u8>>) -> (r: Result<Self, ErrorKind>) {
        if remaining(view) < 2 {
            return Err(ErrorKind::InsufficientBytes);
        }
        proof {
            let off = view_offset(*view) as int;
            assert(view_rest(*view).subrange(0, 2) =~= view_bytes(*view).subrange(off, off + 2));
        }
        match view_read_u16(view) {
            Some(v) => Ok(v),
            None => Err(ErrorKind::InsufficientBytes),
        }
    }
}

impl DataType for u32 {
    type Model = u32;

    open spec fn model(&self) -> u32 {
        *self
    }

    open spec fn wire(m: u32) -> Option<Seq<u8>> {
        Some(le_bytes(m as nat, 4))
    }

    open spec fn parse(s: Seq<u8>) -> Result<(u32, nat), ErrorKind> {
        match fixed_parse(s, 4) {
            Ok(p) => Ok((p.0 as u32, p.1)),
            Err(e) => Err(e),
        }
    }

    open spec fn hint(m: u32) -> nat {
        4
    }

    proof fn lemma_round_trip(m: u32, rest: Seq<u8>) {
        reveal_with_fuel(le_span, 5);
        lemma_fixed_round_trip(m as nat, 4, rest);
    }

    proof fn lemma_parse_bound(s: Seq<u8>) {
    }

    proof fn lemma_hint_bound(m: u32) {
        reveal_with_fuel(le_span, 5);
        lemma_le_round_trip(m as nat, 4);
    }

    fn size_hint(&self) -> (n: usize) {
        4
    }

    fn encoder(&self, out: &mut Vec<u8>) -> (r: Result<(), ErrorKind>) {
        let bytes = fixed_bytes_u32(*self);
        append_bytes(out, bytes.as_slice());
        Ok(())
    }

    fn decoder(view: &mut DataView<Vec<u8>>) -> (r: Result<Self, ErrorKind>) {
        if remaining(view) < 4 {
            return Err(ErrorKind::InsufficientBytes);
        }
        proof {
            let off = view_offset(*view) as int;
            assert(view_rest(*view).subrange(0, 4) =~= view_bytes(*view).subrange(off, off + 4));
        }
        match view_read_u32(view) {
            Some(v) => Ok(v),
            None => Err(ErrorKind::InsufficientBytes),
        }
    }
}

impl DataType for u64 {
    type Model = u64;

    open spec fn model(&self) -> u64 {
        *self
    }

    open spec fn wire(m: u64) -> Option<Seq<u8>> {
        Some(le_bytes(m as nat, 8))
    }

    open spec fn parse(s: Seq<u8>) -> Result<(u64, nat), ErrorKind> {
        match fixed_parse(s, 8) {
            Ok(p) => Ok((p.0 as u64, p.1)),
            Err(e) => Err(e),
        }
    }

    open spec fn hint(m: u64) -> nat {
        8
    }

    proof fn lemma_round_trip(m: u64, rest: Seq<u8>) {
        reveal_with_fuel(le_span, 9);
        lemma_fixed_round_trip(m as nat, 8, rest);
    }

    proof fn lemma_parse_bound(s: Seq<u8>) {
    }

    proof fn lemma_hint_bound(m: u64) {
        reveal_with_fuel(le_span, 9);
        lemma_le_round_trip(m as nat, 8);
    }

    fn size_hint(&self) -> (n: usize) {
        8
    }

    fn encoder(&self, out: &mut Vec<u8>) -> (r: Result<(), ErrorKind>) {
        let bytes = fixed_bytes_u64(*self);
        append_bytes(out, bytes.as_slice());
        Ok(())
    }

    fn decoder(view: &mut DataView<Vec<u8>>) -> (r: Result<Self, ErrorKind>) {
        if remaining(view) < 8 {
            return Err(ErrorKind::InsufficientBytes);
        }
        proof {
            let off = view_offset(*view) as int;
            assert(view_rest(*view).subrange(0, 8) =~= view_bytes(*view).subrange(off, off + 8));
        }
        match view_read_u64(view) {
            Some(v) => Ok(v),
            None => Err(ErrorKind::InsufficientBytes),
        }
    }
}

/// Writes the wire form of `value` over the bytes at the offset of `view`,
/// all of it or nothing: `InvalidLength` where the value has no wire form,
/// `InsufficientBytes` where the wire form does not fit behind the offset;
/// in both cases the view stays as it was.
pub fn serialize<T: DataType>(value: &T, view: &mut DataView<Vec<u8>>) -> (r: Result<(), ErrorKind>)
    ensures
        match T::wire(value.model()) {
            Some(w) => if view_offset(*old(view)) + w.len() <= view_bytes(*old(view)).len() {
                &&& r is Ok
                &&& view_offset(*final(view)) == view_offset(*old(view)) + w.len()
                &&& view_bytes(*final(view)) == spliced(
                    view_bytes(*old(view)),
                    view_offset(*old(view)) as int,
                    w,
                )
            } else {
                &&& r == Err::<(), ErrorKind>(ErrorKind::InsufficientBytes)
                &&& view_offset(*final(view)) == view_offset(*old(view))
                &&& view_bytes(*final(view)) == view_bytes(*old(view))
            },
            None => {
                &&& r == Err::<(), ErrorKind>(ErrorKind::InvalidLength)
                &&& view_offset(*final(view)) == view_offset(*old(view))
                &&& view_bytes(*final(view)) == view_bytes(*old(view))
            },
        },
{
    let mut out: Vec<u8> = Vec::new();
    match value.encoder(&mut out) {
        Ok(_) => {},
        Err(e) => { return Err(e); },
    }
    assert(out@ =~= T::wire(value.model()).unwrap());
    if remaining(view) < out.len() {
        return Err(ErrorKind::InsufficientBytes);
    }
    match view_write_slice(view, &out) {
        Ok(_) => Ok(()),
        Err(_) => Err(ErrorKind::InsufficientBytes),
    }
}

/// Reads a value at the offset of `view`.
pub fn deserialize<T: DataType>(view: &mut DataView<Vec<u8>>) -> (r: Result<T, ErrorKind>)
    ensures
        decoded(
            *old(view),
            *final(view),
            T::parse(view_rest(*old(view))),
            match r {
                Ok(v) => Ok(v.model()),
                Err(e) => Err(e),
            },
        ),
{
    T::decoder(view)
}

/// The wire form of `value` alone.
pub fn to_bytes<T: DataType>(value: &T) -> (r: Result<Vec<u8>, ErrorKind>)
    ensures
        match T::wire(value.model()) {
            Some(w) => r matches Ok(b) && b@ == w,
            None => r == Err::<Vec<u8>, ErrorKind>(ErrorKind::InvalidLength),
        },
{
    let mut out: Vec<u8> = Vec::new();
    match value.encoder(&mut out) {
        Ok(_) => {
            assert(out@ =~= T::wire(value.model()).unwrap());
            Ok(out)
        },
        Err(e) => Err(e),
    }
}

/// Reads a value from the front of `bytes`, and says how many bytes it
/// took.
pub fn from_bytes<T: DataType>(bytes: Vec<u8>) -> (r: Result<(T, usize), ErrorKind>)
    ensures
        match T::parse(bytes@) {
            Ok(p) => r matches Ok(got) && got.0.model() == p.0 && got.1 == p.1,
            Err(e) => r == Err::<(T, usize), ErrorKind>(e),
        },
{
    let mut view = view_new(bytes);
    assert(view_rest(view) =~= bytes@);
    proof {
        T::lemma_parse_bound(bytes@);
    }
    match T::decoder(&mut view) {
        Ok(v) => Ok((v, view_position(&view))),
        Err(e) => Err(e),
    }
}

/// What was serialized at an offset is what deserializing at that offset
/// reads, and the read ends where the write ended.
pub proof fn lemma_serialize_deserialize<T: DataType>(m: T::Model, bytes: Seq<u8>, at: nat)
    requires
        T::wire(m) is Some,
        at + T::wire(m).unwrap().len() <= bytes.len(),
    ensures
        T::parse(spliced(bytes, at as int, T::wire(m).unwrap()).skip(at as int)) == Ok::<
            (T::Model, nat),
            ErrorKind,
        >((m, T::wire(m).unwrap().len())),
{
    let w = T::wire(m).unwrap();
    let tail = bytes.subrange((at + w.len()) as int, bytes.len() as int);
    assert(spliced(bytes, at as int, w).skip(at as int) =~= w + tail);
    T::lemma_round_trip(m, tail);
}

} // verus!
