//! Records whose length field has a fixed width.
//!
//! `Record<Len, Type>` has the wire form of its payload, but with the
//! length written as a `Len` (little-endian) instead of a variable-length
//! prefix. The payload is a `String`, whose length counts bytes, or a
//! `Vec` of encodable items, whose length counts items.

use crate::buffer::{
    le_bytes, le_span, lemma_le_value_bound, lemma_rest_after, view_rest,
};
use crate::codec::{
    append_bytes, decoded, encoded, fixed_parse, lemma_fixed_round_trip, DataType,
};
use crate::containers::{
    decode_items, encode_items, items_hint, items_parse, items_size_hint, items_wire, joined,
    lemma_items_hint_bound, lemma_items_parse_bound, lemma_items_round_trip,
    lemma_text_round_trip, models, prepend, read_text, text_parse,
};
use crate::error::ErrorKind;
use core::marker::PhantomData;
use data_view::DataView;
use vstd::prelude::*;
use vstd::utf8::encode_utf8;

verus! {

/// The length field for `n` in `width` bytes; `None` where `n` does not fit
/// in `width` bytes, or is no length that this machine can hold.
pub open spec fn field_wire(n: nat, width: nat) -> Option<Seq<u8>> {
    if n < le_span(width) && n <= usize::MAX {
        Some(le_bytes(n, width))
    } else {
        None
    }
}

/// The length that a field of `width` bytes at the front of `s` holds:
/// `InsufficientBytes` where `s` is shorter than the field, `InvalidLength`
/// where the value is no length that this machine can hold.
pub open spec fn field_parse(s: Seq<u8>, width: nat) -> Result<(nat, nat), ErrorKind> {
    match fixed_parse(s, width) {
        Ok(p) => if p.0 <= usize::MAX {
            Ok(p)
        } else {
            Err(ErrorKind::InvalidLength)
        },
        Err(e) => Err(e),
    }
}

/// A length field reads back as the length it was written for.
pub proof fn lemma_field_round_trip(n: nat, width: nat, rest: Seq<u8>)
    ensures
        field_wire(n, width) matches Some(h) ==> h.len() == width && field_parse(h + rest, width)
            == Ok::<(nat, nat), ErrorKind>((n, width)),
{
    if n < le_span(width) {
        lemma_fixed_round_trip(n, width, rest);
    }
}

/// An unsigned integer type that can serve as the length field of a record.
pub trait LenField: Sized {
    /// The number of bytes of the field.
    spec fn width() -> nat;

    /// A field takes at least one byte.
    proof fn lemma_width()
        ensures
            Self::width() >= 1,
    ;

    /// The number of bytes of the field.
    fn size() -> (n: usize)
        ensures
            n == Self::width(),
    ;

    /// Appends `n` as a length field; fails with `InvalidLength`, leaving
    /// `out` as it was, where `n` does not fit.
    fn put(n: usize, out: &mut Vec<u8>) -> (r: Result<(), ErrorKind>)
        ensures
            encoded(old(out)@, final(out)@, field_wire(n as nat, Self::width()), r),
            r is Err ==> final(out)@ == old(out)@,
    ;

    /// Reads a length field at the offset of `view`.
    fn take(view: &mut DataView<Vec<u8>>) -> (r: Result<usize, ErrorKind>)
        ensures
            decoded(
                *old(view),
                *final(view),
                field_parse(view_rest(*old(view)), Self::width()),
                match r {
                    Ok(n) => Ok(n as nat),
                    Err(e) => Err(e),
                },
            ),
    ;
}

impl LenField for u8 {
    open spec fn width() -> nat {
        1
    }

    proof fn lemma_width() {
    }

    fn size() -> (n: usize) {
        1
    }

    fn put(n: usize, out: &mut Vec<u8>) -> (r: Result<(), ErrorKind>) {
        proof {
            reveal_with_fuel(le_span, 2);
        }
        if n > u8::MAX as usize {
            return Err(ErrorKind::InvalidLength);
        }
        (n as u8).encoder(out)
    }

    fn take(view: &mut DataView<Vec<u8>>) -> (r: Result<usize, ErrorKind>) {
        proof {
            reveal_with_fuel(le_span, 2);
            if view_rest(*view).len() >= 1 {
                lemma_le_value_bound(view_rest(*view).subrange(0, 1));
            }
        }
        match u8::decoder(view) {
            Ok(v) => Ok(v as usize),
            Err(e) => Err(e),
        }
    }
}

impl LenField for u16 {
    open spec fn width() -> nat {
        2
    }

    proof fn lemma_width() {
    }

    fn size() -> (n: usize) {
        2
    }

    fn put(n: usize, out: &mut Vec<u8>) -> (r: Result<(), ErrorKind>) {
        proof {
            reveal_with_fuel(le_span, 3);
        }
        if n > u16::MAX as usize {
            return Err(ErrorKind::InvalidLength);
        }
        (n as u16).encoder(out)
    }

    fn take(view: &mut DataView<Vec<u8>>) -> (r: Result<usize, ErrorKind>) {
        proof {
            reveal_with_fuel(le_span, 3);
            if view_rest(*view).len() >= 2 {
                lemma_le_value_bound(view_rest(*view).subrange(0, 2));
            }
        }
        match u16::decoder(view) {
            Ok(v) => Ok(v as usize),
            Err(e) => Err(e),
        }
    }
}

impl LenField for u32 {
    open spec fn width() -> nat {
        4
    }

    proof fn lemma_width() {
    }

    fn size() -> (n: usize) {
        4
    }

    fn put(n: usize, out: &mut Vec<u8>) -> (r: Result<(), ErrorKind>) {
        proof {
            reveal_with_fuel(le_span, 5);
        }
        if n > u32::MAX as usize {
            return Err(ErrorKind::InvalidLength);
        }
        (n as u32).encoder(out)
    }

    fn take(view: &mut DataView<Vec<u8>>) -> (r: Result<usize, ErrorKind>) {
        proof {
            reveal_with_fuel(le_span, 5);
            if view_rest(*view).len() >= 4 {
                lemma_le_value_bound(view_rest(*view).subrange(0, 4));
            }
        }
        match u32::decoder(view) {
            Ok(v) => Ok(v as usize),
            Err(e) => Err(e),
        }
    }
}

impl LenField for u64 {
    open spec fn width() -> nat {
        8
    }

    proof fn lemma_width() {
    }

    fn size() -> (n: usize) {
        8
    }

    fn put(n: usize, out: &mut Vec<u8>) -> (r: Result<(), ErrorKind>) {
        proof {
            reveal_with_fuel(le_span, 9);
        }
        (n as u64).encoder(out)
    }

    fn take(view: &mut DataView<Vec<u8>>) -> (r: Result<usize, ErrorKind>) {
        proof {
            reveal_with_fuel(le_span, 9);
            if view_rest(*view).len() >= 8 {
                lemma_le_value_bound(view_rest(*view).subrange(0, 8));
            }
        }
        match u64::decoder(view) {
            Ok(v) => if v > usize::MAX as u64 {
                Err(ErrorKind::InvalidLength)
            } else {
                Ok(v as usize)
            },
            Err(e) => Err(e),
        }
    }
}

/// A payload whose length is written as a `Len`.
#[derive(Default, Debug, PartialEq, Eq, PartialOrd, Ord)]
pub struct Record<Len, Type> {
    pub data: Type,
    pub marker: PhantomData<Len>,
}

impl<Len, Type> Record<Len, Type> {
    /// Wraps a payload.
    pub fn new(data: Type) -> (r: Self)
        ensures
            r.data == data,
    {
        Self { data, marker: PhantomData }
    }

    /// Hands the payload back.
    pub fn into_inner(self) -> (data: Type)
        ensures
            data == self.data,
    {
        self.data
    }
}

impl<Len, Type: Clone> Clone for Record<Len, Type> {
    fn clone(&self) -> (r: Self)
        ensures
            cloned(self.data, r.data),
    {
        Record::new(self.data.clone())
    }
}

impl<Len, Type> core::ops::Deref for Record<Len, Type> {
    type Target = Type;

    fn deref(&self) -> (r: &Type)
        ensures
            *r == self.data,
    {
        &self.data
    }
}

impl<Len, Type> core::ops::DerefMut for Record<Len, Type> {
    fn deref_mut(&mut self) -> (r: &mut Type)
        ensures
            *r == old(self).data,
            final(self).data == *final(r),
    {
        &mut self.data
    }
}

impl<Len, Type> From<Type> for Record<Len, Type> {
    fn from(data: Type) -> (r: Self) {
        Self::new(data)
    }
}

impl<Len, Type> vstd::std_specs::convert::FromSpecImpl<Type> for Record<Len, Type> {
    open spec fn obeys_from_spec() -> bool {
        true
    }

    open spec fn from_spec(data: Type) -> Self {
        Record { data, marker: PhantomData }
    }
}

impl<Len: LenField> DataType for Record<Len, String> {
    type Model = Seq<char>;

    open spec fn model(&self) -> Seq<char> {
        self.data@
    }

    open spec fn wire(m: Seq<char>) -> Option<Seq<u8>> {
        prepend_field(field_wire(encode_utf8(m).len(), Len::width()), Some(encode_utf8(m)))
    }

    open spec fn parse(s: Seq<u8>) -> Result<(Seq<char>, nat), ErrorKind> {
        match field_parse(s, Len::width()) {
            Ok(p) => match text_parse(s, p.1, p.0) {
                Err(ErrorKind::Utf8Error(_)) => Err(ErrorKind::InvalidData),
                other => other,
            },
            Err(e) => Err(e),
        }
    }

    open spec fn hint(m: Seq<char>) -> nat {
        Len::width() + encode_utf8(m).len()
    }

    proof fn lemma_round_trip(m: Seq<char>, rest: Seq<u8>) {
        let b = encode_utf8(m);
        if let Some(head) = field_wire(b.len(), Len::width()) {
            lemma_field_round_trip(b.len(), Len::width(), b + rest);
            assert(head + b + rest =~= head + (b + rest));
            lemma_text_round_trip(head, m, rest);
        }
    }

    proof fn lemma_parse_bound(s: Seq<u8>) {
    }

    proof fn lemma_hint_bound(m: Seq<char>) {
        lemma_field_round_trip(encode_utf8(m).len(), Len::width(), Seq::empty());
    }

    fn size_hint(&self) -> (n: usize) {
        let len: usize = self.data.as_str().as_bytes().len();
        let head: usize = Len::size();
        if len > usize::MAX - head {
            usize::MAX
        } else {
            head + len
        }
    }

    fn encoder(&self, out: &mut Vec<u8>) -> (r: Result<(), ErrorKind>) {
        let bytes = self.data.as_str().as_bytes();
        match Len::put(bytes.len(), out) {
            Ok(_) => {
                append_bytes(out, bytes);
                assert(final(out)@ =~= old(out)@ + (le_bytes(bytes@.len(), Len::width())
                    + bytes@));
                Ok(())
            },
            Err(e) => Err(e),
        }
    }

    fn decoder(view: &mut DataView<Vec<u8>>) -> (r: Result<Self, ErrorKind>) {
        let ghost s = view_rest(*view);
        let ghost start = *view;
        let n: usize = match Len::take(view) {
            Ok(n) => n,
            Err(e) => { return Err(e); },
        };
        proof {
            Len::lemma_width();
            lemma_rest_after(start, *view, Len::width());
        }
        match read_text(view, n, Ghost(s), Ghost(Len::width())) {
            Ok(text) => Ok(Record::new(text)),
            Err(ErrorKind::Utf8Error(_)) => Err(ErrorKind::InvalidData),
            Err(e) => Err(e),
        }
    }
}

impl<Len: LenField, D: DataType> DataType for Record<Len, Vec<D>> {
    type Model = Seq<D::Model>;

    open spec fn model(&self) -> Seq<D::Model> {
        models(self.data@)
    }

    open spec fn wire(m: Seq<D::Model>) -> Option<Seq<u8>> {
        prepend_field(field_wire(m.len(), Len::width()), items_wire::<D>(m))
    }

    open spec fn parse(s: Seq<u8>) -> Result<(Seq<D::Model>, nat), ErrorKind> {
        match field_parse(s, Len::width()) {
            Ok(p) => joined(Seq::empty(), p.1, items_parse::<D>(s.skip(p.1 as int), p.0)),
            Err(e) => Err(e),
        }
    }

    open spec fn hint(m: Seq<D::Model>) -> nat {
        Len::width() + items_hint::<D>(m)
    }

    proof fn lemma_round_trip(m: Seq<D::Model>, rest: Seq<u8>) {
        if let Some(all) = Self::wire(m) {
            let head = field_wire(m.len(), Len::width()).unwrap();
            let body = items_wire::<D>(m).unwrap();
            lemma_field_round_trip(m.len(), Len::width(), body + rest);
            assert(all + rest =~= head + (body + rest));
            assert((all + rest).skip(head.len() as int) =~= body + rest);
            lemma_items_round_trip::<D>(m, rest);
            assert(Seq::<D::Model>::empty() + m =~= m);
        }
    }

    proof fn lemma_parse_bound(s: Seq<u8>) {
        if let Ok(p) = field_parse(s, Len::width()) {
            lemma_items_parse_bound::<D>(s.skip(p.1 as int), p.0);
        }
    }

    proof fn lemma_hint_bound(m: Seq<D::Model>) {
        lemma_field_round_trip(m.len(), Len::width(), Seq::empty());
        lemma_items_hint_bound::<D>(m);
    }

    fn size_hint(&self) -> (n: usize) {
        let body: usize = items_size_hint(&self.data);
        let head: usize = Len::size();
        if body > usize::MAX - head {
            usize::MAX
        } else {
            head + body
        }
    }

    fn encoder(&self, out: &mut Vec<u8>) -> (r: Result<(), ErrorKind>) {
        match Len::put(self.data.len(), out) {
            Ok(_) => {
                let r = encode_items(&self.data, out);
                proof {
                    let head = le_bytes(self.data@.len() as nat, Len::width());
                    if let Some(body) = items_wire::<D>(models(self.data@)) {
                        assert(final(out)@ =~= old(out)@ + (head + body));
                    } else {
                        assert(old(out)@.is_prefix_of(final(out)@));
                    }
                }
                r
            },
            Err(e) => Err(e),
        }
    }

    fn decoder(view: &mut DataView<Vec<u8>>) -> (r: Result<Self, ErrorKind>) {
        let ghost s = view_rest(*view);
        let ghost start = *view;
        let n: usize = match Len::take(view) {
            Ok(n) => n,
            Err(e) => { return Err(e); },
        };
        proof {
            lemma_rest_after(start, *view, Len::width());
        }
        match decode_items::<D>(view, n) {
            Ok(items) => {
                assert(Seq::<D::Model>::empty() + models(items@) =~= models(items@));
                Ok(Record::new(items))
            },
            Err(e) => Err(e),
        }
    }
}

/// A text record takes the bytes of its length field and the bytes of its
/// text, and has a wire form exactly where the number of those bytes fits
/// the length field.
pub proof fn lemma_text_record_size<Len: LenField>(m: Seq<char>)
    ensures
        Record::<Len, String>::wire(m) is Some <==> field_wire(
            encode_utf8(m).len(),
            Len::width(),
        ) is Some,
        Record::<Len, String>::wire(m) matches Some(w) ==> w.len() == Len::width() + encode_utf8(
            m,
        ).len(),
{
    lemma_field_round_trip(encode_utf8(m).len(), Len::width(), Seq::empty());
}

/// A one-byte length field holds the lengths up to 255 and no others.
pub proof fn lemma_one_byte_field(n: nat)
    ensures
        field_wire(n, 1) is Some <==> n <= 255,
{
    reveal_with_fuel(le_span, 2);
}

/// The length field in front of the payload, where both have a wire form.
pub open spec fn prepend_field(head: Option<Seq<u8>>, body: Option<Seq<u8>>) -> Option<Seq<u8>> {
    match head {
        Some(h) => prepend(h, body),
        None => None,
    }
}

} // verus!
