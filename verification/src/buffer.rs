//! The byte cursor: a `DataView` over a byte vector, seen through its
//! contents and its offset, and the little-endian reading of fixed-width
//! integers.

use data_view::DataView;
use vstd::prelude::*;

verus! {

#[verifier::external_type_specification]
#[verifier::external_body]
#[verifier::reject_recursive_types(T)]
pub struct ExDataView<T>(DataView<T>);

/// The bytes that a view holds (its `data` field).
pub uninterp spec fn view_bytes(v: DataView<Vec<u8>>) -> Seq<u8>;

/// The position at which the next read or write of a view starts (its
/// `offset` field).
pub uninterp spec fn view_offset(v: DataView<Vec<u8>>) -> usize;

/// The bytes from the offset to the end; empty where the offset lies past
/// the end.
pub open spec fn view_rest(v: DataView<Vec<u8>>) -> Seq<u8> {
    if view_offset(v) <= view_bytes(v).len() {
        view_bytes(v).skip(view_offset(v) as int)
    } else {
        Seq::empty()
    }
}

/// The number that a run of bytes stands for, least significant byte first.
pub open spec fn le_value(s: Seq<u8>) -> nat
    decreases s.len(),
{
    if s.len() == 0 {
        0
    } else {
        s[0] as nat + 256 * le_value(s.drop_first())
    }
}

/// The `width` bytes that stand for `v`, least significant byte first.
pub open spec fn le_bytes(v: nat, width: nat) -> Seq<u8>
    decreases width,
{
    if width == 0 {
        Seq::empty()
    } else {
        seq![(v % 256) as u8] + le_bytes(v / 256, (width - 1) as nat)
    }
}

/// 256 to the power `width`: the number of values that `width` bytes hold.
pub open spec fn le_span(width: nat) -> nat
    decreases width,
{
    if width == 0 {
        1
    } else {
        256 * le_span((width - 1) as nat)
    }
}

/// What a fixed-width read does to a view: it succeeds exactly where
/// `width` bytes remain, then yields their little-endian value and moves
/// the offset past them; otherwise the offset stays. The bytes never change.
pub open spec fn fixed_read(
    before: DataView<Vec<u8>>,
    after: DataView<Vec<u8>>,
    width: nat,
    got: Option<nat>,
) -> bool {
    let off = view_offset(before) as nat;
    let bytes = view_bytes(before);
    &&& view_bytes(after) == bytes
    &&& match got {
        Some(v) => {
            &&& off + width <= bytes.len()
            &&& view_offset(after) == off + width
            &&& v == le_value(bytes.subrange(off as int, (off + width) as int))
        },
        None => off + width > bytes.len() && view_offset(after) == off,
    }
}

/// `DataView::new`: a view of the given bytes with offset 0.
#[verifier::external_body]
pub(crate) fn view_new(data: Vec<u8>) -> (v: DataView<Vec<u8>>)
    ensures
        view_bytes(v) == data@,
        view_offset(v) == 0,
{
    DataView::new(data)
}

/// Reads the `offset` field of a view.
#[verifier::external_body]
pub(crate) fn view_position(v: &DataView<Vec<u8>>) -> (r: usize)
    ensures
        r == view_offset(*v),
{
    v.offset
}

/// The length of the `data` field of a view.
#[verifier::external_body]
pub(crate) fn view_len(v: &DataView<Vec<u8>>) -> (r: usize)
    ensures
        r == view_bytes(*v).len(),
{
    v.data.len()
}

/// `DataView::read::<u8>`: `None` where no byte remains, else the byte at
/// the offset, which moves on by one. The sum of offset and width must not
/// overflow, as `read` adds them unchecked.
#[verifier::external_body]
pub(crate) fn view_read_u8(view: &mut DataView<Vec<u8>>) -> (r: Option<u8>)
    requires
        view_offset(*old(view)) + 1 <= usize::MAX,
    ensures
        fixed_read(*old(view), *final(view), 1, match r { Some(v) => Some(v as nat), None => None }),
{
    view.read::<u8>()
}

/// `DataView::read::<u16>`: `None` where fewer than two bytes remain, else
/// their little-endian value, and the offset moves on by two. Little-endian
/// is the byte order of `data_view` without its `BE` or `NE` feature.
#[verifier::external_body]
pub(crate) fn view_read_u16(view: &mut DataView<Vec<u8>>) -> (r: Option<u16>)
    requires
        view_offset(*old(view)) + 2 <= usize::MAX,
    ensures
        fixed_read(*old(view), *final(view), 2, match r { Some(v) => Some(v as nat), None => None }),
{
    view.read::<u16>()
}

/// `DataView::read::<u32>`: `None` where fewer than four bytes remain, else
/// their little-endian value, and the offset moves on by four.
#[verifier::external_body]
pub(crate) fn view_read_u32(view: &mut DataView<Vec<u8>>) -> (r: Option<u32>)
    requires
        view_offset(*old(view)) + 4 <= usize::MAX,
    ensures
        fixed_read(*old(view), *final(view), 4, match r { Some(v) => Some(v as nat), None => None }),
{
    view.read::<u32>()
}

/// `DataView::read::<u64>`: `None` where fewer than eight bytes remain, else
/// their little-endian value, and the offset moves on by eight.
#[verifier::external_body]
pub(crate) fn view_read_u64(view: &mut DataView<Vec<u8>>) -> (r: Option<u64>)
    requires
        view_offset(*old(view)) + 8 <= usize::MAX,
    ensures
        fixed_read(*old(view), *final(view), 8, match r { Some(v) => Some(v as nat), None => None }),
{
    view.read::<u64>()
}

/// `DataView::read_slice`: `None` where fewer than `len` bytes remain and
/// the offset stays; else a copy of the next `len` bytes, and the offset
/// moves past them. The bytes of the view never change.
#[verifier::external_body]
pub(crate) fn view_read_slice(view: &mut DataView<Vec<u8>>, len: usize) -> (r: Option<Vec<u8>>)
    requires
        view_offset(*old(view)) + len <= usize::MAX,
    ensures
        view_bytes(*final(view)) == view_bytes(*old(view)),
        match r {
            Some(s) => {
                &&& view_offset(*old(view)) + len <= view_bytes(*old(view)).len()
                &&& view_offset(*final(view)) == view_offset(*old(view)) + len
                &&& s@ == view_bytes(*old(view)).subrange(
                    view_offset(*old(view)) as int,
                    view_offset(*old(view)) + len,
                )
            },
            None => {
                &&& view_offset(*old(view)) + len > view_bytes(*old(view)).len()
                &&& view_offset(*final(view)) == view_offset(*old(view))
            },
        },
{
    view.read_slice(len).map(<[u8]>::to_vec)
}

/// `DataView::write_slice`: `Err` where `src` does not fit behind the
/// offset, and nothing changes; else `src` overwrites the bytes at the
/// offset, which moves past them.
#[verifier::external_body]
pub(crate) fn view_write_slice(view: &mut DataView<Vec<u8>>, src: &Vec<u8>) -> (r: Result<(), ()>)
    requires
        view_offset(*old(view)) + src@.len() <= usize::MAX,
    ensures
        match r {
            Ok(_) => {
                &&& view_offset(*old(view)) + src@.len() <= view_bytes(*old(view)).len()
                &&& view_offset(*final(view)) == view_offset(*old(view)) + src@.len()
                &&& view_bytes(*final(view)) == spliced(
                    view_bytes(*old(view)),
                    view_offset(*old(view)) as int,
                    src@,
                )
            },
            Err(_) => {
                &&& view_offset(*old(view)) + src@.len() > view_bytes(*old(view)).len()
                &&& view_offset(*final(view)) == view_offset(*old(view))
                &&& view_bytes(*final(view)) == view_bytes(*old(view))
            },
        },
{
    view.write_slice(src)
}

/// `DataView::write::<u8>` into a fresh one-byte view: the one byte of `v`.
#[verifier::external_body]
pub(crate) fn fixed_bytes_u8(v: u8) -> (r: Vec<u8>)
    ensures
        r@ == le_bytes(v as nat, 1),
{
    let mut view = DataView::new(vec![0u8; core::mem::size_of::<u8>()]);
    let _ = view.write::<u8>(v);
    view.data
}

/// `DataView::write::<u16>` into a fresh two-byte view: the two bytes of
/// `v`, least significant first.
#[verifier::external_body]
pub(crate) fn fixed_bytes_u16(v: u16) -> (r: Vec<u8>)
    ensures
        r@ == le_bytes(v as nat, 2),
{
    let mut view = DataView::new(vec![0u8; core::mem::size_of::<u16>()]);
    let _ = view.write::<u16>(v);
    view.data
}

/// `DataView::write::<u32>` into a fresh four-byte view: the four bytes of
/// `v`, least significant first.
#[verifier::external_body]
pub(crate) fn fixed_bytes_u32(v: u32) -> (r: Vec<u8>)
    ensures
        r@ == le_bytes(v as nat, 4),
{
    let mut view = DataView::new(vec![0u8; core::mem::size_of::<u32>()]);
    let _ = view.write::<u32>(v);
    view.data
}

/// `DataView::write::<u64>` into a fresh eight-byte view: the eight bytes of
/// `v`, least significant first.
#[verifier::external_body]
pub(crate) fn fixed_bytes_u64(v: u64) -> (r: Vec<u8>)
    ensures
        r@ == le_bytes(v as nat, 8),
{
    let mut view = DataView::new(vec![0u8; core::mem::size_of::<u64>()]);
    let _ = view.write::<u64>(v);
    view.data
}

/// `bytes` with `src` written over it from position `at` on.
pub open spec fn spliced(bytes: Seq<u8>, at: int, src: Seq<u8>) -> Seq<u8> {
    bytes.subrange(0, at) + src + bytes.subrange(at + src.len(), bytes.len() as int)
}

/// How many bytes are left behind the offset: 0 where it lies past the end.
pub fn remaining(view: &DataView<Vec<u8>>) -> (n: usize)
    ensures
        n == view_rest(*view).len(),
        view_offset(*view) + n <= usize::MAX,
{
    let off: usize = view_position(view);
    let len: usize = view_len(view);
    if off <= len {
        len - off
    } else {
        0
    }
}

/// Encoding in `width` bytes and reading them back gives the value, for
/// every value below 256 to the power `width`.
pub proof fn lemma_le_round_trip(v: nat, width: nat)
    requires
        v < le_span(width),
    ensures
        le_bytes(v, width).len() == width,
        le_value(le_bytes(v, width)) == v,
    decreases width,
{
    if width > 0 {
        let rest = le_bytes(v / 256, (width - 1) as nat);
        lemma_le_round_trip(v / 256, (width - 1) as nat);
        assert(le_bytes(v, width).drop_first() =~= rest);
    }
}

/// The value of a single byte is that byte.
pub proof fn lemma_le_value_single(s: Seq<u8>)
    requires
        s.len() >= 1,
    ensures
        le_value(s.subrange(0, 1)) == s[0],
{
    reveal_with_fuel(le_value, 2);
    assert(s.subrange(0, 1).drop_first().len() == 0);
}

/// After a read of `n` bytes, what is left is what was left before without
/// its first `n` bytes.
pub proof fn lemma_rest_after(before: DataView<Vec<u8>>, after: DataView<Vec<u8>>, n: nat)
    requires
        view_bytes(after) == view_bytes(before),
        view_offset(after) == view_offset(before) + n,
        n <= view_rest(before).len(),
    ensures
        view_rest(after) == view_rest(before).skip(n as int),
{
    assert(view_rest(after) =~= view_rest(before).skip(n as int));
}

/// `width` bytes stand for a value below 256 to the power `width`.
pub proof fn lemma_le_value_bound(s: Seq<u8>)
    ensures
        le_value(s) < le_span(s.len()),
    decreases s.len(),
{
    if s.len() > 0 {
        lemma_le_value_bound(s.drop_first());
    }
}

} // verus!
