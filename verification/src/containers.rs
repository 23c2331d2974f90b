//! Wire forms of text, growable sequences and boxes.
//!
//! Text is a length prefix that counts bytes, then the UTF-8 bytes. A
//! sequence is a length prefix that counts items, then each item in its own
//! wire form. A box has the wire form of what it holds.

use crate::buffer::{
    le_bytes, lemma_le_value_single, lemma_rest_after, remaining, view_bytes, view_offset,
    view_read_slice, view_rest,
};
use crate::codec::{append_bytes, decoded, encoded, DataType};
use crate::error::ErrorKind;
use crate::lencoder::{
    decode_len, encode_len, lemma_len_parse_bound, lemma_len_round_trip, len_max, len_parse,
    len_prefix_size, len_size, len_wire,
};
use data_view::DataView;
use vstd::prelude::*;
use vstd::utf8::{decode_utf8, encode_utf8, encode_utf8_decode_utf8, encode_utf8_valid_utf8, valid_utf8};

verus! {

/// Whether the first `k` bytes of `b` are the longest prefix of `b` that
/// is valid UTF-8.
pub open spec fn is_valid_up_to(b: Seq<u8>, k: int) -> bool {
    &&& 0 <= k <= b.len()
    &&& valid_utf8(b.subrange(0, k))
    &&& forall|j: int| k < j <= b.len() ==> !valid_utf8(#[trigger] b.subrange(0, j))
}

/// The length of the longest prefix of `b` that is valid UTF-8.
pub open spec fn valid_up_to(b: Seq<u8>) -> int {
    choose|k: int| is_valid_up_to(b, k)
}

/// There is only one longest valid prefix.
pub proof fn lemma_valid_up_to(b: Seq<u8>, k: int)
    requires
        is_valid_up_to(b, k),
    ensures
        valid_up_to(b) == k,
{
    let c = valid_up_to(b);
    assert(is_valid_up_to(b, c));
    if c < k {
        assert(!valid_utf8(b.subrange(0, k)));
    }
    if k < c {
        assert(!valid_utf8(b.subrange(0, c)));
    }
}

/// `String::from_utf8`: a string exactly where the bytes are valid UTF-8,
/// and then the text that they encode; otherwise what `valid_up_to` of the
/// error gives, which std documents as the greatest index up to which the
/// bytes are valid UTF-8.
#[verifier::external_body]
pub(crate) fn string_from_utf8(bytes: Vec<u8>) -> (r: Result<String, usize>)
    ensures
        match r {
            Ok(s) => valid_utf8(bytes@) && s@ == decode_utf8(bytes@),
            Err(k) => !valid_utf8(bytes@) && is_valid_up_to(bytes@, k as int),
        },
{
    String::from_utf8(bytes).map_err(|e| e.utf8_error().valid_up_to())
}

/// The text that lies in `s` behind a length field of `k` bytes that
/// announced `n` bytes, with the bytes taken in all; where the `n` bytes
/// are not UTF-8, the error says how many of them are.
pub open spec fn text_parse(s: Seq<u8>, k: nat, n: nat) -> Result<(Seq<char>, nat), ErrorKind> {
    if s.len() < k + n {
        Err(ErrorKind::InsufficientBytes)
    } else if valid_utf8(s.subrange(k as int, (k + n) as int)) {
        Ok((decode_utf8(s.subrange(k as int, (k + n) as int)), k + n))
    } else {
        Err(ErrorKind::Utf8Error(valid_up_to(s.subrange(k as int, (k + n) as int)) as usize))
    }
}

/// Text behind its length field parses to itself.
pub proof fn lemma_text_round_trip(head: Seq<u8>, m: Seq<char>, rest: Seq<u8>)
    ensures
        text_parse(head + encode_utf8(m) + rest, head.len(), encode_utf8(m).len()) == Ok::<
            (Seq<char>, nat),
            ErrorKind,
        >((m, head.len() + encode_utf8(m).len())),
{
    let b = encode_utf8(m);
    let s = head + b + rest;
    assert(s.subrange(head.len() as int, (head.len() + b.len()) as int) =~= b);
    encode_utf8_valid_utf8(m);
    encode_utf8_decode_utf8(m);
}

/// Reads `n` bytes of text at the offset of `view`, which lies `k` bytes
/// behind the position `start` where the field began.
pub(crate) fn read_text(
    view: &mut DataView<Vec<u8>>,
    n: usize,
    Ghost(s): Ghost<Seq<u8>>,
    Ghost(k): Ghost<nat>,
) -> (r: Result<String, ErrorKind>)
    requires
        k <= s.len(),
        view_offset(*old(view)) <= view_bytes(*old(view)).len(),
        view_rest(*old(view)) == s.skip(k as int),
    ensures
        view_bytes(*final(view)) == view_bytes(*old(view)),
        match text_parse(s, k, n as nat) {
            Ok(p) => r matches Ok(t) && t@ == p.0 && view_offset(*final(view))
                == view_offset(*old(view)) + n,
            Err(e) => r matches Err(g) && g == e,
        },
{
    if remaining(view) < n {
        return Err(ErrorKind::InsufficientBytes);
    }
    proof {
        let off = view_offset(*view) as int;
        assert(s.subrange(k as int, (k + n) as int) =~= view_bytes(*view).subrange(
            off,
            off + n,
        ));
    }
    match view_read_slice(view, n) {
        Some(bytes) => match string_from_utf8(bytes) {
            Ok(text) => Ok(text),
            Err(valid) => {
                proof {
                    lemma_valid_up_to(bytes@, valid as int);
                }
                Err(ErrorKind::Utf8Error(valid))
            },
        },
        None => Err(ErrorKind::InsufficientBytes),
    }
}

/// The wire form of a run of bytes: the length prefix for their number,
/// then the bytes; `None` where the prefix cannot hold the number.
pub open spec fn bytes_wire(b: Seq<u8>) -> Option<Seq<u8>> {
    if b.len() <= len_max() {
        Some(len_wire(b.len()) + b)
    } else {
        None
    }
}

/// The run of bytes at the front of `s`, and the bytes taken in all.
pub open spec fn bytes_parse(s: Seq<u8>) -> Result<(Seq<u8>, nat), ErrorKind> {
    match len_parse(s) {
        Ok(p) => if s.len() < p.1 + p.0 {
            Err(ErrorKind::InsufficientBytes)
        } else {
            Ok((s.subrange(p.1 as int, (p.1 + p.0) as int), p.1 + p.0))
        },
        Err(e) => Err(e),
    }
}

/// Appends the wire form of a run of bytes; fails with `InvalidLength`,
/// leaving `out` as it was, where the run is too long for the prefix.
pub fn encode_bytes(run: &[u8], out: &mut Vec<u8>) -> (r: Result<(), ErrorKind>)
    ensures
        encoded(old(out)@, final(out)@, bytes_wire(run@), r),
        r is Err ==> final(out)@ == old(out)@,
{
    match encode_len(run.len(), out) {
        Ok(_) => {
            append_bytes(out, run);
            assert(final(out)@ =~= old(out)@ + (len_wire(run@.len()) + run@));
            Ok(())
        },
        Err(e) => Err(e),
    }
}

/// Appends the wire form of a text, which is that of its UTF-8 bytes.
pub fn encode_str(text: &str, out: &mut Vec<u8>) -> (r: Result<(), ErrorKind>)
    ensures
        encoded(old(out)@, final(out)@, bytes_wire(encode_utf8(text@)), r),
        r is Err ==> final(out)@ == old(out)@,
{
    encode_bytes(text.as_bytes(), out)
}

/// Reads a run of bytes at the offset of `view`.
pub fn decode_bytes(view: &mut DataView<Vec<u8>>) -> (r: Result<Vec<u8>, ErrorKind>)
    ensures
        decoded(
            *old(view),
            *final(view),
            bytes_parse(view_rest(*old(view))),
            match r {
                Ok(b) => Ok(b@),
                Err(e) => Err(e),
            },
        ),
{
    let ghost s = view_rest(*view);
    let ghost start = *view;
    let n: usize = match decode_len(view) {
        Ok(n) => n,
        Err(e) => { return Err(e); },
    };
    proof {
        lemma_len_parse_bound(s);
        lemma_rest_after(start, *view, len_parse(s).unwrap().1);
    }
    if remaining(view) < n {
        return Err(ErrorKind::InsufficientBytes);
    }
    proof {
        let k = len_parse(s).unwrap().1 as int;
        let off = view_offset(*view) as int;
        assert(s.subrange(k, k + n) =~= view_bytes(*view).subrange(off, off + n));
    }
    match view_read_slice(view, n) {
        Some(bytes) => Ok(bytes),
        None => Err(ErrorKind::InsufficientBytes),
    }
}

/// Bytes written one after another as items are the bytes themselves.
pub proof fn lemma_byte_items_wire(b: Seq<u8>)
    ensures
        items_wire::<u8>(b) == Some(b),
    decreases b.len(),
{
    if b.len() > 0 {
        reveal_with_fuel(le_bytes, 2);
        lemma_byte_items_wire(b.drop_first());
        assert(seq![b[0]] + b.drop_first() =~= b);
        assert(le_bytes(b[0] as nat, 1) =~= seq![b[0]]);
    } else {
        assert(b =~= Seq::<u8>::empty());
    }
}

/// `count` bytes read one after another as items are the first `count`
/// bytes, where there are that many.
pub proof fn lemma_byte_items_parse(s: Seq<u8>, count: nat)
    ensures
        items_parse::<u8>(s, count) == if s.len() < count {
            Err::<(Seq<u8>, nat), ErrorKind>(ErrorKind::InsufficientBytes)
        } else {
            Ok((s.subrange(0, count as int), count))
        },
    decreases count,
{
    if count > 0 {
        if s.len() >= 1 {
            lemma_le_value_single(s);
            lemma_byte_items_parse(s.skip(1), (count - 1) as nat);
            if s.len() >= count {
                assert(seq![s[0]] + s.skip(1).subrange(0, count - 1) =~= s.subrange(
                    0,
                    count as int,
                ));
            }
        }
    } else {
        assert(s.subrange(0, 0) =~= Seq::<u8>::empty());
    }
}

/// A run of bytes and a sequence of one-byte items are the same on the
/// wire.
pub proof fn lemma_bytes_as_sequence(b: Seq<u8>, s: Seq<u8>)
    ensures
        Vec::<u8>::wire(b) == bytes_wire(b),
        Vec::<u8>::parse(s) == bytes_parse(s),
{
    lemma_byte_items_wire(b);
    lemma_len_parse_bound(s);
    if let Ok(p) = len_parse(s) {
        let tail = s.skip(p.1 as int);
        lemma_byte_items_parse(tail, p.0);
        if tail.len() >= p.0 {
            assert(Seq::<u8>::empty() + tail.subrange(0, p.0 as int) =~= s.subrange(
                p.1 as int,
                (p.1 + p.0) as int,
            ));
        }
    }
}

impl DataType for String {
    type Model = Seq<char>;

    open spec fn model(&self) -> Seq<char> {
        self@
    }

    open spec fn wire(m: Seq<char>) -> Option<Seq<u8>> {
        bytes_wire(encode_utf8(m))
    }

    open spec fn parse(s: Seq<u8>) -> Result<(Seq<char>, nat), ErrorKind> {
        match len_parse(s) {
            Ok(p) => text_parse(s, p.1, p.0),
            Err(e) => Err(e),
        }
    }

    open spec fn hint(m: Seq<char>) -> nat {
        len_size() + encode_utf8(m).len()
    }

    proof fn lemma_round_trip(m: Seq<char>, rest: Seq<u8>) {
        let b = encode_utf8(m);
        if b.len() <= len_max() {
            let head = len_wire(b.len());
            lemma_len_round_trip(b.len(), b + rest);
            assert(head + b + rest =~= head + (b + rest));
            lemma_text_round_trip(head, m, rest);
        }
    }

    proof fn lemma_parse_bound(s: Seq<u8>) {
    }

    proof fn lemma_hint_bound(m: Seq<char>) {
        if encode_utf8(m).len() <= len_max() {
            lemma_len_round_trip(encode_utf8(m).len(), Seq::empty());
        }
    }

    fn size_hint(&self) -> (n: usize) {
        let len: usize = self.as_str().as_bytes().len();
        let head: usize = len_prefix_size();
        if len > usize::MAX - head {
            usize::MAX
        } else {
            head + len
        }
    }

    fn encoder(&self, out: &mut Vec<u8>) -> (r: Result<(), ErrorKind>) {
        encode_str(self.as_str(), out)
    }

    fn decoder(view: &mut DataView<Vec<u8>>) -> (r: Result<Self, ErrorKind>) {
        let ghost s = view_rest(*view);
        let ghost start = *view;
        let n: usize = match decode_len(view) {
            Ok(n) => n,
            Err(e) => { return Err(e); },
        };
        proof {
            lemma_len_parse_bound(s);
            lemma_rest_after(start, *view, len_parse(s).unwrap().1);
        }
        read_text(view, n, Ghost(s), Ghost(len_parse(s).unwrap().1))
    }
}

impl<T: DataType> DataType for Box<T> {
    type Model = T::Model;

    open spec fn model(&self) -> T::Model {
        (**self).model()
    }

    open spec fn wire(m: T::Model) -> Option<Seq<u8>> {
        T::wire(m)
    }

    open spec fn parse(s: Seq<u8>) -> Result<(T::Model, nat), ErrorKind> {
        T::parse(s)
    }

    open spec fn hint(m: T::Model) -> nat {
        T::hint(m)
    }

    proof fn lemma_round_trip(m: T::Model, rest: Seq<u8>) {
        T::lemma_round_trip(m, rest);
    }

    proof fn lemma_parse_bound(s: Seq<u8>) {
        T::lemma_parse_bound(s);
    }

    proof fn lemma_hint_bound(m: T::Model) {
        T::lemma_hint_bound(m);
    }

    fn size_hint(&self) -> (n: usize) {
        (**self).size_hint()
    }

    fn encoder(&self, out: &mut Vec<u8>) -> (r: Result<(), ErrorKind>) {
        (**self).encoder(out)
    }

    fn decoder(view: &mut DataView<Vec<u8>>) -> (r: Result<Self, ErrorKind>) {
        match T::decoder(view) {
            Ok(v) => Ok(Box::new(v)),
            Err(e) => Err(e),
        }
    }
}

/// The models of the items of a sequence, in order.
pub open spec fn models<T: DataType>(v: Seq<T>) -> Seq<T::Model> {
    v.map_values(|x: T| x.model())
}

/// `head` in front of `tail`, where there is a tail.
pub open spec fn prepend(head: Seq<u8>, tail: Option<Seq<u8>>) -> Option<Seq<u8>> {
    match tail {
        Some(t) => Some(head + t),
        None => None,
    }
}

/// The result of a parse that went on after `front` had been read from
/// `used` bytes.
pub open spec fn joined<M>(
    front: Seq<M>,
    used: nat,
    tail: Result<(Seq<M>, nat), ErrorKind>,
) -> Result<(Seq<M>, nat), ErrorKind> {
    match tail {
        Ok(p) => Ok((front + p.0, used + p.1)),
        Err(e) => Err(e),
    }
}

/// The wire forms of the items one after another; `None` where one of them
/// has none.
pub open spec fn items_wire<T: DataType>(m: Seq<T::Model>) -> Option<Seq<u8>>
    decreases m.len(),
{
    if m.len() == 0 {
        Some(Seq::empty())
    } else {
        match T::wire(m[0]) {
            Some(w) => prepend(w, items_wire::<T>(m.drop_first())),
            None => None,
        }
    }
}

/// `count` items read one after another from the front of `s`; the first
/// item that fails to parse gives the error.
pub open spec fn items_parse<T: DataType>(s: Seq<u8>, count: nat) -> Result<
    (Seq<T::Model>, nat),
    ErrorKind,
>
    decreases count,
{
    if count == 0 {
        Ok((Seq::empty(), 0))
    } else {
        match T::parse(s) {
            Ok(p) => joined(
                seq![p.0],
                p.1,
                items_parse::<T>(s.skip(p.1 as int), (count - 1) as nat),
            ),
            Err(e) => Err(e),
        }
    }
}

/// The sum of the hints of the items.
pub open spec fn items_hint<T: DataType>(m: Seq<T::Model>) -> nat
    decreases m.len(),
{
    if m.len() == 0 {
        0
    } else {
        T::hint(m[0]) + items_hint::<T>(m.drop_first())
    }
}

/// Items written one after another parse back to the same items, from
/// exactly the bytes written.
pub proof fn lemma_items_round_trip<T: DataType>(m: Seq<T::Model>, rest: Seq<u8>)
    ensures
        items_wire::<T>(m) matches Some(w) ==> items_parse::<T>(w + rest, m.len()) == Ok::<
            (Seq<T::Model>, nat),
            ErrorKind,
        >((m, w.len())),
    decreases m.len(),
{
    if m.len() > 0 {
        if let Some(all) = items_wire::<T>(m) {
            let w = T::wire(m[0]).unwrap();
            let tail = items_wire::<T>(m.drop_first()).unwrap();
            assert(all == w + tail);
            T::lemma_round_trip(m[0], tail + rest);
            assert(all + rest =~= w + (tail + rest));
            assert((all + rest).skip(w.len() as int) =~= tail + rest);
            lemma_items_round_trip::<T>(m.drop_first(), rest);
            assert(seq![m[0]] + m.drop_first() =~= m);
        }
    } else {
        assert(Seq::<T::Model>::empty() =~= m);
    }
}

/// A parse of `count` items gives `count` items and stays inside the input.
pub proof fn lemma_items_parse_bound<T: DataType>(s: Seq<u8>, count: nat)
    ensures
        items_parse::<T>(s, count) matches Ok(p) ==> p.0.len() == count && p.1 <= s.len(),
    decreases count,
{
    if count > 0 {
        T::lemma_parse_bound(s);
        if let Ok(p) = T::parse(s) {
            lemma_items_parse_bound::<T>(s.skip(p.1 as int), (count - 1) as nat);
        }
    }
}

/// The items' wire forms together are no longer than the sum of the hints.
pub proof fn lemma_items_hint_bound<T: DataType>(m: Seq<T::Model>)
    ensures
        items_wire::<T>(m) matches Some(w) ==> w.len() <= items_hint::<T>(m),
    decreases m.len(),
{
    if m.len() > 0 {
        T::lemma_hint_bound(m[0]);
        lemma_items_hint_bound::<T>(m.drop_first());
    }
}

/// Appends the wire form of each item, in order, and stops at the first
/// item that has none.
pub fn encode_items<T: DataType>(items: &Vec<T>, out: &mut Vec<u8>) -> (r: Result<(), ErrorKind>)
    ensures
        encoded(old(out)@, final(out)@, items_wire::<T>(models(items@)), r),
{
    let ghost m = models(items@);
    let ghost mut done: Seq<u8> = Seq::empty();
    let mut i: usize = 0;
    assert(m.skip(0) =~= m);
    assert(out@ =~= old(out)@ + done);
    assert(prepend(done, items_wire::<T>(m)) == items_wire::<T>(m)) by {
        if let Some(w) = items_wire::<T>(m) {
            assert(done + w =~= w);
        }
    }
    while i < items.len()
        invariant
            i <= items@.len(),
            m == models(items@),
            out@ == old(out)@ + done,
            items_wire::<T>(m) == prepend(done, items_wire::<T>(m.skip(i as int))),
        decreases items@.len() - i,
    {
        let ghost before = out@;
        proof {
            assert(m.skip(i as int).drop_first() =~= m.skip(i + 1));
            assert(m.skip(i as int)[0] == items@[i as int].model());
        }
        match items[i].encoder(out) {
            Ok(_) => {
                proof {
                    let w = T::wire(m[i as int]).unwrap();
                    let tail = items_wire::<T>(m.skip(i + 1));
                    assert(prepend(done + w, tail) == prepend(done, prepend(w, tail))) by {
                        if let Some(t) = tail {
                            assert((done + w) + t =~= done + (w + t));
                        }
                    }
                    done = done + w;
                    assert(out@ =~= old(out)@ + done);
                }
            },
            Err(e) => {
                assert(old(out)@.is_prefix_of(out@));
                return Err(e);
            },
        }
        i += 1;
    }
    proof {
        assert(m.skip(i as int) =~= Seq::<T::Model>::empty());
        assert(done + Seq::<u8>::empty() =~= done);
    }
    Ok(())
}

/// Reads `count` items one after another at the offset of `view`, and stops
/// at the first that fails.
pub fn decode_items<T: DataType>(view: &mut DataView<Vec<u8>>, count: usize) -> (r: Result<
    Vec<T>,
    ErrorKind,
>)
    ensures
        decoded(
            *old(view),
            *final(view),
            items_parse::<T>(view_rest(*old(view)), count as nat),
            match r {
                Ok(v) => Ok(models(v@)),
                Err(e) => Err(e),
            },
        ),
{
    let ghost s = view_rest(*view);
    let ghost start = *view;
    let ghost mut used: nat = 0;
    let mut items: Vec<T> = Vec::new();
    let mut i: usize = 0;
    proof {
        assert(s.skip(0) =~= s);
        assert(models(items@) =~= Seq::<T::Model>::empty());
        assert(joined(models(items@), 0, items_parse::<T>(s, count as nat)) == items_parse::<T>(
            s,
            count as nat,
        )) by {
            if let Ok(p) = items_parse::<T>(s, count as nat) {
                assert(models(items@) + p.0 =~= p.0);
            }
        }
    }
    while i < count
        invariant
            i <= count,
            items@.len() == i,
            view_bytes(*view) == view_bytes(start),
            used <= s.len(),
            view_offset(*view) == view_offset(start) + used,
            view_rest(*view) == s.skip(used as int),
            s == view_rest(start),
            start == *old(view),
            items_parse::<T>(s, count as nat) == joined(
                models(items@),
                used,
                items_parse::<T>(s.skip(used as int), (count - i) as nat),
            ),
        decreases count - i,
    {
        let ghost mid = *view;
        let ghost front = models(items@);
        match T::decoder(view) {
            Ok(v) => {
                proof {
                    let cur = s.skip(used as int);
                    T::lemma_parse_bound(cur);
                    let p = T::parse(cur).unwrap();
                    lemma_rest_after(mid, *view, p.1);
                    assert(cur.skip(p.1 as int) =~= s.skip((used + p.1) as int));
                    let tail = items_parse::<T>(s.skip((used + p.1) as int), (count - i - 1) as nat);
                    assert(joined(front + seq![p.0], used + p.1, tail) == joined(
                        front,
                        used,
                        joined(seq![p.0], p.1, tail),
                    )) by {
                        if let Ok(t) = tail {
                            assert((front + seq![p.0]) + t.0 =~= front + (seq![p.0] + t.0));
                        }
                    }
                    used = used + p.1;
                }
                items.push(v);
                assert(models(items@) =~= front + seq![v.model()]);
            },
            Err(e) => {
                return Err(e);
            },
        }
        i += 1;
    }
    proof {
        assert(models(items@) + Seq::<T::Model>::empty() =~= models(items@));
    }
    Ok(items)
}

/// The sum of the items' size hints, or `usize::MAX` where it is larger.
pub fn items_size_hint<T: DataType>(items: &Vec<T>) -> (n: usize)
    ensures
        n == if items_hint::<T>(models(items@)) <= usize::MAX {
            items_hint::<T>(models(items@))
        } else {
            usize::MAX as nat
        },
{
    let ghost m = models(items@);
    let ghost mut done: nat = 0;
    let mut n: usize = 0;
    let mut i: usize = 0;
    assert(m.skip(0) =~= m);
    while i < items.len()
        invariant
            i <= items@.len(),
            m == models(items@),
            items_hint::<T>(m) == done + items_hint::<T>(m.skip(i as int)),
            n == if done <= usize::MAX { done } else { usize::MAX as nat },
        decreases items@.len() - i,
    {
        proof {
            assert(m.skip(i as int).drop_first() =~= m.skip(i + 1));
            assert(m.skip(i as int)[0] == items@[i as int].model());
            done = done + T::hint(m[i as int]);
        }
        let h: usize = items[i].size_hint();
        n = if h > usize::MAX - n { usize::MAX } else { n + h };
        i += 1;
    }
    proof {
        assert(m.skip(i as int) =~= Seq::<T::Model>::empty());
    }
    n
}

impl<T: DataType> DataType for Vec<T> {
    type Model = Seq<T::Model>;

    open spec fn model(&self) -> Seq<T::Model> {
        models(self@)
    }

    open spec fn wire(m: Seq<T::Model>) -> Option<Seq<u8>> {
        if m.len() <= len_max() {
            prepend(len_wire(m.len()), items_wire::<T>(m))
        } else {
            None
        }
    }

    open spec fn parse(s: Seq<u8>) -> Result<(Seq<T::Model>, nat), ErrorKind> {
        match len_parse(s) {
            Ok(p) => joined(Seq::empty(), p.1, items_parse::<T>(s.skip(p.1 as int), p.0)),
            Err(e) => Err(e),
        }
    }

    open spec fn hint(m: Seq<T::Model>) -> nat {
        len_size() + items_hint::<T>(m)
    }

    proof fn lemma_round_trip(m: Seq<T::Model>, rest: Seq<u8>) {
        if let Some(all) = Self::wire(m) {
            let head = len_wire(m.len());
            let body = items_wire::<T>(m).unwrap();
            lemma_len_round_trip(m.len(), body + rest);
            assert(all + rest =~= head + (body + rest));
            assert((all + rest).skip(head.len() as int) =~= body + rest);
            lemma_items_round_trip::<T>(m, rest);
            assert(Seq::<T::Model>::empty() + m =~= m);
        }
    }

    proof fn lemma_parse_bound(s: Seq<u8>) {
        lemma_len_parse_bound(s);
        if let Ok(p) = len_parse(s) {
            lemma_items_parse_bound::<T>(s.skip(p.1 as int), p.0);
        }
    }

    proof fn lemma_hint_bound(m: Seq<T::Model>) {
        if m.len() <= len_max() {
            lemma_len_round_trip(m.len(), Seq::empty());
            lemma_items_hint_bound::<T>(m);
        }
    }

    fn size_hint(&self) -> (n: usize) {
        let body: usize = items_size_hint(self);
        let head: usize = len_prefix_size();
        if body > usize::MAX - head {
            usize::MAX
        } else {
            head + body
        }
    }

    fn encoder(&self, out: &mut Vec<u8>) -> (r: Result<(), ErrorKind>) {
        match encode_len(self.len(), out) {
            Ok(_) => {
                let ghost mid = out@;
                let r = encode_items(self, out);
                proof {
                    let head = len_wire(self@.len());
                    if let Some(body) = items_wire::<T>(models(self@)) {
                        assert(final(out)@ =~= old(out)@ + (head + body));
                    } else {
                        assert(old(out)@.is_prefix_of(final(out)@));
                    }
                }
                r
            },
            Err(e) => Err(e),
        }
    }

    fn decoder(view: &mut DataView<Vec<u8>>) -> (r: Result<Self, ErrorKind>) {
        let ghost s = view_rest(*view);
        let ghost start = *view;
        let n: usize = match decode_len(view) {
            Ok(n) => n,
            Err(e) => { return Err(e); },
        };
        proof {
            lemma_len_parse_bound(s);
            lemma_rest_after(start, *view, len_parse(s).unwrap().1);
        }
        let r = decode_items::<T>(view, n);
        proof {
            if r is Ok {
                let v = r->Ok_0;
                assert(Seq::<T::Model>::empty() + models(v@) =~= models(v@));
            }
        }
        r
    }
}

/// A sequence without items has the wire form of the length prefix for 0
/// alone, and that prefix alone parses to the sequence without items.
pub proof fn lemma_empty_sequence<T: DataType>()
    ensures
        Vec::<T>::wire(Seq::empty()) == Some(len_wire(0)),
        Vec::<T>::parse(len_wire(0)) == Ok::<(Seq<T::Model>, nat), ErrorKind>(
            (Seq::empty(), len_wire(0).len()),
        ),
{
    assert(len_wire(0) + Seq::<u8>::empty() =~= len_wire(0));
    Vec::<T>::lemma_round_trip(Seq::empty(), Seq::empty());
}

/// A box is transparent: its wire form and its parse are those of what it
/// holds.
pub proof fn lemma_box_transparent<T: DataType>(m: T::Model, s: Seq<u8>)
    ensures
        Box::<T>::wire(m) == T::wire(m),
        Box::<T>::parse(s) == T::parse(s),
{
}

} // verus!
