//! The raw packed encoding: every row's UTF-8 bytes followed by a zero byte,
//! all in one buffer.

use vstd::prelude::*;
use std::rc::Rc;
use bit_vec::BitVec;
use heapsize::HeapSizeOf;
use vstd::string::StringSliceAdditionalSpecFns;
use crate::column::Type;
use crate::mask::{mask_bits, mask_get, mask_len, select, lemma_select_take};
use vstd::utf8::{decode_utf8, encode_scalar, encode_utf8, length_of_first_scalar, pop_first_scalar, valid_first_scalar, valid_utf8};
use crate::text::{
    bytes_text, checked_utf8, lemma_encode_nonzero, lemma_text_of_bytes, no_nul, no_nul_rows,
    row_bytes, row_text, str_views,
};

verus! {

/// The number of bytes before the first zero byte (all of them if none is zero).
pub open spec fn seg_len(d: Seq<u8>) -> nat
    decreases d.len(),
{
    if d.len() == 0 || d[0] == 0 {
        0
    } else {
        1 + seg_len(d.drop_first())
    }
}

/// The runs of bytes that zero bytes separate: each run ends at a zero byte,
/// the last one possibly at the end of the buffer.
pub open spec fn rows_of(d: Seq<u8>) -> Seq<Seq<u8>>
    decreases d.len(),
{
    if d.len() == 0 {
        seq![]
    } else if seg_len(d) < d.len() {
        seq![d.take(seg_len(d) as int)] + rows_of(d.skip(seg_len(d) + 1int))
    } else {
        seq![d]
    }
}

/// Each run of bytes followed by a zero byte, all concatenated.
pub open spec fn pack(rows: Seq<Seq<u8>>) -> Seq<u8>
    decreases rows.len(),
{
    if rows.len() == 0 {
        seq![]
    } else {
        pack(rows.drop_last()) + rows.last() + seq![0u8]
    }
}

/// No byte of `b` is zero.
pub open spec fn no_zero(b: Seq<u8>) -> bool {
    forall|j: int| 0 <= j < b.len() ==> b[j] != 0
}

/// The buffer is empty or ends with a zero byte.
pub open spec fn terminated(d: Seq<u8>) -> bool {
    d.len() == 0 || d.last() == 0
}

/// The texts that a packed buffer decodes to, one per row.
pub open spec fn packed_texts(d: Seq<u8>) -> Seq<Seq<char>> {
    rows_of(d).map_values(|b: Seq<u8>| bytes_text(b))
}

proof fn lemma_seg_len_props(d: Seq<u8>)
    ensures
        seg_len(d) <= d.len(),
        forall|j: int| 0 <= j < seg_len(d) ==> d[j] != 0,
        seg_len(d) < d.len() ==> d[seg_len(d) as int] == 0,
    decreases d.len(),
{
    if d.len() > 0 && d[0] != 0 {
        lemma_seg_len_props(d.drop_first());
        assert forall|j: int| 0 <= j < seg_len(d) implies d[j] != 0 by {
            if j > 0 {
                assert(d[j] == d.drop_first()[j - 1]);
            }
        }
    }
}

proof fn lemma_seg_len(d: Seq<u8>, n: int)
    requires
        0 <= n < d.len(),
        d[n] == 0,
        forall|j: int| 0 <= j < n ==> d[j] != 0,
    ensures
        seg_len(d) == n,
    decreases n,
{
    if n > 0 {
        lemma_seg_len(d.drop_first(), n - 1);
    }
}

proof fn lemma_rows_of_append(a: Seq<u8>, b: Seq<u8>)
    requires
        terminated(a),
    ensures
        rows_of(a + b) == rows_of(a) + rows_of(b),
    decreases a.len(),
{
    if a.len() == 0 {
        assert(a + b =~= b);
        assert(rows_of(a) + rows_of(b) =~= rows_of(b));
    } else {
        lemma_seg_len_props(a);
        let n = seg_len(a) as int;
        if n == a.len() {
            assert(a[a.len() - 1] == 0);
        }
        lemma_seg_len(a + b, n);
        assert((a + b).take(n) =~= a.take(n));
        assert((a + b).skip(n + 1) =~= a.skip(n + 1) + b);
        let rest = a.skip(n + 1);
        assert(rest.len() == 0 || rest.last() == a.last());
        lemma_rows_of_append(rest, b);
        assert(rows_of(a + b) =~= rows_of(a) + rows_of(b));
    }
}

proof fn lemma_pack_terminated(rows: Seq<Seq<u8>>)
    ensures
        terminated(pack(rows)),
{
}

/// A run without zero bytes, followed by a zero byte, is read back as one row.
proof fn lemma_rows_of_one(b: Seq<u8>)
    requires
        no_zero(b),
    ensures
        rows_of(b + seq![0u8]) == seq![b],
{
    let d = b + seq![0u8];
    lemma_seg_len(d, b.len() as int);
    assert(d.take(b.len() as int) =~= b);
    assert(d.skip(b.len() + 1int) =~= Seq::<u8>::empty());
    assert(rows_of(Seq::<u8>::empty()) =~= Seq::<Seq<u8>>::empty());
    assert(rows_of(d) =~= seq![b]);
}

/// Packing runs without zero bytes and splitting the buffer gives the runs back.
pub proof fn lemma_rows_of_pack(rows: Seq<Seq<u8>>)
    requires
        forall|i: int| 0 <= i < rows.len() ==> no_zero(#[trigger] rows[i]),
    ensures
        rows_of(pack(rows)) == rows,
    decreases rows.len(),
{
    if rows.len() > 0 {
        let init = rows.drop_last();
        lemma_rows_of_pack(init);
        lemma_pack_terminated(init);
        assert(pack(rows) =~= pack(init) + (rows.last() + seq![0u8]));
        lemma_rows_of_append(pack(init), rows.last() + seq![0u8]);
        lemma_rows_of_one(rows.last());
        assert(init + seq![rows.last()] =~= rows);
    }
}

/// A zero byte in valid UTF-8 stands for a character of its own, so the bytes
/// on either side of it are valid UTF-8 too.
proof fn lemma_valid_split(x: Seq<u8>, k: int)
    requires
        valid_utf8(x),
        0 <= k < x.len(),
        x[k] == 0,
    ensures
        valid_utf8(x.take(k)),
        valid_utf8(x.skip(k + 1)),
    decreases x.len(),
{
    let l = length_of_first_scalar(x);
    let y = pop_first_scalar(x);
    if k == 0 {
        assert(x.take(0) =~= Seq::<u8>::empty());
        assert(x.skip(1) =~= y);
    } else {
        assert(k >= l);
        lemma_valid_split(y, k - l);
        assert(x.skip(k + 1) =~= y.skip(k - l + 1));
        let t = x.take(k);
        assert(t.take(l) =~= x.take(l));
        assert(t[0] == x[0]);
        assert(l >= 2 ==> t[1] == x[1]);
        assert(l >= 3 ==> t[2] == x[2]);
        assert(l >= 4 ==> t[3] == x[3]);
        assert(valid_first_scalar(t));
        assert(pop_first_scalar(t) =~= y.take(k - l));
    }
}

/// Valid UTF-8 followed by valid UTF-8 is valid UTF-8.
proof fn lemma_valid_concat(a: Seq<u8>, b: Seq<u8>)
    requires
        valid_utf8(a),
        valid_utf8(b),
    ensures
        valid_utf8(a + b),
    decreases a.len(),
{
    if a.len() == 0 {
        assert(a + b =~= b);
    } else {
        let l = length_of_first_scalar(a);
        let ab = a + b;
        assert(ab[0] == a[0]);
        assert(l >= 2 ==> ab[1] == a[1]);
        assert(l >= 3 ==> ab[2] == a[2]);
        assert(l >= 4 ==> ab[3] == a[3]);
        assert(valid_first_scalar(ab));
        assert(pop_first_scalar(ab) =~= pop_first_scalar(a) + b);
        lemma_valid_concat(pop_first_scalar(a), b);
    }
}

/// Every row of a buffer that is valid UTF-8 is valid UTF-8, so no row of such
/// a buffer decodes to the empty text for want of validity.
pub proof fn lemma_rows_valid(d: Seq<u8>)
    requires
        valid_utf8(d),
    ensures
        forall|i: int| 0 <= i < rows_of(d).len() ==> valid_utf8(#[trigger] rows_of(d)[i]),
        forall|i: int| 0 <= i < rows_of(d).len() ==> packed_texts(d)[i] == decode_utf8(rows_of(d)[i]),
    decreases d.len(),
{
    if d.len() > 0 {
        lemma_seg_len_props(d);
        let n = seg_len(d) as int;
        if n < d.len() {
            lemma_valid_split(d, n);
            lemma_rows_valid(d.skip(n + 1));
            let rest = rows_of(d.skip(n + 1));
            assert forall|i: int| 0 <= i < rows_of(d).len() implies valid_utf8(#[trigger] rows_of(d)[i]) by {
                if i > 0 {
                    assert(rows_of(d)[i] == rest[i - 1]);
                }
            }
        }
    }
}

/// Packing rows whose texts hold no NUL character and decoding the buffer
/// gives back every row's text, with a null row read as the empty string.
pub proof fn lemma_packed_round_trip(rows: Seq<Option<Rc<String>>>)
    requires
        no_nul_rows(rows),
    ensures
        packed_texts(pack(rows.map_values(|o: Option<Rc<String>>| row_bytes(o))))
            == rows.map_values(|o: Option<Rc<String>>| row_text(o)),
{
    let b = rows.map_values(|o: Option<Rc<String>>| row_bytes(o));
    assert forall|i: int| 0 <= i < b.len() implies no_zero(#[trigger] b[i]) by {
        assert(no_nul(row_text(rows[i])));
        lemma_encode_nonzero(row_text(rows[i]));
    }
    lemma_rows_of_pack(b);
    assert forall|i: int| 0 <= i < rows.len() implies bytes_text(#[trigger] b[i]) == row_text(rows[i]) by {
        vstd::utf8::encode_utf8_valid_utf8(row_text(rows[i]));
        vstd::utf8::encode_utf8_decode_utf8(row_text(rows[i]));
    }
    assert(packed_texts(pack(b)) =~= rows.map_values(|o: Option<Rc<String>>| row_text(o)));
}

/// A null row packs exactly as the empty string does, and where no row holds
/// the NUL character it reads back as the empty string.
pub proof fn lemma_null_collapse(rows: Seq<Option<Rc<String>>>, i: int, empty: Rc<String>)
    requires
        0 <= i < rows.len(),
        rows[i] is None,
        empty@.len() == 0,
    ensures
        pack(rows.map_values(|o: Option<Rc<String>>| row_bytes(o))) == pack(
            rows.update(i, Some(empty)).map_values(|o: Option<Rc<String>>| row_bytes(o)),
        ),
        no_nul_rows(rows) ==> packed_texts(pack(rows.map_values(|o: Option<Rc<String>>| row_bytes(o))))[i]
            == Seq::<char>::empty(),
{
    assert(empty@ =~= Seq::<char>::empty());
    assert(rows.update(i, Some(empty)).map_values(|o: Option<Rc<String>>| row_bytes(o))
        =~= rows.map_values(|o: Option<Rc<String>>| row_bytes(o)));
    if no_nul_rows(rows) {
        lemma_packed_round_trip(rows);
    }
}

/// A column packed as one buffer: every row's UTF-8 bytes followed by a zero
/// byte. A null row is packed as the empty string.
pub struct StringPacker {
    data: Vec<u8>,
}

/// Relies on `Vec::shrink_to_fit`: it changes the capacity, never the elements.
#[verifier::external_body]
fn shrink_bytes(v: &mut Vec<u8>)
    ensures
        final(v)@ == old(v)@,
{
    v.shrink_to_fit()
}

/// Relies on `heapsize`'s `HeapSizeOf` for `Vec<u8>`: the size the allocator
/// reports for the buffer, which depends on the allocator alone.
#[verifier::external_body]
fn bytes_heap_size(v: &Vec<u8>) -> usize {
    v.heap_size_of_children()
}

impl View for StringPacker {
    type V = Seq<Seq<char>>;

    /// The rows' texts, in order.
    open spec fn view(&self) -> Seq<Seq<char>> {
        packed_texts(self.bytes())
    }
}

impl StringPacker {
    /// The packed buffer.
    pub closed spec fn bytes(&self) -> Seq<u8> {
        self.data@
    }

    /// A packer with no rows.
    pub fn new() -> (r: StringPacker)
        ensures
            r.bytes() == Seq::<u8>::empty(),
            valid_utf8(r.bytes()),
            r@ == Seq::<Seq<char>>::empty(),
    {
        StringPacker { data: Vec::new() }
    }

    /// Packs every row in order, a null row as the empty string.
    pub fn from_strings(strings: &Vec<Option<Rc<String>>>) -> (r: StringPacker)
        ensures
            r.bytes() == pack(strings@.map_values(|o: Option<Rc<String>>| row_bytes(o))),
            terminated(r.bytes()),
            valid_utf8(r.bytes()),
            no_nul_rows(strings@) ==> r@ == strings@.map_values(|o: Option<Rc<String>>| row_text(o)),
    {
        let mut sp = StringPacker::new();
        let mut i: usize = 0;
        while i < strings.len()
            invariant
                i <= strings@.len(),
                sp.bytes() == pack(strings@.take(i as int).map_values(|o: Option<Rc<String>>| row_bytes(o))),
                valid_utf8(sp.bytes()),
            decreases strings@.len() - i,
        {
            let ghost rows = strings@.take(i as int).map_values(|o: Option<Rc<String>>| row_bytes(o));
            let ghost next = strings@.take(i as int + 1).map_values(|o: Option<Rc<String>>| row_bytes(o));
            match &strings[i] {
                Some(string) => sp.push(string.as_str()),
                None => {
                    proof {
                        reveal_strlit("");
                    }
                    sp.push("")
                },
            }
            proof {
                assert(next.drop_last() =~= rows);
            }
            i = i + 1;
        }
        proof {
            assert(strings@.take(strings@.len() as int) =~= strings@);
            lemma_pack_terminated(strings@.map_values(|o: Option<Rc<String>>| row_bytes(o)));
            if no_nul_rows(strings@) {
                lemma_packed_round_trip(strings@);
            }
        }
        sp.shrink_to_fit();
        sp
    }

    /// Appends one row: the string's bytes and a zero byte.
    pub fn push(&mut self, string: &str)
        ensures
            final(self).bytes() == old(self).bytes() + string.spec_bytes() + seq![0u8],
            terminated(final(self).bytes()),
            valid_utf8(old(self).bytes()) ==> valid_utf8(final(self).bytes()),
            terminated(old(self).bytes()) ==> final(self)@ == old(self)@ + packed_texts(
                string.spec_bytes() + seq![0u8],
            ),
            terminated(old(self).bytes()) && no_nul(string@) ==> final(self)@ == old(self)@.push(string@),
    {
        let bytes = string.as_bytes();
        let mut i: usize = 0;
        while i < bytes.len()
            invariant
                i <= bytes@.len(),
                bytes@ == string.spec_bytes(),
                self.data@ == old(self).data@ + bytes@.take(i as int),
            decreases bytes@.len() - i,
        {
            self.data.push(bytes[i]);
            i = i + 1;
            proof {
                assert(self.data@ =~= old(self).data@ + bytes@.take(i as int));
            }
        }
        self.data.push(0);
        proof {
            assert(bytes@.take(i as int) =~= bytes@);
            let a = old(self).data@;
            let z = seq![0u8];
            assert(self.data@ =~= a + bytes@ + z);
            assert(self.data@.last() == 0);
            vstd::utf8::encode_utf8_valid_utf8(string@);
            assert(valid_utf8(z)) by {
                let nul = seq!['\0'];
                assert(0u32 & 0x7Fu32 == 0) by (bit_vector);
                assert(nul[0] as u32 == 0);
                assert(vstd::utf8::has_width_1_encoding(0u32));
                assert(encode_scalar(0u32) =~= z);
                assert(nul.drop_first() =~= Seq::<char>::empty());
                assert(encode_utf8(Seq::<char>::empty()) =~= Seq::<u8>::empty());
                assert(encode_utf8(nul) =~= encode_scalar(0u32) + Seq::<u8>::empty());
                assert(encode_utf8(nul) =~= z);
                vstd::utf8::encode_utf8_valid_utf8(nul);
            }
            if valid_utf8(a) {
                lemma_valid_concat(a, bytes@);
                lemma_valid_concat(a + bytes@, z);
            }
            if terminated(a) {
                assert(a + bytes@ + z =~= a + (bytes@ + z));
                lemma_rows_of_append(a, bytes@ + z);
                assert(packed_texts(self.data@) =~= packed_texts(a) + packed_texts(bytes@ + z));
                if no_nul(string@) {
                    lemma_encode_nonzero(string@);
                    lemma_rows_of_one(bytes@);
                    lemma_text_of_bytes(string);
                    assert(packed_texts(bytes@ + z) =~= seq![string@]);
                }
            }
        }
    }

    /// A reader over the rows, from the first.
    pub fn iter(&self) -> (r: StringPackerIterator<'_>)
        ensures
            r.wf(),
            r.remaining() == self@,
    {
        let r = StringPackerIterator { data: &self.data, curr_index: 0 };
        proof {
            assert(self.data@.skip(0) =~= self.data@);
        }
        r
    }

    /// Every row's text, in order.
    pub fn collect_decoded(&self) -> (r: Vec<&str>)
        ensures
            str_views(r@) == self@,
    {
        let mut it = self.iter();
        let mut result: Vec<&str> = Vec::new();
        loop
            invariant
                it.wf(),
                str_views(result@) + it.remaining() == self@,
            ensures
                str_views(result@) == self@,
            decreases it.remaining().len(),
        {
            let ghost before = str_views(result@);
            match it.next() {
                Some(s) => {
                    result.push(s);
                    proof {
                        assert(str_views(result@) =~= before.push(s@));
                    }
                },
                None => {
                    proof {
                        assert(before + it.remaining() =~= before);
                    }
                    break;
                },
            }
        }
        result
    }

    /// The texts of the rows whose bit is set in `filter`, in row order.
    pub fn filter_decode(&self, filter: &BitVec) -> (r: Vec<&str>)
        requires
            mask_bits(*filter).len() == self@.len(),
        ensures
            str_views(r@) == select(self@, mask_bits(*filter)),
    {
        let ghost m = mask_bits(*filter);
        let n = mask_len(filter);
        let mut it = self.iter();
        let mut result: Vec<&str> = Vec::new();
        let mut i: usize = 0;
        while i < n
            invariant
                n == self@.len(),
                m == mask_bits(*filter),
                m.len() == n,
                i <= n,
                it.wf(),
                it.remaining() == self@.skip(i as int),
                str_views(result@) == select(self@.take(i as int), m),
            decreases n - i,
        {
            proof {
                lemma_select_take(self@, m, i as int);
                assert(self@.skip(i as int)[0] == self@[i as int]);
                assert(self@.skip(i as int).drop_first() =~= self@.skip(i as int + 1));
            }
            let ghost before = result@;
            let s = it.next();
            let selected = mask_get(filter, i);
            if let Some(s) = s {
                if let Some(true) = selected {
                    result.push(s);
                    proof {
                        assert(result@.drop_last() =~= before);
                        assert(str_views(result@) =~= str_views(before).push(s@));
                    }
                }
            }
            i = i + 1;
        }
        proof {
            assert(self@.take(n as int) =~= self@);
        }
        result
    }

    /// The type of the decoded values.
    pub fn decoded_type(&self) -> (r: Type)
        ensures
            r == Type::String,
    {
        Type::String
    }

    /// The heap memory held by the buffer, as the allocator reports it.
    pub fn heap_size_of_children(&self) -> usize {
        bytes_heap_size(&self.data)
    }

    /// Gives back spare capacity of the buffer; the rows stay as they are.
    pub fn shrink_to_fit(&mut self)
        ensures
            final(self).bytes() == old(self).bytes(),
    {
        shrink_bytes(&mut self.data);
    }
}

/// A forward reader over the rows of a packed buffer.
pub struct StringPackerIterator<'a> {
    data: &'a Vec<u8>,
    curr_index: usize,
}

impl<'a> StringPackerIterator<'a> {
    /// The buffer read.
    pub closed spec fn buffer(&self) -> Seq<u8> {
        self.data@
    }

    /// Where the next row starts.
    pub closed spec fn position(&self) -> int {
        self.curr_index as int
    }

    /// The position lies within the buffer.
    pub open spec fn wf(&self) -> bool {
        0 <= self.position() <= self.buffer().len()
    }

    /// The texts of the rows not read yet.
    pub open spec fn remaining(&self) -> Seq<Seq<char>> {
        packed_texts(self.buffer().skip(self.position()))
    }

    /// Reads the next row: `None` once every row has been read.
    pub fn next(&mut self) -> (r: Option<&'a str>)
        requires
            old(self).wf(),
        ensures
            final(self).wf(),
            final(self).buffer() == old(self).buffer(),
            old(self).remaining().len() == 0 ==> r is None && final(self).remaining() == old(self).remaining(),
            old(self).remaining().len() > 0 ==> r is Some && r->Some_0@ == old(self).remaining()[0]
                && final(self).remaining() == old(self).remaining().drop_first(),
    {
        let data: &'a Vec<u8> = self.data;
        let start = self.curr_index;
        let ghost t = data@.skip(start as int);
        if start >= data.len() {
            proof {
                assert(t.len() == 0);
            }
            return None;
        }
        let mut index = start;
        while index < data.len() && data[index] != 0
            invariant
                start <= index <= data@.len(),
                start < data@.len(),
                forall|j: int| start <= j < index ==> data@[j] != 0,
            decreases data@.len() - index,
        {
            index = index + 1;
        }
        let ghost q = (index - start) as int;
        let bytes = vstd::slice::slice_subrange(data.as_slice(), start, index);
        proof {
            assert(bytes@ =~= t.take(q));
            if index < data.len() {
                lemma_seg_len(t, q);
                assert(t.skip(q + 1) =~= data@.skip(index + 1));
            } else {
                lemma_seg_len_props(t);
                if seg_len(t) < t.len() {
                    assert(t[seg_len(t) as int] == data@[start + seg_len(t)]);
                }
                assert(t =~= t.take(q));
                assert(data@.skip(index as int) =~= Seq::<u8>::empty());
            }
        }
        self.curr_index = if index < data.len() { index + 1 } else { index };
        proof {
            assert(rows_of(data@.skip(self.curr_index as int)) == rows_of(t).drop_first());
            assert(packed_texts(data@.skip(self.curr_index as int)) =~= packed_texts(t).drop_first());
        }
        match checked_utf8(bytes) {
            Some(s) => {
                proof {
                    vstd::utf8::encode_utf8_decode_utf8(s@);
                }
                Some(s)
            },
            None => {
                proof {
                    reveal_strlit("");
                }
                Some("")
            },
        }
    }
}

} // verus!
