//! Word-level layout of Cap'n Proto style messages: little-endian words,
//! struct and list pointers, and the position-independent encoding of a
//! tree of objects that the message codec is built on.
use vstd::prelude::*;
use vstd::bytes::*;
use vstd::arithmetic::div_mod::{lemma_fundamental_div_mod, lemma_fundamental_div_mod_converse};
use vstd::utf8::*;
use vstd::slice::*;
use super::codec::Error;
use crate::text::string_from_utf8;

verus! {

/// The eight little-endian bytes of a word.
pub open spec fn word_bytes(v: u64) -> Seq<u8> {
    spec_u64_to_le_bytes(v)
}

/// The word stored at word index `w` of a segment.
pub open spec fn word_at(seg: Seq<u8>, w: int) -> u64 {
    spec_u64_from_le_bytes(seg.subrange(8 * w, 8 * w + 8))
}

/// Number of whole words in a segment.
pub open spec fn seg_words(seg: Seq<u8>) -> int {
    seg.len() as int / 8
}

/// A sequence of words laid out as bytes.
pub open spec fn words_bytes(ws: Seq<u64>) -> Seq<u8>
    decreases ws.len(),
{
    if ws.len() == 0 {
        Seq::empty()
    } else {
        words_bytes(ws.drop_last()) + word_bytes(ws.last())
    }
}

pub proof fn lemma_word_bytes(v: u64)
    ensures
        word_bytes(v).len() == 8,
        spec_u64_from_le_bytes(word_bytes(v)) == v,
{
    lemma_auto_spec_u64_to_from_le_bytes();
}

/// A slice of a concatenation that lies within one of its parts.
pub proof fn lemma_subrange_add(a: Seq<u8>, b: Seq<u8>, i: int, j: int)
    requires
        0 <= i <= j <= a.len() + b.len(),
    ensures
        j <= a.len() ==> (a + b).subrange(i, j) == a.subrange(i, j),
        a.len() <= i ==> (a + b).subrange(i, j) == b.subrange(i - a.len(), j - a.len()),
{
    if j <= a.len() {
        assert((a + b).subrange(i, j) =~= a.subrange(i, j));
    }
    if a.len() <= i {
        assert((a + b).subrange(i, j) =~= b.subrange(i - a.len(), j - a.len()));
    }
}

/// A slice of a slice.
pub proof fn lemma_subrange_subrange(s: Seq<u8>, x: Seq<u8>, base: int, a: int, b: int)
    requires
        0 <= base,
        base + x.len() <= s.len(),
        s.subrange(base, base + x.len()) == x,
        0 <= a <= b <= x.len(),
    ensures
        s.subrange(base + a, base + b) == x.subrange(a, b),
{
    assert(s.subrange(base + a, base + b) =~= x.subrange(a, b)) by {
        assert forall|i: int| 0 <= i < b - a implies s.subrange(base + a, base + b)[i] == x.subrange(
            a,
            b,
        )[i] by {
            assert(s.subrange(base, base + x.len())[a + i] == x[a + i]);
        }
    }
}

pub proof fn lemma_words_bytes(ws: Seq<u64>, i: int)
    requires
        0 <= i < ws.len(),
    ensures
        words_bytes(ws).len() == 8 * ws.len(),
        words_bytes(ws).subrange(8 * i, 8 * i + 8) == word_bytes(ws[i]),
    decreases ws.len(),
{
    lemma_words_bytes_len(ws);
    lemma_word_bytes(ws.last());
    let pre = ws.drop_last();
    lemma_words_bytes_len(pre);
    if i < ws.len() - 1 {
        lemma_words_bytes(pre, i);
        lemma_subrange_add(words_bytes(pre), word_bytes(ws.last()), 8 * i, 8 * i + 8);
    } else {
        lemma_subrange_add(words_bytes(pre), word_bytes(ws.last()), 8 * i, 8 * i + 8);
        assert(word_bytes(ws.last()).subrange(0, 8) =~= word_bytes(ws.last()));
    }
}

pub proof fn lemma_words_bytes_len(ws: Seq<u64>)
    ensures
        words_bytes(ws).len() == 8 * ws.len(),
    decreases ws.len(),
{
    if ws.len() > 0 {
        lemma_words_bytes_len(ws.drop_last());
        lemma_word_bytes(ws.last());
    }
}

/// Reading the word at `w` of a segment whose bytes there are `word_bytes(v)`.
pub proof fn lemma_word_at(seg: Seq<u8>, w: int, v: u64)
    requires
        0 <= w,
        8 * w + 8 <= seg.len(),
        seg.subrange(8 * w, 8 * w + 8) == word_bytes(v),
    ensures
        word_at(seg, w) == v,
{
    lemma_word_bytes(v);
}

// ---------------------------------------------------------------------------
// Pointer words
// ---------------------------------------------------------------------------
/// A struct pointer: kind 0, signed offset in words, data and pointer section sizes.
pub open spec fn struct_ptr_val(off: int, d: int, p: int) -> int {
    off * 4 + (d + p * 0x10000) * 0x1_0000_0000
}

/// A list pointer: kind 1, signed offset, element size code, element (or word) count.
pub open spec fn list_ptr_val(off: int, esize: int, count: int) -> int {
    off * 4 + 1 + (esize + count * 8) * 0x1_0000_0000
}

pub open spec fn ptr_kind(v: u64) -> int {
    v as int % 4
}

pub open spec fn ptr_offset(v: u64) -> int {
    let o = (v as int % 0x1_0000_0000) / 4;
    if o >= 0x2000_0000 {
        o - 0x4000_0000
    } else {
        o
    }
}

pub open spec fn ptr_upper(v: u64) -> int {
    v as int / 0x1_0000_0000
}

pub open spec fn struct_data_words(v: u64) -> int {
    ptr_upper(v) % 0x10000
}

pub open spec fn struct_ptr_count(v: u64) -> int {
    ptr_upper(v) / 0x10000
}

pub open spec fn list_elem_size(v: u64) -> int {
    ptr_upper(v) % 8
}

pub open spec fn list_count(v: u64) -> int {
    ptr_upper(v) / 8
}

/// Element count held by the tag word of an inline-composite list.
pub open spec fn tag_count(v: u64) -> int {
    (v as int % 0x1_0000_0000) / 4
}

pub proof fn lemma_split_word(x: int, low: int, high: int)
    requires
        0 <= low < 0x1_0000_0000,
        0 <= high,
        x == low + high * 0x1_0000_0000,
    ensures
        x % 0x1_0000_0000 == low,
        x / 0x1_0000_0000 == high,
{
    lemma_fundamental_div_mod_converse(x, 0x1_0000_0000, high, low);
}

pub proof fn lemma_struct_ptr(off: int, d: int, p: int)
    requires
        0 <= off < 0x2000_0000,
        0 <= d < 0x10000,
        0 <= p < 0x10000,
    ensures
        0 < struct_ptr_val(off, d, p) + 1 <= 0x1_0000_0000_0000_0000,
        ({
            let v = struct_ptr_val(off, d, p) as u64;
            &&& v as int == struct_ptr_val(off, d, p)
            &&& ptr_kind(v) == 0
            &&& ptr_offset(v) == off
            &&& tag_count(v) == off
            &&& struct_data_words(v) == d
            &&& struct_ptr_count(v) == p
        }),
{
    let x = struct_ptr_val(off, d, p);
    let high = d + p * 0x10000;
    lemma_split_word(x, off * 4, high);
    lemma_fundamental_div_mod_converse(x, 4, off + high * 0x4000_0000, 0);
    lemma_fundamental_div_mod_converse(off * 4, 4, off, 0);
    lemma_fundamental_div_mod_converse(high, 0x10000, p, d);
}

pub proof fn lemma_list_ptr(off: int, esize: int, count: int)
    requires
        0 <= off < 0x2000_0000,
        0 <= esize < 8,
        0 <= count < 0x2000_0000,
    ensures
        0 < list_ptr_val(off, esize, count) + 1 <= 0x1_0000_0000_0000_0000,
        ({
            let v = list_ptr_val(off, esize, count) as u64;
            &&& v as int == list_ptr_val(off, esize, count)
            &&& v != 0
            &&& ptr_kind(v) == 1
            &&& ptr_offset(v) == off
            &&& list_elem_size(v) == esize
            &&& list_count(v) == count
        }),
{
    let x = list_ptr_val(off, esize, count);
    let high = esize + count * 8;
    lemma_split_word(x, off * 4 + 1, high);
    lemma_fundamental_div_mod_converse(x, 4, off + high * 0x4000_0000, 1);
    lemma_fundamental_div_mod_converse(off * 4 + 1, 4, off, 1);
    lemma_fundamental_div_mod_converse(high, 8, count, esize);
}


// ---------------------------------------------------------------------------
// Object trees and their encoding
// ---------------------------------------------------------------------------
/// The shape of a message below its root: a tree whose nodes are absent
/// values, byte lists, structs (data words and pointer children) and lists
/// of structs (data and pointer section sizes, element data words, and the
/// pointer children of all elements, element by element).
pub enum Obj {
    Null,
    Bytes(Seq<u8>),
    Struct(Seq<u64>, Seq<Obj>),
    List(nat, nat, Seq<Seq<u64>>, Seq<Obj>),
}

/// Zero bytes that pad a byte list of length `n` to whole words.
pub open spec fn pad_zeros(n: nat) -> Seq<u8> {
    Seq::new(((8 - n % 8) % 8) as nat, |i: int| 0u8)
}

/// Size in words of the encoding of an object.
pub open spec fn owords(o: Obj) -> int
    decreases o,
{
    match o {
        Obj::Null => 0,
        Obj::Bytes(b) => (b.len() as int + 7) / 8,
        Obj::Struct(data, kids) => data.len() + kids.len() + kids_words(kids),
        Obj::List(d, p, datas, kids) => 1 + datas.len() * (d + p) + kids_words(kids),
    }
}

/// Size in words of the encodings of a sequence of objects.
pub open spec fn kids_words(kids: Seq<Obj>) -> int
    decreases kids,
{
    if kids.len() == 0 {
        0
    } else {
        kids_words(kids.drop_last()) + owords(kids.last())
    }
}

/// The pointer word that refers to `kid` placed `off` words after the pointer's end.
pub open spec fn ptr_word(kid: Obj, off: int) -> u64 {
    match kid {
        Obj::Null => 0,
        Obj::Bytes(b) => list_ptr_val(off, 2, b.len() as int) as u64,
        Obj::Struct(data, kids) => struct_ptr_val(off, data.len() as int, kids.len() as int) as u64,
        Obj::List(d, p, datas, kids) => list_ptr_val(off, 7, (datas.len() * (d + p)) as int) as u64,
    }
}

/// Word `i` of the bodies of `n` structs that each have `d` data words and
/// `p` pointers, whose children follow the bodies in order.
pub open spec fn body_word(
    n: int,
    d: int,
    p: int,
    datas: Seq<Seq<u64>>,
    kids: Seq<Obj>,
    i: int,
) -> u64 {
    let j = i / (d + p);
    let r = i % (d + p);
    if r < d {
        datas[j][r]
    } else {
        let f = j * p + (r - d);
        ptr_word(kids[f], n * (d + p) + kids_words(kids.take(f)) - i - 1)
    }
}

pub open spec fn body(n: int, d: int, p: int, datas: Seq<Seq<u64>>, kids: Seq<Obj>) -> Seq<u64> {
    Seq::new((n * (d + p)) as nat, |i: int| body_word(n, d, p, datas, kids, i))
}

/// The word that heads a list of `n` structs of `d` data words and `p` pointers.
pub open spec fn tag_word(n: int, d: int, p: int) -> u64 {
    struct_ptr_val(n, d, p) as u64
}

/// Bytes of an object: bodies first, then the children, in canonical order.
pub open spec fn enc(o: Obj) -> Seq<u8>
    decreases o,
{
    match o {
        Obj::Null => Seq::empty(),
        Obj::Bytes(b) => b + pad_zeros(b.len()),
        Obj::Struct(data, kids) => words_bytes(
            body(1, data.len() as int, kids.len() as int, seq![data], kids),
        ) + enc_kids(kids),
        Obj::List(d, p, datas, kids) => word_bytes(tag_word(datas.len() as int, d as int, p as int))
            + words_bytes(body(datas.len() as int, d as int, p as int, datas, kids)) + enc_kids(kids),
    }
}

pub open spec fn enc_kids(kids: Seq<Obj>) -> Seq<u8>
    decreases kids,
{
    if kids.len() == 0 {
        Seq::empty()
    } else {
        enc_kids(kids.drop_last()) + enc(kids.last())
    }
}

/// Objects whose sizes fit the pointer fields that refer to them.
pub open spec fn wf(o: Obj) -> bool
    decreases o,
{
    match o {
        Obj::Null => true,
        Obj::Bytes(b) => b.len() < 0x2000_0000,
        Obj::Struct(data, kids) => data.len() < 0x10000 && kids.len() < 0x10000 && kids_wf(kids),
        Obj::List(d, p, datas, kids) => {
            &&& d < 0x10000
            &&& p < 0x10000
            &&& datas.len() * (d + p) < 0x2000_0000
            &&& datas.len() < 0x2000_0000
            &&& (datas.len() > 0 ==> d + p > 0)
            &&& kids.len() == datas.len() * p
            &&& forall|j: int| 0 <= j < datas.len() ==> #[trigger] datas[j].len() == d
            &&& kids_wf(kids)
        },
    }
}

pub open spec fn kids_wf(kids: Seq<Obj>) -> bool
    decreases kids,
{
    if kids.len() == 0 {
        true
    } else {
        kids_wf(kids.drop_last()) && wf(kids.last())
    }
}

pub proof fn lemma_pad(n: nat)
    ensures
        n + pad_zeros(n).len() == 8 * ((n + 7) / 8),
{
    let q: int = n as int / 8;
    let r: int = n as int % 8;
    lemma_fundamental_div_mod_converse(n as int, 8, q, r);
    if r == 0 {
        lemma_fundamental_div_mod_converse(n as int + 7, 8, q, 7);
    } else {
        lemma_fundamental_div_mod_converse(n as int + 7, 8, q + 1, r - 1);
    }
}

pub proof fn lemma_owords_nonneg(o: Obj)
    ensures
        owords(o) >= 0,
    decreases o,
{
    match o {
        Obj::Struct(data, kids) => lemma_kids_words_nonneg(kids),
        Obj::List(d, p, datas, kids) => {
            lemma_kids_words_nonneg(kids);
            assert(datas.len() * (d + p) >= 0) by (nonlinear_arith);
        },
        _ => {},
    }
}

pub proof fn lemma_kids_words_nonneg(kids: Seq<Obj>)
    ensures
        kids_words(kids) >= 0,
    decreases kids,
{
    if kids.len() > 0 {
        lemma_kids_words_nonneg(kids.drop_last());
        lemma_owords_nonneg(kids.last());
    }
}

pub proof fn lemma_enc_len(o: Obj)
    ensures
        enc(o).len() == 8 * owords(o),
    decreases o,
{
    match o {
        Obj::Null => {},
        Obj::Bytes(b) => lemma_pad(b.len()),
        Obj::Struct(data, kids) => {
            let bd = body(1, data.len() as int, kids.len() as int, seq![data], kids);
            lemma_words_bytes_len(bd);
            lemma_enc_kids_len(kids);
        },
        Obj::List(d, p, datas, kids) => {
            assert(datas.len() * (d + p) >= 0) by (nonlinear_arith);
            let bd = body(datas.len() as int, d as int, p as int, datas, kids);
            lemma_words_bytes_len(bd);
            lemma_word_bytes(tag_word(datas.len() as int, d as int, p as int));
            lemma_enc_kids_len(kids);
        },
    }
}

pub proof fn lemma_enc_kids_len(kids: Seq<Obj>)
    ensures
        enc_kids(kids).len() == 8 * kids_words(kids),
    decreases kids,
{
    if kids.len() > 0 {
        lemma_enc_kids_len(kids.drop_last());
        lemma_enc_len(kids.last());
    }
}

/// Where child `f` lies among the encodings of its siblings.
pub proof fn lemma_enc_kids_at(kids: Seq<Obj>, f: int)
    requires
        0 <= f < kids.len(),
    ensures
        0 <= kids_words(kids.take(f)),
        kids_words(kids.take(f)) + owords(kids[f]) <= kids_words(kids),
        enc_kids(kids).len() == 8 * kids_words(kids),
        enc_kids(kids).subrange(
            8 * kids_words(kids.take(f)),
            8 * kids_words(kids.take(f)) + 8 * owords(kids[f]),
        ) == enc(kids[f]),
    decreases kids.len(),
{
    lemma_enc_kids_len(kids);
    let pre = kids.drop_last();
    lemma_enc_kids_len(pre);
    lemma_enc_len(kids.last());
    lemma_kids_words_nonneg(pre);
    lemma_owords_nonneg(kids.last());
    if f == kids.len() - 1 {
        assert(kids.take(f) =~= pre);
        lemma_subrange_add(
            enc_kids(pre),
            enc(kids.last()),
            8 * kids_words(pre),
            8 * kids_words(pre) + 8 * owords(kids.last()),
        );
        assert(enc(kids.last()).subrange(0, 8 * owords(kids.last())) =~= enc(kids.last()));
    } else {
        lemma_enc_kids_at(pre, f);
        assert(pre.take(f) =~= kids.take(f));
        lemma_enc_len(kids[f]);
        lemma_subrange_add(
            enc_kids(pre),
            enc(kids.last()),
            8 * kids_words(kids.take(f)),
            8 * kids_words(kids.take(f)) + 8 * owords(kids[f]),
        );
    }
}

pub proof fn lemma_kids_wf_at(kids: Seq<Obj>, f: int)
    requires
        kids_wf(kids),
        0 <= f < kids.len(),
    ensures
        wf(kids[f]),
    decreases kids.len(),
{
    if f < kids.len() - 1 {
        lemma_kids_wf_at(kids.drop_last(), f);
    }
}


/// Word `i` of a body block, as laid out in bytes.
pub proof fn lemma_body_at(n: int, d: int, p: int, datas: Seq<Seq<u64>>, kids: Seq<Obj>, i: int)
    requires
        0 <= i < n * (d + p),
    ensures
        words_bytes(body(n, d, p, datas, kids)).len() == 8 * (n * (d + p)),
        words_bytes(body(n, d, p, datas, kids)).subrange(8 * i, 8 * i + 8) == word_bytes(
            body_word(n, d, p, datas, kids, i),
        ),
{
    let bd = body(n, d, p, datas, kids);
    lemma_words_bytes(bd, i);
}

/// Data word `i` of an encoded struct found at word `base` of a segment.
pub proof fn lemma_struct_data(seg: Seq<u8>, base: int, data: Seq<u64>, kids: Seq<Obj>, i: int)
    requires
        0 <= base,
        0 <= i < data.len(),
        8 * base + 8 * owords(Obj::Struct(data, kids)) <= seg.len(),
        seg.subrange(8 * base, 8 * base + 8 * owords(Obj::Struct(data, kids))) == enc(
            Obj::Struct(data, kids),
        ),
    ensures
        word_at(seg, base + i) == data[i],
{
    let o = Obj::Struct(data, kids);
    let d = data.len() as int;
    let p = kids.len() as int;
    lemma_enc_len(o);
    lemma_enc_kids_len(kids);
    let bd = body(1, d, p, seq![data], kids);
    lemma_body_at(1, d, p, seq![data], kids, i);
    lemma_fundamental_div_mod_converse(i, d + p, 0, i);
    lemma_subrange_add(words_bytes(bd), enc_kids(kids), 8 * i, 8 * i + 8);
    lemma_subrange_subrange(seg, enc(o), 8 * base, 8 * i, 8 * i + 8);
    lemma_word_at(seg, base + i, data[i]);
}

/// Pointer `k` of an encoded struct found at word `base`, and the child it refers to.
#[verifier::spinoff_prover]
pub proof fn lemma_struct_kid(seg: Seq<u8>, base: int, data: Seq<u64>, kids: Seq<Obj>, k: int)
    requires
        0 <= base,
        0 <= k < kids.len(),
        8 * base + 8 * owords(Obj::Struct(data, kids)) <= seg.len(),
        seg.subrange(8 * base, 8 * base + 8 * owords(Obj::Struct(data, kids))) == enc(
            Obj::Struct(data, kids),
        ),
    ensures
        ({
            let d = data.len() as int;
            let p = kids.len() as int;
            let kw = kids_words(kids.take(k));
            let t = base + d + p + kw;
            &&& 0 <= kw
            &&& word_at(seg, base + d + k) == ptr_word(kids[k], p - k - 1 + kw)
            &&& t + owords(kids[k]) <= base + owords(Obj::Struct(data, kids))
            &&& seg.subrange(8 * t, 8 * t + 8 * owords(kids[k])) == enc(kids[k])
        }),
{
    let o = Obj::Struct(data, kids);
    let d = data.len() as int;
    let p = kids.len() as int;
    let kw = kids_words(kids.take(k));
    lemma_enc_len(o);
    lemma_enc_kids_at(kids, k);
    let bd = body(1, d, p, seq![data], kids);
    let i = d + k;
    lemma_body_at(1, d, p, seq![data], kids, i);
    lemma_fundamental_div_mod_converse(i, d + p, 0, i);
    lemma_subrange_add(words_bytes(bd), enc_kids(kids), 8 * i, 8 * i + 8);
    lemma_subrange_subrange(seg, enc(o), 8 * base, 8 * i, 8 * i + 8);
    lemma_word_at(seg, base + i, body_word(1, d, p, seq![data], kids, i));
    let t = base + d + p + kw;
    let ko = 8 * (d + p) + 8 * kw;
    lemma_owords_nonneg(kids[k]);
    lemma_subrange_add(words_bytes(bd), enc_kids(kids), ko, ko + 8 * owords(kids[k]));
    lemma_subrange_subrange(seg, enc(o), 8 * base, ko, ko + 8 * owords(kids[k]));
}

/// The tag word of an encoded list found at word `base`.
pub proof fn lemma_list_tag(seg: Seq<u8>, base: int, o: Obj)
    requires
        o is List,
        0 <= base,
        8 * base + 8 * owords(o) <= seg.len(),
        seg.subrange(8 * base, 8 * base + 8 * owords(o)) == enc(o),
    ensures
        word_at(seg, base) == tag_word(o->List_2.len() as int, o->List_0 as int, o->List_1 as int),
{
    let d = o->List_0;
    let p = o->List_1;
    let datas = o->List_2;
    let kids = o->List_3;
    assert(o == Obj::List(d, p, datas, kids));
    let n = datas.len() as int;
    lemma_enc_len(o);
    let tw = word_bytes(tag_word(n, d as int, p as int));
    let bd = body(n, d as int, p as int, datas, kids);
    lemma_word_bytes(tag_word(n, d as int, p as int));
    lemma_words_bytes_len(bd);
    lemma_subrange_add(tw + words_bytes(bd), enc_kids(kids), 0, 8);
    lemma_subrange_add(tw, words_bytes(bd), 0, 8);
    assert(tw.subrange(0, 8) =~= tw);
    lemma_subrange_subrange(seg, enc(o), 8 * base, 0, 8);
    lemma_word_at(seg, base, tag_word(n, d as int, p as int));
}

/// Data word `i` of element `j` of an encoded list found at word `base`.
pub proof fn lemma_list_data(seg: Seq<u8>, base: int, o: Obj, j: int, i: int)
    requires
        o is List,
        0 <= base,
        0 <= j < o->List_2.len(),
        0 <= i < o->List_0,
        8 * base + 8 * owords(o) <= seg.len(),
        seg.subrange(8 * base, 8 * base + 8 * owords(o)) == enc(o),
    ensures
        word_at(seg, base + 1 + j * (o->List_0 + o->List_1) + i) == o->List_2[j][i],
{
    let d = o->List_0;
    let p = o->List_1;
    let datas = o->List_2;
    let kids = o->List_3;
    assert(o == Obj::List(d, p, datas, kids));
    let n = datas.len() as int;
    let w = (d + p) as int;
    lemma_enc_len(o);
    let tw = word_bytes(tag_word(n, d as int, p as int));
    lemma_word_bytes(tag_word(n, d as int, p as int));
    let bd = body(n, d as int, p as int, datas, kids);
    let x = j * w + i;
    assert(0 <= x < n * w) by (nonlinear_arith)
        requires
            0 <= j < n,
            0 <= i < d,
            p >= 0,
            w == d + p,
            x == j * w + i,
    ;
    lemma_body_at(n, d as int, p as int, datas, kids, x);
    lemma_fundamental_div_mod_converse(x, w, j, i);
    lemma_subrange_add(tw + words_bytes(bd), enc_kids(kids), 8 + 8 * x, 16 + 8 * x);
    lemma_subrange_add(tw, words_bytes(bd), 8 + 8 * x, 16 + 8 * x);
    lemma_subrange_subrange(seg, enc(o), 8 * base, 8 + 8 * x, 16 + 8 * x);
    lemma_word_at(seg, base + 1 + x, datas[j][i]);
}

/// Pointer `k` of element `j` of an encoded list found at word `base`, and its child.
pub proof fn lemma_list_kid(seg: Seq<u8>, base: int, o: Obj, j: int, k: int)
    requires
        o is List,
        wf(o),
        0 <= base,
        0 <= j < o->List_2.len(),
        0 <= k < o->List_1,
        8 * base + 8 * owords(o) <= seg.len(),
        seg.subrange(8 * base, 8 * base + 8 * owords(o)) == enc(o),
    ensures
        ({
            let d = o->List_0 as int;
            let p = o->List_1 as int;
            let n = o->List_2.len() as int;
            let kids = o->List_3;
            let f = j * p + k;
            let kw = kids_words(kids.take(f));
            let i = j * (d + p) + d + k;
            let t = base + 1 + n * (d + p) + kw;
            &&& 0 <= f < kids.len()
            &&& 0 <= kw
            &&& 0 <= i < n * (d + p)
            &&& word_at(seg, base + 1 + i) == ptr_word(kids[f], n * (d + p) + kw - i - 1)
            &&& t + owords(kids[f]) <= base + owords(o)
            &&& seg.subrange(8 * t, 8 * t + 8 * owords(kids[f])) == enc(kids[f])
        }),
{
    let d = o->List_0;
    let p = o->List_1;
    let datas = o->List_2;
    let kids = o->List_3;
    assert(o == Obj::List(d, p, datas, kids));
    let n = datas.len() as int;
    let w = (d + p) as int;
    let f = j * p + k;
    let x = j * w + d + k;
    assert(0 <= x < n * w && 0 <= f < n * p) by (nonlinear_arith)
        requires
            0 <= j < n,
            0 <= k < p,
            w == d + p,
            x == j * w + d + k,
            f == j * p + k,
            d >= 0,
    ;
    lemma_enc_len(o);
    lemma_enc_kids_at(kids, f);
    let tw = word_bytes(tag_word(n, d as int, p as int));
    lemma_word_bytes(tag_word(n, d as int, p as int));
    let bd = body(n, d as int, p as int, datas, kids);
    lemma_body_at(n, d as int, p as int, datas, kids, x);
    lemma_fundamental_div_mod_converse(x, w, j, d + k);
    lemma_subrange_add(tw + words_bytes(bd), enc_kids(kids), 8 + 8 * x, 16 + 8 * x);
    lemma_subrange_add(tw, words_bytes(bd), 8 + 8 * x, 16 + 8 * x);
    lemma_subrange_subrange(seg, enc(o), 8 * base, 8 + 8 * x, 16 + 8 * x);
    lemma_word_at(seg, base + 1 + x, body_word(n, d as int, p as int, datas, kids, x));
    let kw = kids_words(kids.take(f));
    let ko = 8 + 8 * (n * w) + 8 * kw;
    lemma_owords_nonneg(kids[f]);
    lemma_subrange_add(tw + words_bytes(bd), enc_kids(kids), ko, ko + 8 * owords(kids[f]));
    lemma_subrange_subrange(seg, enc(o), 8 * base, ko, ko + 8 * owords(kids[f]));
}


// ---------------------------------------------------------------------------
// Reading
// ---------------------------------------------------------------------------
/// A struct found in a segment: first word, data words, pointers.
#[derive(Clone, Copy)]
pub struct Loc {
    pub start: usize,
    pub data: usize,
    pub ptrs: usize,
}

/// A list of structs found in a segment: first element, element count,
/// data words and pointers of each element.
#[derive(Clone, Copy)]
pub struct ListLoc {
    pub first: usize,
    pub count: usize,
    pub data: usize,
    pub ptrs: usize,
}

/// Where a default (absent) struct reads from.
pub open spec fn null_loc() -> Loc {
    Loc { start: 0, data: 0, ptrs: 0 }
}

pub open spec fn loc_valid(seg: Seq<u8>, l: Loc) -> bool {
    l.start + l.data + l.ptrs <= seg_words(seg)
}

/// A pointer position that names a word of the segment, or no pointer at all.
pub open spec fn at_valid(seg: Seq<u8>, at: Option<usize>) -> bool {
    at matches Some(w) ==> w < seg_words(seg)
}

/// Data word `i` of a struct; zero where the struct has no such word.
pub open spec fn field_word(seg: Seq<u8>, l: Loc, i: int) -> u64 {
    if i < l.data {
        word_at(seg, l.start + i)
    } else {
        0
    }
}

/// The 16-bit discriminant at the start of a struct's data section.
pub open spec fn field_disc(seg: Seq<u8>, l: Loc) -> u16 {
    (field_word(seg, l, 0) % 0x10000) as u16
}

/// Pointer `k` of a struct; none where the struct has no such pointer.
pub open spec fn field_ptr(l: Loc, k: int) -> Option<usize> {
    if k < l.ptrs {
        Some((l.start + l.data + k) as usize)
    } else {
        None
    }
}

/// Element `j` of a list of structs.
pub open spec fn elem_loc(l: ListLoc, j: int) -> Loc {
    Loc { start: (l.first + j * (l.data + l.ptrs)) as usize, data: l.data, ptrs: l.ptrs }
}

/// The ends, in words, of the segments of a message whose segments lie one
/// after the other in `seg`: at least one segment, in order, the last ending
/// where `seg` does.
pub open spec fn ends_wf(seg: Seq<u8>, ends: Seq<usize>) -> bool {
    &&& ends.len() >= 1
    &&& forall|i: int, j: int| 0 <= i <= j < ends.len() ==> ends[i] <= ends[j]
    &&& ends.last() == seg_words(seg)
}

/// The segment ends of a message of one segment, `seg`.
pub open spec fn single(seg: Seq<u8>) -> Seq<usize> {
    seq![seg_words(seg) as usize]
}

/// First word of segment `i`.
pub open spec fn seg_start(ends: Seq<usize>, i: int) -> int {
    if i <= 0 {
        0
    } else {
        ends[i - 1] as int
    }
}

/// The segment, from segment `i` on, that holds word `w`.
pub open spec fn seg_index(ends: Seq<usize>, w: int, i: int) -> int
    decreases ends.len() - i,
{
    if i >= ends.len() || w < ends[i] {
        i
    } else {
        seg_index(ends, w, i + 1)
    }
}

/// Segment of a far pointer's landing pad.
pub open spec fn far_segment(v: u64) -> int {
    v as int / 0x1_0000_0000
}

/// Word of a far pointer's landing pad within its segment.
pub open spec fn far_position(v: u64) -> int {
    (v as int % 0x1_0000_0000) / 8
}

/// Whether a far pointer's landing pad is itself a far pointer and a tag.
pub open spec fn far_double(v: u64) -> bool {
    (v as int % 8) / 4 == 1
}

/// A pointer at word `w`, resolved through any far pointer: the word that
/// describes the object, where the object starts, and the bounds of the
/// segment it must lie in.
pub open spec fn resolve(seg: Seq<u8>, ends: Seq<usize>, w: int) -> Result<(u64, int, int, int), Error> {
    let v = word_at(seg, w);
    if ptr_kind(v) != 2 {
        let i = seg_index(ends, w, 0);
        Ok((v, w + 1 + ptr_offset(v), seg_start(ends, i), ends[i] as int))
    } else {
        let sid = far_segment(v);
        if sid >= ends.len() {
            Err(Error::Capnp)
        } else {
            let pad = seg_start(ends, sid) + far_position(v);
            if pad + (if far_double(v) { 2int } else { 1int }) > ends[sid] {
                Err(Error::Capnp)
            } else if !far_double(v) {
                let p = word_at(seg, pad);
                Ok((p, pad + 1 + ptr_offset(p), seg_start(ends, sid), ends[sid] as int))
            } else {
                let f = word_at(seg, pad);
                let sid2 = far_segment(f);
                if sid2 >= ends.len() {
                    Err(Error::Capnp)
                } else {
                    Ok(
                        (
                            word_at(seg, pad + 1),
                            seg_start(ends, sid2) + far_position(f),
                            seg_start(ends, sid2),
                            ends[sid2] as int,
                        ),
                    )
                }
            }
        }
    }
}

/// Follows a struct pointer; a null or absent pointer reads as the default struct.
pub open spec fn read_struct(seg: Seq<u8>, ends: Seq<usize>, at: Option<usize>) -> Result<Loc, Error> {
    match at {
        None => Ok(null_loc()),
        Some(w) => {
            if word_at(seg, w as int) == 0 {
                Ok(null_loc())
            } else {
                match resolve(seg, ends, w as int) {
                    Err(e) => Err(e),
                    Ok((v, t, lo, hi)) => {
                        let d = struct_data_words(v);
                        let p = struct_ptr_count(v);
                        if ptr_kind(v) != 0 || t < lo || t + d + p > hi {
                            Err(Error::Capnp)
                        } else {
                            Ok(Loc { start: t as usize, data: d as usize, ptrs: p as usize })
                        }
                    },
                }
            }
        },
    }
}

/// Where the bytes of a byte list start and how many there are.
pub open spec fn read_byte_list(seg: Seq<u8>, ends: Seq<usize>, at: Option<usize>) -> Result<(int, int), Error> {
    match at {
        None => Ok((0, 0)),
        Some(w) => {
            if word_at(seg, w as int) == 0 {
                Ok((0, 0))
            } else {
                match resolve(seg, ends, w as int) {
                    Err(e) => Err(e),
                    Ok((v, t, lo, hi)) => {
                        let n = list_count(v);
                        if ptr_kind(v) != 1 || list_elem_size(v) != 2 || t < lo || t + (n + 7) / 8
                            > hi {
                            Err(Error::Capnp)
                        } else {
                            Ok((8 * t, n))
                        }
                    },
                }
            }
        },
    }
}

/// Follows a pointer to bytes; a null or absent pointer reads as no bytes.
pub open spec fn read_data(seg: Seq<u8>, ends: Seq<usize>, at: Option<usize>) -> Result<Seq<u8>, Error> {
    match read_byte_list(seg, ends, at) {
        Err(e) => Err(e),
        Ok((b, n)) => Ok(seg.subrange(b, b + n)),
    }
}

/// Follows a pointer to NUL-terminated UTF-8 text; a null or absent pointer
/// reads as the empty text.
pub open spec fn read_text(seg: Seq<u8>, ends: Seq<usize>, at: Option<usize>) -> Result<Seq<char>, Error> {
    if at is None || word_at(seg, at->0 as int) == 0 {
        Ok(Seq::empty())
    } else {
        match read_byte_list(seg, ends, at) {
            Err(e) => Err(e),
            Ok((b, n)) => if n == 0 || seg[b + n - 1] != 0 {
                Err(Error::Capnp)
            } else if !valid_utf8(seg.subrange(b, b + n - 1)) {
                Err(Error::Utf8)
            } else {
                Ok(decode_utf8(seg.subrange(b, b + n - 1)))
            },
        }
    }
}

/// Bits of data in each element of a list that is not inline-composite,
/// by its element size.
pub open spec fn elem_bits(es: int) -> int {
    if es == 2 {
        8
    } else if es == 3 {
        16
    } else if es == 4 {
        32
    } else if es == 5 || es == 6 {
        64
    } else {
        0
    }
}

/// Words that `n` elements of size `es` (not inline-composite) take.
pub open spec fn plain_list_words(es: int, n: int) -> int {
    (n * elem_bits(es) + 63) / 64
}

/// Follows a pointer to a list of structs; a null or absent pointer reads as
/// the empty list. A list of primitives or pointers reads as a list of
/// structs whose only field is the element: a 64-bit element as the first
/// data word, a pointer as the first pointer, narrower elements as no field.
/// Only a list of bits cannot be read so.
pub open spec fn read_struct_list(seg: Seq<u8>, ends: Seq<usize>, at: Option<usize>) -> Result<ListLoc, Error> {
    match at {
        None => Ok(ListLoc { first: 0, count: 0, data: 0, ptrs: 0 }),
        Some(w) => {
            if word_at(seg, w as int) == 0 {
                Ok(ListLoc { first: 0, count: 0, data: 0, ptrs: 0 })
            } else {
                match resolve(seg, ends, w as int) {
                    Err(e) => Err(e),
                    Ok((v, t, lo, hi)) => {
                        let es = list_elem_size(v);
                        let wc = list_count(v);
                        if ptr_kind(v) != 1 || es == 1 {
                            Err(Error::Capnp)
                        } else if es == 7 {
                            if t < lo || t + 1 + wc > hi {
                                Err(Error::Capnp)
                            } else {
                                let tag = word_at(seg, t);
                                let n = tag_count(tag);
                                let d = struct_data_words(tag);
                                let p = struct_ptr_count(tag);
                                if ptr_kind(tag) != 0 || n * (d + p) > wc {
                                    Err(Error::Capnp)
                                } else {
                                    Ok(ListLoc { first: (t + 1) as usize, count: n as usize, data: d as usize, ptrs: p as usize })
                                }
                            }
                        } else if t < lo || t + plain_list_words(es, wc) > hi {
                            Err(Error::Capnp)
                        } else {
                            Ok(
                                ListLoc {
                                    first: t as usize,
                                    count: wc as usize,
                                    data: if es == 5 { 1usize } else { 0usize },
                                    ptrs: if es == 6 { 1usize } else { 0usize },
                                },
                            )
                        }
                    },
                }
            }
        },
    }
}

/// Words of landing pad that following the pointer at `w` reads.
pub open spec fn pad_words(seg: Seq<u8>, w: int) -> int {
    let v = word_at(seg, w);
    if ptr_kind(v) != 2 {
        0
    } else if far_double(v) {
        2
    } else {
        1
    }
}

/// Words a reader charges against its read limit for following a struct
/// pointer: its landing pad and the struct.
pub open spec fn struct_cost(seg: Seq<u8>, ends: Seq<usize>, at: Option<usize>) -> int {
    match at {
        None => 0,
        Some(w) => if word_at(seg, w as int) == 0 {
            0
        } else {
            match read_struct(seg, ends, at) {
                Ok(l) => pad_words(seg, w as int) + l.data + l.ptrs,
                Err(_) => 0,
            }
        },
    }
}

/// Words a reader charges for following a pointer to bytes.
pub open spec fn bytes_cost(seg: Seq<u8>, ends: Seq<usize>, at: Option<usize>) -> int {
    match at {
        None => 0,
        Some(w) => if word_at(seg, w as int) == 0 {
            0
        } else {
            match read_byte_list(seg, ends, at) {
                Ok((b, n)) => pad_words(seg, w as int) + (n + 7) / 8,
                Err(_) => 0,
            }
        },
    }
}

/// Words a reader charges for following a pointer to a list of structs:
/// its landing pad and the list's words, and one word more for each element
/// of a list whose elements take no words.
pub open spec fn list_cost(seg: Seq<u8>, ends: Seq<usize>, at: Option<usize>) -> int {
    match at {
        None => 0,
        Some(w) => if word_at(seg, w as int) == 0 {
            0
        } else {
            match resolve(seg, ends, w as int) {
                Err(_) => 0,
                Ok((v, t, lo, hi)) => {
                    let es = list_elem_size(v);
                    let wc = list_count(v);
                    let tag = word_at(seg, t);
                    pad_words(seg, w as int) + if es == 7 {
                        wc + 1 + if struct_data_words(tag) + struct_ptr_count(tag) == 0 {
                            tag_count(tag)
                        } else {
                            0
                        }
                    } else {
                        plain_list_words(es, wc) + if es == 0 {
                            wc
                        } else {
                            0
                        }
                    }
                },
            }
        },
    }
}

/// A read that charges `cost` words against a read limit of `budget`: what
/// it found and what is left of the limit, or a failure when the limit is
/// exceeded.
pub open spec fn charged<X>(r: Result<X, Error>, cost: int, budget: int) -> Result<(X, int), Error> {
    match r {
        Err(e) => Err(e),
        Ok(x) => if cost > budget {
            Err(Error::Capnp)
        } else {
            Ok((x, budget - cost))
        },
    }
}

/// Follows a struct pointer within a read limit.
pub open spec fn take_struct(seg: Seq<u8>, ends: Seq<usize>, at: Option<usize>, budget: int) -> Result<(Loc, int), Error> {
    charged(read_struct(seg, ends, at), struct_cost(seg, ends, at), budget)
}

/// Follows a pointer to bytes within a read limit.
pub open spec fn take_data(seg: Seq<u8>, ends: Seq<usize>, at: Option<usize>, budget: int) -> Result<(Seq<u8>, int), Error> {
    charged(read_data(seg, ends, at), bytes_cost(seg, ends, at), budget)
}

/// Follows a pointer to a list of structs within a read limit.
pub open spec fn take_list(seg: Seq<u8>, ends: Seq<usize>, at: Option<usize>, budget: int) -> Result<(ListLoc, int), Error> {
    charged(read_struct_list(seg, ends, at), list_cost(seg, ends, at), budget)
}

/// Follows a pointer to text within a read limit: the words are charged
/// before the text is checked.
pub open spec fn take_text(seg: Seq<u8>, ends: Seq<usize>, at: Option<usize>, budget: int) -> Result<(Seq<char>, int), Error> {
    match read_byte_list(seg, ends, at) {
        Err(e) => Err(e),
        Ok(_) => if bytes_cost(seg, ends, at) > budget {
            Err(Error::Capnp)
        } else {
            match read_text(seg, ends, at) {
                Err(e) => Err(e),
                Ok(t) => Ok((t, budget - bytes_cost(seg, ends, at))),
            }
        },
    }
}

/// A word within segment `k` is found in segment `k`, searching from any
/// earlier segment.
pub proof fn lemma_seg_index_at(ends: Seq<usize>, w: int, i: int, k: int)
    requires
        forall|a: int, b: int| 0 <= a <= b < ends.len() ==> ends[a] <= ends[b],
        0 <= i <= k < ends.len(),
        (if k == 0 { 0int } else { ends[k - 1] as int }) <= w < ends[k],
    ensures
        seg_index(ends, w, i) == k,
    decreases k - i,
{
    if i < k {
        assert(ends[i] <= ends[k - 1]);
        lemma_seg_index_at(ends, w, i + 1, k);
    }
}

/// Following a single far pointer reads exactly what following its landing
/// pad reads, and the landing pad is the word at the position that the far
/// pointer gives (its bits 3 to 31) within the segment it names (its upper
/// 32 bits), wherever in that segment the writer put it.
pub proof fn lemma_single_far(seg: Seq<u8>, ends: Seq<usize>, w: int)
    requires
        ends_wf(seg, ends),
        seg.len() <= usize::MAX,
        0 <= w < seg_words(seg),
        word_at(seg, w) % 8 == 2,
        word_at(seg, w) / 0x1_0000_0000 < ends.len(),
        ({
            let v = word_at(seg, w);
            let sid = v / 0x1_0000_0000;
            let pad = (if sid == 0 { 0int } else { ends[sid - 1] as int }) + (v % 0x1_0000_0000) / 8;
            &&& pad < ends[sid as int]
            &&& word_at(seg, pad) != 0
            &&& word_at(seg, pad) % 4 != 2
        }),
    ensures
        ({
            let v = word_at(seg, w);
            let sid = v / 0x1_0000_0000;
            let pad = (if sid == 0 { 0int } else { ends[sid - 1] as int }) + (v % 0x1_0000_0000) / 8;
            &&& read_struct(seg, ends, Some(w as usize)) == read_struct(seg, ends, Some(pad as usize))
            &&& read_byte_list(seg, ends, Some(w as usize)) == read_byte_list(seg, ends, Some(pad as usize))
            &&& read_struct_list(seg, ends, Some(w as usize)) == read_struct_list(seg, ends, Some(pad as usize))
            &&& resolve(seg, ends, w) == resolve(seg, ends, pad)
        }),
{
    let v = word_at(seg, w);
    let sid = v / 0x1_0000_0000;
    let pad = (if sid == 0 { 0int } else { ends[sid - 1] as int }) + (v % 0x1_0000_0000) / 8;
    assert(sid <= u32::MAX) by {
        assert(v <= u64::MAX);
    }
    assert(ends[sid as int] <= ends.last());
    if sid > 0 {
        assert(ends[sid - 1] <= ends[sid as int]);
    }
    assert(seg_words(seg) <= usize::MAX) by {
        lemma_fundamental_div_mod(seg.len() as int, 8);
    }
    lemma_seg_index_at(ends, pad, 0, sid as int);
    assert(ptr_kind(v) == 2);
    assert(!far_double(v));
    assert(far_segment(v) == sid);
    assert(far_position(v) == (v % 0x1_0000_0000) / 8);
    assert(seg_start(ends, sid as int) + far_position(v) == pad);
    assert(word_at(seg, (pad as usize) as int) == word_at(seg, pad));
}

/// In a message of one segment, every word lies in that segment.
pub proof fn lemma_single(seg: Seq<u8>, w: int)
    requires
        0 <= w < seg_words(seg),
        seg.len() <= usize::MAX,
    ensures
        seg_index(single(seg), w, 0) == 0,
        seg_start(single(seg), 0) == 0,
        single(seg)[0] as int == seg_words(seg),
        ends_wf(seg, single(seg)),
{
    assert(seg_words(seg) <= usize::MAX) by {
        lemma_fundamental_div_mod(seg.len() as int, 8);
    }
}

pub proof fn lemma_words_within(len: int, x: int)
    requires
        0 <= x,
        8 * x <= len,
    ensures
        x <= len / 8,
{
    lemma_fundamental_div_mod_converse(len, 8, len / 8, len % 8);
}

/// A pointer to an encoded struct reads back as that struct.
pub proof fn lemma_read_struct(seg: Seq<u8>, w: usize, kid: Obj, off: int)
    requires
        kid is Struct,
        wf(kid),
        seg.len() <= usize::MAX,
        0 <= off < 0x2000_0000,
        8 * w + 8 <= seg.len(),
        word_at(seg, w as int) == ptr_word(kid, off),
        8 * (w + 1 + off) + 8 * owords(kid) <= seg.len(),
    ensures
        read_struct(seg, single(seg), Some(w)) matches Ok(l) && {
            &&& l.data == kid->Struct_0.len()
            &&& l.ptrs == kid->Struct_1.len()
            &&& (l.data + l.ptrs > 0 ==> l.start == w + 1 + off)
            &&& loc_valid(seg, l)
        },
        struct_cost(seg, single(seg), Some(w)) == kid->Struct_0.len() + kid->Struct_1.len(),
{
    lemma_words_within(seg.len() as int, w + 1);
    lemma_single(seg, w as int);
    let data = kid->Struct_0;
    let kids = kid->Struct_1;
    lemma_struct_ptr(off, data.len() as int, kids.len() as int);
    lemma_kids_words_nonneg(kids);
    let v = word_at(seg, w as int);
    if data.len() + kids.len() > 0 {
        assert(v != 0);
    }
    lemma_words_within(seg.len() as int, w + 1 + off + owords(kid));
    lemma_words_within(seg.len() as int, w + 1);
}

/// A pointer to encoded bytes reads back as those bytes.
pub proof fn lemma_read_data(seg: Seq<u8>, w: usize, b: Seq<u8>, off: int)
    requires
        seg.len() <= usize::MAX,
        wf(Obj::Bytes(b)),
        0 <= w,
        0 <= off < 0x2000_0000,
        8 * w + 8 <= seg.len(),
        word_at(seg, w as int) == ptr_word(Obj::Bytes(b), off),
        8 * (w + 1 + off) + 8 * owords(Obj::Bytes(b)) <= seg.len(),
        seg.subrange(8 * (w + 1 + off), 8 * (w + 1 + off) + 8 * owords(Obj::Bytes(b))) == enc(
            Obj::Bytes(b),
        ),
    ensures
        read_byte_list(seg, single(seg), Some(w)) == Ok::<(int, int), Error>((8 * (w + 1 + off), b.len() as int)),
        read_data(seg, single(seg), Some(w)) == Ok::<Seq<u8>, Error>(b),
        bytes_cost(seg, single(seg), Some(w)) == owords(Obj::Bytes(b)),
{
    lemma_words_within(seg.len() as int, w + 1);
    lemma_single(seg, w as int);
    let t = w + 1 + off;
    lemma_list_ptr(off, 2, b.len() as int);
    lemma_enc_len(Obj::Bytes(b));
    lemma_words_within(seg.len() as int, t + owords(Obj::Bytes(b)));
    lemma_subrange_subrange(seg, enc(Obj::Bytes(b)), 8 * t, 0, b.len() as int);
    lemma_subrange_add(b, pad_zeros(b.len()), 0, b.len() as int);
    assert(b.subrange(0, b.len() as int) =~= b);
}

/// The bytes that encode a text: its UTF-8 bytes and a NUL.
pub open spec fn text_bytes(s: Seq<char>) -> Seq<u8> {
    encode_utf8(s).push(0u8)
}

/// A pointer to an encoded text reads back as that text.
pub proof fn lemma_read_text(seg: Seq<u8>, w: usize, s: Seq<char>, off: int)
    requires
        seg.len() <= usize::MAX,
        wf(Obj::Bytes(text_bytes(s))),
        0 <= w,
        0 <= off < 0x2000_0000,
        8 * w + 8 <= seg.len(),
        word_at(seg, w as int) == ptr_word(Obj::Bytes(text_bytes(s)), off),
        8 * (w + 1 + off) + 8 * owords(Obj::Bytes(text_bytes(s))) <= seg.len(),
        seg.subrange(8 * (w + 1 + off), 8 * (w + 1 + off) + 8 * owords(Obj::Bytes(text_bytes(s))))
            == enc(Obj::Bytes(text_bytes(s))),
    ensures
        read_text(seg, single(seg), Some(w)) == Ok::<Seq<char>, Error>(s),
        read_byte_list(seg, single(seg), Some(w)) is Ok,
        bytes_cost(seg, single(seg), Some(w)) == owords(Obj::Bytes(text_bytes(s))),
{
    lemma_words_within(seg.len() as int, w + 1);
    lemma_single(seg, w as int);
    broadcast use encode_utf8_valid_utf8, encode_utf8_decode_utf8;

    let b = text_bytes(s);
    let t = w + 1 + off;
    lemma_read_data(seg, w, b, off);
    lemma_list_ptr(off, 2, b.len() as int);
    let n = b.len() as int;
    assert(seg.subrange(8 * t, 8 * t + n) == b);
    assert(seg[8 * t + n - 1] == seg.subrange(8 * t, 8 * t + n)[n - 1]);
    assert(seg.subrange(8 * t, 8 * t + n - 1) =~= encode_utf8(s)) by {
        assert forall|i: int| 0 <= i < n - 1 implies seg.subrange(8 * t, 8 * t + n - 1)[i]
            == encode_utf8(s)[i] by {
            assert(seg.subrange(8 * t, 8 * t + n)[i] == b[i]);
        }
    }
}

/// A pointer to an encoded list of structs reads back as that list.
pub proof fn lemma_read_struct_list(seg: Seq<u8>, w: usize, kid: Obj, off: int)
    requires
        seg.len() <= usize::MAX,
        kid is List,
        wf(kid),
        0 <= w,
        0 <= off < 0x2000_0000,
        8 * w + 8 <= seg.len(),
        word_at(seg, w as int) == ptr_word(kid, off),
        8 * (w + 1 + off) + 8 * owords(kid) <= seg.len(),
        seg.subrange(8 * (w + 1 + off), 8 * (w + 1 + off) + 8 * owords(kid)) == enc(kid),
    ensures
        read_struct_list(seg, single(seg), Some(w)) == Ok::<ListLoc, Error>(
            ListLoc {
                first: (w + 2 + off) as usize,
                count: kid->List_2.len() as usize,
                data: kid->List_0 as usize,
                ptrs: kid->List_1 as usize,
            },
        ),
        list_cost(seg, single(seg), Some(w)) == 1 + kid->List_2.len() * (kid->List_0 + kid->List_1)
            + if kid->List_0 + kid->List_1 == 0 { kid->List_2.len() as int } else { 0int },
{
    lemma_words_within(seg.len() as int, w + 1);
    lemma_single(seg, w as int);
    let d = kid->List_0 as int;
    let p = kid->List_1 as int;
    let n = kid->List_2.len() as int;
    let t = w + 1 + off;
    assert(0 <= n * (d + p)) by (nonlinear_arith)
        requires
            n >= 0,
            d >= 0,
            p >= 0,
    ;
    lemma_list_ptr(off, 7, n * (d + p));
    lemma_kids_words_nonneg(kid->List_3);
    lemma_words_within(seg.len() as int, t + owords(kid));
    lemma_list_tag(seg, t, kid);
    lemma_struct_ptr(n, d, p);
}


// ---------------------------------------------------------------------------
// Executable reading
// ---------------------------------------------------------------------------
/// Word `w` of a segment.
pub fn read_word(seg: &[u8], w: usize) -> (v: u64)
    requires
        w < seg_words(seg@),
    ensures
        v == word_at(seg@, w as int),
{
    let len = seg.len();
    proof {
        lemma_fundamental_div_mod(len as int, 8);
    }
    let b = 8 * w;
    u64_from_le_bytes(slice_subrange(seg, b, b + 8))
}

/// The signed offset of a pointer word.
pub fn pointer_offset(v: u64) -> (o: i64)
    ensures
        o == ptr_offset(v),
        -0x2000_0000 <= o < 0x2000_0000,
{
    let x = (v % 0x1_0000_0000) / 4;
    if x >= 0x2000_0000 {
        x as i64 - 0x4000_0000
    } else {
        x as i64
    }
}

/// The segment that holds word `w` (see `seg_index`).
fn find_segment(ends: &[usize], w: usize) -> (i: usize)
    requires
        ends@.len() >= 1,
        w < ends@.last(),
    ensures
        i == seg_index(ends@, w as int, 0),
        i < ends@.len(),
        w < ends@[i as int],
{
    let mut i: usize = 0;
    while i < ends.len() && w >= ends[i]
        invariant
            i <= ends@.len(),
            ends@.len() >= 1,
            w < ends@.last(),
            seg_index(ends@, w as int, 0) == seg_index(ends@, w as int, i as int),
            forall|j: int| 0 <= j < i ==> w >= #[trigger] ends@[j],
        decreases ends@.len() - i,
    {
        i = i + 1;
    }
    if i == ends.len() {
        assert(w >= ends@[ends@.len() - 1]);
    }
    i
}

/// First word of segment `i` (see `seg_start`).
fn segment_start(ends: &[usize], i: usize) -> (s: usize)
    requires
        i < ends@.len(),
    ensures
        s == seg_start(ends@, i as int),
{
    if i == 0 {
        0
    } else {
        ends[i - 1]
    }
}

/// Resolves the pointer at word `w` (see `resolve`).
fn resolve_ptr(seg: &[u8], ends: &[usize], w: usize) -> (r: Result<(u64, i128, usize, usize), Error>)
    requires
        ends_wf(seg@, ends@),
        w < seg_words(seg@),
    ensures
        match r {
            Ok((v, t, lo, hi)) => resolve(seg@, ends@, w as int) == Ok::<(u64, int, int, int), Error>(
                (v, t as int, lo as int, hi as int),
            ) && lo <= hi <= seg_words(seg@) && -0x4000_0000 <= t <= usize::MAX as int + 0x2000_0000,
            Err(e) => resolve(seg@, ends@, w as int) == Err::<(u64, int, int, int), Error>(e),
        },
{
    let v = read_word(seg, w);
    let n = ends.len();
    if v % 4 != 2 {
        let i = find_segment(ends, w);
        let lo = segment_start(ends, i);
        let off = pointer_offset(v);
        assert(ends@[i as int] <= ends@[n - 1]);
        if i > 0 {
            assert(ends@[i - 1] <= ends@[i as int]);
        }
        return Ok((v, w as i128 + 1 + off as i128, lo, ends[i]));
    }
    let sid = v / 0x1_0000_0000;
    if sid >= n as u64 {
        return Err(Error::Capnp);
    }
    let sid = sid as usize;
    let lo = segment_start(ends, sid);
    let pos = (v % 0x1_0000_0000) / 8;
    let dbl = (v % 8) / 4 == 1;
    let pw: u128 = if dbl { 2 } else { 1 };
    let pad = lo as u128 + pos as u128;
    assert(ends@[sid as int] <= ends@[n - 1]);
    if sid > 0 {
        assert(ends@[sid - 1] <= ends@[sid as int]);
    }
    if pad + pw > ends[sid] as u128 {
        return Err(Error::Capnp);
    }
    let pad = pad as usize;
    if !dbl {
        let p = read_word(seg, pad);
        let off = pointer_offset(p);
        Ok((p, pad as i128 + 1 + off as i128, lo, ends[sid]))
    } else {
        let f = read_word(seg, pad);
        let sid2 = f / 0x1_0000_0000;
        if sid2 >= n as u64 {
            return Err(Error::Capnp);
        }
        let sid2 = sid2 as usize;
        let lo2 = segment_start(ends, sid2);
        assert(ends@[sid2 as int] <= ends@[n - 1]);
        if sid2 > 0 {
            assert(ends@[sid2 - 1] <= ends@[sid2 as int]);
        }
        let tag = read_word(seg, pad + 1);
        Ok((tag, lo2 as i128 + ((f % 0x1_0000_0000) / 8) as i128, lo2, ends[sid2]))
    }
}

/// Words of landing pad that following the pointer at `w` reads (see
/// `pad_words`).
fn pad_of(seg: &[u8], w: usize) -> (p: u64)
    requires
        w < seg_words(seg@),
    ensures
        p == pad_words(seg@, w as int),
        p <= 2,
{
    let v = read_word(seg, w);
    if v % 4 != 2 {
        0
    } else if (v % 8) / 4 == 1 {
        2
    } else {
        1
    }
}

/// Follows a struct pointer (see `read_struct`), with the words it charges.
pub fn follow_struct(seg: &[u8], ends: &[usize], at: Option<usize>) -> (r: Result<(Loc, u64), Error>)
    requires
        at_valid(seg@, at),
        ends_wf(seg@, ends@),
    ensures
        match r {
            Ok((l, c)) => read_struct(seg@, ends@, at) == Ok::<Loc, Error>(l) && c == struct_cost(
                seg@,
                ends@,
                at,
            ) && loc_valid(seg@, l),
            Err(e) => read_struct(seg@, ends@, at) == Err::<Loc, Error>(e),
        },
{
    match at {
        None => Ok((Loc { start: 0, data: 0, ptrs: 0 }, 0)),
        Some(w) => {
            if read_word(seg, w) == 0 {
                return Ok((Loc { start: 0, data: 0, ptrs: 0 }, 0));
            }
            let pad = pad_of(seg, w);
            match resolve_ptr(seg, ends, w) {
                Err(e) => Err(e),
                Ok((v, t, lo, hi)) => {
                    let up = v / 0x1_0000_0000;
                    let d = up % 0x10000;
                    let p = up / 0x10000;
                    if v % 4 != 0 || t < lo as i128 || t + d as i128 + p as i128 > hi as i128 {
                        Err(Error::Capnp)
                    } else {
                        Ok((Loc { start: t as usize, data: d as usize, ptrs: p as usize }, pad + d + p))
                    }
                },
            }
        },
    }
}

/// Follows a pointer to a byte list (see `read_byte_list`), with the words
/// it charges.
pub fn follow_byte_list(seg: &[u8], ends: &[usize], at: Option<usize>) -> (r: Result<(usize, usize, u64), Error>)
    requires
        at_valid(seg@, at),
        ends_wf(seg@, ends@),
    ensures
        match r {
            Ok((b, n, c)) => read_byte_list(seg@, ends@, at) == Ok::<(int, int), Error>((b as int, n as int))
                && b + n <= seg@.len() && c == bytes_cost(seg@, ends@, at),
            Err(e) => read_byte_list(seg@, ends@, at) == Err::<(int, int), Error>(e),
        },
{
    match at {
        None => Ok((0, 0, 0)),
        Some(w) => {
            if read_word(seg, w) == 0 {
                return Ok((0, 0, 0));
            }
            let pad = pad_of(seg, w);
            match resolve_ptr(seg, ends, w) {
                Err(e) => Err(e),
                Ok((v, t, lo, hi)) => {
                    let n = v / 0x8_0000_0000;
                    if v % 4 != 1 || (v / 0x1_0000_0000) % 8 != 2 || t < lo as i128 || t + (n as i128
                        + 7) / 8 > hi as i128 {
                        Err(Error::Capnp)
                    } else {
                        proof {
                            lemma_fundamental_div_mod_converse(n as int + 7, 8, (n as int + 7) / 8, (n as int + 7) % 8);
                            lemma_fundamental_div_mod_converse(seg@.len() as int, 8, seg_words(seg@), seg@.len() as int % 8);
                        }
                        let len = seg.len();
                        proof {
                            assert(0 <= 8 * t <= len);
                        }
                        Ok(((8 * t) as usize, n as usize, pad + (n + 7) / 8))
                    }
                },
            }
        },
    }
}

/// Follows a pointer to bytes within a read limit (see `take_data`).
pub fn charge_data(seg: &[u8], ends: &[usize], at: Option<usize>, budget: u64) -> (r: Result<(Vec<u8>, u64), Error>)
    requires
        at_valid(seg@, at),
        ends_wf(seg@, ends@),
    ensures
        match r {
            Ok((v, b)) => take_data(seg@, ends@, at, budget as int) == Ok::<(Seq<u8>, int), Error>((v@, b as int)),
            Err(e) => take_data(seg@, ends@, at, budget as int) == Err::<(Seq<u8>, int), Error>(e),
        },
{
    let _len = seg.len();
    match follow_byte_list(seg, ends, at) {
        Err(e) => Err(e),
        Ok((b, n, c)) => {
            if c > budget {
                Err(Error::Capnp)
            } else {
                Ok((slice_to_vec(slice_subrange(seg, b, b + n)), budget - c))
            }
        },
    }
}

/// Follows a pointer to text within a read limit (see `take_text`).
pub fn charge_text(seg: &[u8], ends: &[usize], at: Option<usize>, budget: u64) -> (r: Result<(String, u64), Error>)
    requires
        at_valid(seg@, at),
        ends_wf(seg@, ends@),
    ensures
        match r {
            Ok((s, b)) => take_text(seg@, ends@, at, budget as int) == Ok::<(Seq<char>, int), Error>((s@, b as int)),
            Err(e) => take_text(seg@, ends@, at, budget as int) == Err::<(Seq<char>, int), Error>(e),
        },
{
    broadcast use decode_utf8_encode_utf8, encode_utf8_decode_utf8;

    let _len = seg.len();
    let (b, n, c) = match follow_byte_list(seg, ends, at) {
        Err(e) => {
            return Err(e);
        },
        Ok(x) => x,
    };
    if c > budget {
        return Err(Error::Capnp);
    }
    if let Some(w) = at {
        if read_word(seg, w) == 0 {
            return Ok((String::new(), budget - c));
        }
    } else {
        return Ok((String::new(), budget - c));
    }
    if n == 0 || seg[b + n - 1] != 0 {
        return Err(Error::Capnp);
    }
    let bytes = slice_to_vec(slice_subrange(seg, b, b + n - 1));
    match string_from_utf8(bytes) {
        Err(_) => Err(Error::Utf8),
        Ok(s) => Ok((s, budget - c)),
    }
}

/// Follows a pointer to a list of structs (see `read_struct_list`), with the
/// words it charges.
pub fn follow_struct_list(seg: &[u8], ends: &[usize], at: Option<usize>) -> (r: Result<(ListLoc, u64), Error>)
    requires
        at_valid(seg@, at),
        ends_wf(seg@, ends@),
    ensures
        match r {
            Ok((l, c)) => read_struct_list(seg@, ends@, at) == Ok::<ListLoc, Error>(l) && c == list_cost(
                seg@,
                ends@,
                at,
            ) && l.first + l.count * (l.data + l.ptrs) <= seg_words(seg@),
            Err(e) => read_struct_list(seg@, ends@, at) == Err::<ListLoc, Error>(e),
        },
{
    let empty = ListLoc { first: 0, count: 0, data: 0, ptrs: 0 };
    assert(empty.first + empty.count * (empty.data + empty.ptrs) == 0);
    match at {
        None => Ok((empty, 0)),
        Some(w) => {
            if read_word(seg, w) == 0 {
                return Ok((empty, 0));
            }
            let pad = pad_of(seg, w);
            let (v, t, lo, hi) = match resolve_ptr(seg, ends, w) {
                Err(e) => {
                    return Err(e);
                },
                Ok(x) => x,
            };
            let es = (v / 0x1_0000_0000) % 8;
            let wc = v / 0x8_0000_0000;
            if v % 4 != 1 || es == 1 {
                return Err(Error::Capnp);
            }
            if es == 7 {
                if t < lo as i128 || t + 1 + wc as i128 > hi as i128 {
                    return Err(Error::Capnp);
                }
                let tag = read_word(seg, t as usize);
                let n = (tag % 0x1_0000_0000) / 4;
                let up = tag / 0x1_0000_0000;
                let d = up % 0x10000;
                let p = up / 0x10000;
                assert((n as int) * ((d + p) as int) < 0x1_0000_0000_0000_0000) by (nonlinear_arith)
                    requires
                        n < 0x4000_0000,
                        d < 0x10000,
                        p < 0x10000,
                ;
                if tag % 4 != 0 || (n as u128) * ((d + p) as u128) > wc as u128 {
                    Err(Error::Capnp)
                } else {
                    let amp: u64 = if d + p == 0 { n } else { 0 };
                    Ok((ListLoc { first: (t + 1) as usize, count: n as usize, data: d as usize, ptrs: p as usize }, pad + wc + 1 + amp))
                }
            } else {
                let bits: u64 = if es == 2 {
                    8
                } else if es == 3 {
                    16
                } else if es == 4 {
                    32
                } else if es == 5 || es == 6 {
                    64
                } else {
                    0
                };
                let words = (wc * bits + 63) / 64;
                if t < lo as i128 || t + words as i128 > hi as i128 {
                    return Err(Error::Capnp);
                }
                let amp: u64 = if es == 0 { wc } else { 0 };
                let d: usize = if es == 5 { 1 } else { 0 };
                let p: usize = if es == 6 { 1 } else { 0 };
                assert(wc * (d + p) <= words) by (nonlinear_arith)
                    requires
                        d + p <= 1,
                        d + p == 1 ==> bits == 64,
                        words == (wc * bits + 63) / 64,
                ;
                Ok((ListLoc { first: t as usize, count: wc as usize, data: d, ptrs: p }, pad + words + amp))
            }
        },
    }
}

/// Data word `i` of a struct (see `field_word`).
pub fn get_field_word(seg: &[u8], l: Loc, i: usize) -> (v: u64)
    requires
        loc_valid(seg@, l),
    ensures
        v == field_word(seg@, l, i as int),
{
    let _len = seg.len();
    if i < l.data {
        read_word(seg, l.start + i)
    } else {
        0
    }
}

/// Pointer `k` of a struct (see `field_ptr`).
pub fn get_field_ptr(l: Loc, k: usize) -> (r: Option<usize>)
    requires
        l.start + l.data + l.ptrs <= usize::MAX,
    ensures
        r == field_ptr(l, k as int),
{
    if k < l.ptrs {
        Some(l.start + l.data + k)
    } else {
        None
    }
}

pub proof fn lemma_field_ptr_valid(seg: Seq<u8>, l: Loc, k: int)
    requires
        loc_valid(seg, l),
        0 <= k,
        seg.len() <= usize::MAX,
    ensures
        at_valid(seg, field_ptr(l, k)),
{
}

/// Element `j` of a list of structs (see `elem_loc`).
pub fn get_elem_loc(seg: &[u8], l: ListLoc, j: usize) -> (r: Loc)
    requires
        j < l.count,
        l.first + l.count * (l.data + l.ptrs) <= seg_words(seg@),
    ensures
        r == elem_loc(l, j as int),
        loc_valid(seg@, r),
{
    let _len = seg.len();
    proof {
        let w = l.data + l.ptrs;
        assert(j * w + w <= l.count * w && w <= l.count * w) by (nonlinear_arith)
            requires
                j < l.count,
                w >= 0,
        ;
    }
    Loc { start: l.first + j * (l.data + l.ptrs), data: l.data, ptrs: l.ptrs }
}


// ---------------------------------------------------------------------------
// Writing
// ---------------------------------------------------------------------------
/// The pointer words of a struct whose children follow its body in order.
pub open spec fn ptr_words(kids: Seq<Obj>) -> Seq<u64> {
    Seq::new(kids.len(), |k: int| ptr_word(kids[k], kids.len() - k - 1 + kids_words(kids.take(k))))
}

pub proof fn lemma_words_bytes_concat(a: Seq<u64>, b: Seq<u64>)
    ensures
        words_bytes(a + b) == words_bytes(a) + words_bytes(b),
    decreases b.len(),
{
    if b.len() == 0 {
        assert(a + b =~= a);
        assert(words_bytes(a) + words_bytes(b) =~= words_bytes(a));
    } else {
        lemma_words_bytes_concat(a, b.drop_last());
        assert((a + b).drop_last() =~= a + b.drop_last());
        assert(words_bytes(a + b) =~= words_bytes(a) + words_bytes(b));
    }
}

pub proof fn lemma_words_bytes_push(a: Seq<u64>, x: u64)
    ensures
        words_bytes(a.push(x)) == words_bytes(a) + word_bytes(x),
{
    assert(a.push(x).drop_last() =~= a);
}

/// A struct's encoding: data words, pointer words, then its children.
pub proof fn lemma_struct_enc(data: Seq<u64>, kids: Seq<Obj>)
    ensures
        enc(Obj::Struct(data, kids)) == words_bytes(data) + words_bytes(ptr_words(kids)) + enc_kids(kids),
{
    let d = data.len() as int;
    let p = kids.len() as int;
    let bd = body(1, d, p, seq![data], kids);
    assert(bd =~= data + ptr_words(kids)) by {
        assert forall|i: int| 0 <= i < d + p implies bd[i] == (data + ptr_words(kids))[i] by {
            lemma_fundamental_div_mod_converse(i, d + p, 0, i);
        }
    }
    lemma_words_bytes_concat(data, ptr_words(kids));
}

/// Appends the bytes of a word.
pub fn push_word(out: &mut Vec<u8>, v: u64)
    ensures
        final(out)@ == old(out)@ + word_bytes(v),
{
    let mut b = u64_to_le_bytes(v);
    out.append(&mut b);
}

/// Appends the bytes of a sequence of words.
pub fn push_words(out: &mut Vec<u8>, ws: &Vec<u64>)
    ensures
        final(out)@ == old(out)@ + words_bytes(ws@),
{
    let ghost start = out@;
    let mut i: usize = 0;
    assert(ws@.take(0) =~= Seq::<u64>::empty());
    assert(start + words_bytes(Seq::<u64>::empty()) =~= start);
    while i < ws.len()
        invariant
            i <= ws@.len(),
            out@ == start + words_bytes(ws@.take(i as int)),
        decreases ws@.len() - i,
    {
        push_word(out, ws[i]);
        proof {
            assert(ws@.take(i as int).push(ws@[i as int]) =~= ws@.take(i + 1));
            lemma_words_bytes_push(ws@.take(i as int), ws@[i as int]);
            assert(start + words_bytes(ws@.take(i as int)) + word_bytes(ws@[i as int]) =~= start
                + (words_bytes(ws@.take(i as int)) + word_bytes(ws@[i as int])));
        }
        i = i + 1;
    }
    assert(ws@.take(ws@.len() as int) =~= ws@);
}

/// Appends zero bytes that pad `n` bytes to whole words.
fn push_pad(out: &mut Vec<u8>, n: usize)
    ensures
        final(out)@ == old(out)@ + pad_zeros(n as nat),
{
    let ghost start = out@;
    let k = (8 - n % 8) % 8;
    let mut i: usize = 0;
    while i < k
        invariant
            i <= k,
            k == (8 - n % 8) % 8,
            out@ == start + Seq::new(i as nat, |x: int| 0u8),
        decreases k - i,
    {
        out.push(0u8);
        i = i + 1;
        assert(out@ =~= start + Seq::new(i as nat, |x: int| 0u8));
    }
    assert(pad_zeros(n as nat) =~= Seq::new(k as nat, |x: int| 0u8));
}

/// Appends the encoding of a byte list.
pub fn push_bytes_obj(out: &mut Vec<u8>, b: &[u8])
    ensures
        final(out)@ == old(out)@ + enc(Obj::Bytes(b@)),
{
    let mut c = slice_to_vec(b);
    let n = b.len();
    out.append(&mut c);
    push_pad(out, n);
    assert(old(out)@ + b@ + pad_zeros(n as nat) =~= old(out)@ + (b@ + pad_zeros(n as nat)));
}

/// Appends the encoding of a text: its UTF-8 bytes, a NUL, and padding.
pub fn push_text_obj(out: &mut Vec<u8>, s: &str)
    requires
        encode_utf8(s@).len() < usize::MAX,
    ensures
        final(out)@ == old(out)@ + enc(Obj::Bytes(text_bytes(s@))),
{
    let b = s.as_bytes();
    let mut c = slice_to_vec(b);
    let n = b.len();
    out.append(&mut c);
    out.push(0u8);
    push_pad(out, n + 1);
    assert(old(out)@ + b@ + seq![0u8] =~= old(out)@ + text_bytes(s@));
    assert(old(out)@ + text_bytes(s@) + pad_zeros((n + 1) as nat) =~= old(out)@ + (text_bytes(s@)
        + pad_zeros(text_bytes(s@).len())));
}

/// The word of a struct pointer.
pub fn make_struct_ptr(off: u64, d: u64, p: u64) -> (v: u64)
    requires
        off < 0x2000_0000,
        d < 0x10000,
        p < 0x10000,
    ensures
        v == struct_ptr_val(off as int, d as int, p as int) as u64,
{
    proof {
        lemma_struct_ptr(off as int, d as int, p as int);
    }
    off * 4 + (d + p * 0x10000) * 0x1_0000_0000
}

/// The word of a list pointer.
pub fn make_list_ptr(off: u64, esize: u64, count: u64) -> (v: u64)
    requires
        off < 0x2000_0000,
        esize < 8,
        count < 0x2000_0000,
    ensures
        v == list_ptr_val(off as int, esize as int, count as int) as u64,
{
    proof {
        lemma_list_ptr(off as int, esize as int, count as int);
    }
    off * 4 + 1 + (esize + count * 8) * 0x1_0000_0000
}

} // verus!
