//! Decoding the segment of an encoded message gives the message back.
use vstd::prelude::*;
use super::encode::lemma_changes_kids_step;
use super::layout::{
    Obj, ListLoc, Loc, enc, enc_kids, owords, kids_words, kids_wf, wf, ptr_word, word_at,
    text_bytes, seg_words, single, struct_cost, read_struct, read_text, read_data, field_disc, field_word, field_ptr,
    elem_loc, pad_zeros, lemma_enc_len, lemma_enc_kids_at, lemma_kids_words_nonneg,
    lemma_owords_nonneg, lemma_kids_wf_at, lemma_struct_data, lemma_struct_kid, lemma_list_data,
    lemma_list_kid, lemma_read_struct, lemma_read_data, lemma_read_text, lemma_read_struct_list,
};
use super::codec::{
    Error, Request, ValueView, ChangeView, ResponseView, NodeStatusView, MAX_SEGMENT_WORDS, text_obj,
    value_obj, value_disc, value_payload, value_kid, change_data, change_kids, changes_data,
    changes_kids, changes_obj, request_obj, response_obj, node_status_obj, segment, fits, read_root,
    dec_value, dec_change, dec_changes, dec_change_list, dec_request, dec_response, dec_node_status,
};
use vstd::arithmetic::div_mod::lemma_fundamental_div_mod;

verus! {

pub proof fn lemma_i64_u64(x: i64)
    ensures
        (x as u64) as i64 == x,
{
    assert((x as u64) as i64 == x) by (bit_vector);
}

pub proof fn lemma_kids_concat(a: Seq<Obj>, b: Seq<Obj>)
    ensures
        kids_words(a + b) == kids_words(a) + kids_words(b),
        kids_wf(a + b) == (kids_wf(a) && kids_wf(b)),
        enc_kids(a + b) == enc_kids(a) + enc_kids(b),
    decreases b.len(),
{
    if b.len() == 0 {
        assert(a + b =~= a);
        assert(enc_kids(a) + enc_kids(b) =~= enc_kids(a));
    } else {
        lemma_kids_concat(a, b.drop_last());
        assert((a + b).drop_last() =~= a + b.drop_last());
        assert((a + b).last() == b.last());
        assert(enc_kids(a + b) =~= enc_kids(a) + enc_kids(b));
    }
}

pub proof fn lemma_kids_one(a: Obj)
    ensures
        kids_words(seq![a]) == owords(a),
        kids_wf(seq![a]) == wf(a),
        enc_kids(seq![a]) == enc(a),
{
    let e = Seq::<Obj>::empty();
    assert(seq![a].drop_last() =~= e);
    assert(kids_words(e) == 0);
    assert(kids_wf(e));
    assert(enc_kids(e) == Seq::<u8>::empty());
    assert(seq![a].last() == a);
    assert(Seq::<u8>::empty() + enc(a) =~= enc(a));
}

pub proof fn lemma_kids_two(a: Obj, b: Obj)
    ensures
        kids_words(seq![a, b]) == owords(a) + owords(b),
        kids_wf(seq![a, b]) == (wf(a) && wf(b)),
        seq![a, b].take(0) == Seq::<Obj>::empty(),
        seq![a, b].take(1) == seq![a],
{
    assert(seq![a, b].drop_last() =~= seq![a]);
    lemma_kids_one(a);
    assert(seq![a, b].take(0) =~= Seq::<Obj>::empty());
    assert(seq![a, b].take(1) =~= seq![a]);
}

pub proof fn lemma_take0(kids: Seq<Obj>)
    ensures
        kids_words(kids.take(0)) == 0,
{
    assert(kids.take(0) =~= Seq::<Obj>::empty());
}

/// A byte list whose encoding fits a segment is short enough for a list pointer.
pub proof fn lemma_bytes_small(b: Seq<u8>, bound: int)
    requires
        owords(Obj::Bytes(b)) <= bound,
        bound <= MAX_SEGMENT_WORDS,
    ensures
        wf(Obj::Bytes(b)),
{
    lemma_fundamental_div_mod(b.len() as int + 7, 8);
}

pub proof fn lemma_value_wf(v: ValueView)
    requires
        owords(value_obj(v)) <= MAX_SEGMENT_WORDS,
    ensures
        wf(value_obj(v)),
        owords(value_obj(v)) == 3 + owords(value_kid(v)),
        kids_words(seq![value_kid(v)]) == owords(value_kid(v)),
{
    lemma_kids_one(value_kid(v));
    lemma_owords_nonneg(value_kid(v));
    match v {
        ValueView::Text(s) => lemma_bytes_small(text_bytes(s), MAX_SEGMENT_WORDS as int),
        ValueView::Blob(b) => lemma_bytes_small(b, MAX_SEGMENT_WORDS as int),
        _ => {},
    }
}

pub proof fn lemma_change_kids(c: ChangeView)
    ensures
        change_kids(c).len() == 4,
        kids_words(change_kids(c)) == owords(text_obj(c.table)) + owords(Obj::Bytes(c.pk)) + owords(
            text_obj(c.cid),
        ) + owords(value_obj(c.val)),
        kids_words(change_kids(c)) <= MAX_SEGMENT_WORDS ==> kids_wf(change_kids(c)),
{
    let k = change_kids(c);
    let a = text_obj(c.table);
    let b = Obj::Bytes(c.pk);
    let x = text_obj(c.cid);
    let y = value_obj(c.val);
    assert(k =~= seq![a] + seq![b] + seq![x] + seq![y]);
    lemma_kids_one(a);
    lemma_kids_one(b);
    lemma_kids_one(x);
    lemma_kids_one(y);
    lemma_kids_concat(seq![a], seq![b]);
    lemma_kids_concat(seq![a] + seq![b], seq![x]);
    lemma_kids_concat(seq![a] + seq![b] + seq![x], seq![y]);
    lemma_owords_nonneg(a);
    lemma_owords_nonneg(b);
    lemma_owords_nonneg(x);
    lemma_owords_nonneg(y);
    if kids_words(k) <= MAX_SEGMENT_WORDS {
        lemma_bytes_small(text_bytes(c.table), MAX_SEGMENT_WORDS as int);
        lemma_bytes_small(c.pk, MAX_SEGMENT_WORDS as int);
        lemma_bytes_small(text_bytes(c.cid), MAX_SEGMENT_WORDS as int);
        lemma_value_wf(c.val);
    }
}

pub proof fn lemma_changes_kids(cs: Seq<ChangeView>)
    ensures
        changes_kids(cs).len() == 4 * cs.len(),
        kids_words(changes_kids(cs)) >= 0,
        kids_words(changes_kids(cs)) <= MAX_SEGMENT_WORDS ==> kids_wf(changes_kids(cs)),
    decreases cs.len(),
{
    if cs.len() > 0 {
        lemma_changes_kids(cs.drop_last());
        lemma_change_kids(cs.last());
        lemma_kids_concat(changes_kids(cs.drop_last()), change_kids(cs.last()));
        lemma_kids_words_nonneg(change_kids(cs.last()));
    }
}

pub proof fn lemma_changes_kids_at(cs: Seq<ChangeView>, j: int, k: int)
    requires
        0 <= j < cs.len(),
        0 <= k < 4,
    ensures
        changes_kids(cs)[4 * j + k] == change_kids(cs[j])[k],
    decreases cs.len(),
{
    lemma_changes_kids(cs.drop_last());
    lemma_change_kids(cs.last());
    if j < cs.len() - 1 {
        lemma_changes_kids_at(cs.drop_last(), j, k);
    }
}

pub proof fn lemma_changes_wf(cs: Seq<ChangeView>)
    requires
        owords(changes_obj(cs)) <= MAX_SEGMENT_WORDS,
    ensures
        wf(changes_obj(cs)),
        owords(changes_obj(cs)) == 1 + 8 * cs.len() + kids_words(changes_kids(cs)),
{
    lemma_changes_kids(cs);
    let datas = changes_data(cs);
    assert(datas.len() == cs.len());
    assert(owords(changes_obj(cs)) == 1 + cs.len() * 8 + kids_words(changes_kids(cs)));
    assert forall|j: int| 0 <= j < datas.len() implies #[trigger] datas[j].len() == 4 by {
        assert(datas[j] == change_data(cs[j]));
    }
}

// ---------------------------------------------------------------------------
// Reading fields back
// ---------------------------------------------------------------------------
#[verifier::spinoff_prover]
#[verifier::rlimit(40)]
pub proof fn lemma_dec_value(seg: Seq<u8>, w: usize, v: ValueView, off: int, budget: int)
    requires
        budget >= owords(value_obj(v)),
        seg.len() <= usize::MAX,
        0 <= off <= MAX_SEGMENT_WORDS,
        8 * w + 8 <= seg.len(),
        word_at(seg, w as int) == ptr_word(value_obj(v), off),
        8 * (w + 1 + off) + 8 * owords(value_obj(v)) <= seg.len(),
        seg.subrange(8 * (w + 1 + off), 8 * (w + 1 + off) + 8 * owords(value_obj(v))) == enc(
            value_obj(v),
        ),
        owords(value_obj(v)) <= MAX_SEGMENT_WORDS,
    ensures
        dec_value(seg, single(seg), Some(w), budget) == Ok::<(ValueView, int), Error>(
            (v, budget - owords(value_obj(v))),
        ),
{
    lemma_value_wf(v);
    let o = value_obj(v);
    let data = seq![value_disc(v), value_payload(v)];
    let kids = seq![value_kid(v)];
    let t = w + 1 + off;
    lemma_read_struct(seg, w, o, off);
    lemma_struct_data(seg, t, data, kids, 0);
    lemma_struct_data(seg, t, data, kids, 1);
    let l = read_struct(seg, single(seg), Some(w))->Ok_0;
    assert(field_word(seg, l, 0) == value_disc(v));
    assert(field_disc(seg, l) as u64 == value_disc(v));
    match v {
        ValueView::Integer(i) => lemma_i64_u64(i),
        ValueView::Text(s) => {
            lemma_struct_kid(seg, t, data, kids, 0);
            lemma_take0(kids);
            lemma_kids_wf_at(kids, 0);
            lemma_read_text(seg, (t + 2) as usize, s, 0);
        },
        ValueView::Blob(b) => {
            lemma_struct_kid(seg, t, data, kids, 0);
            lemma_take0(kids);
            lemma_kids_wf_at(kids, 0);
            lemma_read_data(seg, (t + 2) as usize, b, 0);
        },
        _ => {},
    }
}


/// The location of the list of changes encoded at word `base`.
pub open spec fn changes_loc(base: int, cs: Seq<ChangeView>) -> ListLoc {
    ListLoc { first: (base + 1) as usize, count: cs.len() as usize, data: 4, ptrs: 4 }
}

/// Pointer `k` of element `j` of an encoded list of changes, and its child.
pub proof fn lemma_change_kid(seg: Seq<u8>, base: int, cs: Seq<ChangeView>, j: int, k: int) -> (off: int)
    requires
        seg.len() <= usize::MAX,
        0 <= base,
        8 * base + 8 * owords(changes_obj(cs)) <= seg.len(),
        seg.subrange(8 * base, 8 * base + 8 * owords(changes_obj(cs))) == enc(changes_obj(cs)),
        owords(changes_obj(cs)) <= MAX_SEGMENT_WORDS,
        0 <= j < cs.len(),
        0 <= k < 4,
    ensures
        ({
            let w = base + 1 + 8 * j + 4 + k;
            let kid = change_kids(cs[j])[k];
            &&& field_ptr(elem_loc(changes_loc(base, cs), j), k) == Some(w as usize)
            &&& 0 <= off <= MAX_SEGMENT_WORDS
            &&& 8 * w + 8 <= seg.len()
            &&& word_at(seg, w) == ptr_word(kid, off)
            &&& 8 * (w + 1 + off) + 8 * owords(kid) <= seg.len()
            &&& seg.subrange(8 * (w + 1 + off), 8 * (w + 1 + off) + 8 * owords(kid)) == enc(kid)
            &&& wf(kid)
            &&& owords(kid) <= MAX_SEGMENT_WORDS
        }),
{
    lemma_changes_wf(cs);
    lemma_changes_kids(cs);
    let o = changes_obj(cs);
    let n = cs.len() as int;
    let kids = changes_kids(cs);
    lemma_list_kid(seg, base, o, j, k);
    lemma_changes_kids_at(cs, j, k);
    lemma_kids_wf_at(kids, 4 * j + k);
    lemma_owords_nonneg(kids[4 * j + k]);
    let i = j * 8 + 4 + k;
    n * 8 + kids_words(kids.take(4 * j + k)) - i - 1
}

#[verifier::spinoff_prover]
#[verifier::rlimit(40)]
pub proof fn lemma_dec_change(seg: Seq<u8>, base: int, cs: Seq<ChangeView>, j: int, budget: int)
    requires
        budget >= kids_words(change_kids(cs[j])),
        seg.len() <= usize::MAX,
        0 <= base,
        8 * base + 8 * owords(changes_obj(cs)) <= seg.len(),
        seg.subrange(8 * base, 8 * base + 8 * owords(changes_obj(cs))) == enc(changes_obj(cs)),
        owords(changes_obj(cs)) <= MAX_SEGMENT_WORDS,
        0 <= j < cs.len(),
    ensures
        dec_change(seg, single(seg), elem_loc(changes_loc(base, cs), j), budget) == Ok::<(ChangeView, int), Error>(
            (cs[j], budget - kids_words(change_kids(cs[j]))),
        ),
{
    reveal(dec_change);
    let c = cs[j];
    let l = elem_loc(changes_loc(base, cs), j);
    lemma_changes_wf(cs);
    lemma_changes_kids(cs);
    assert(l.start == base + 1 + j * 8);
    assert(field_word(seg, l, 0) == c.col_version as u64 && field_word(seg, l, 1) == c.db_version as u64
        && field_word(seg, l, 2) == c.cl as u64 && field_word(seg, l, 3) == c.seq as u64) by {
        let o = changes_obj(cs);
        lemma_changes_wf(cs);
        assert(changes_data(cs)[j] == change_data(c));
        lemma_list_data(seg, base, o, j, 0);
        lemma_list_data(seg, base, o, j, 1);
        lemma_list_data(seg, base, o, j, 2);
        lemma_list_data(seg, base, o, j, 3);
    }
    lemma_i64_u64(c.col_version);
    lemma_i64_u64(c.db_version);
    lemma_i64_u64(c.cl);
    lemma_i64_u64(c.seq);
    let w0 = (base + 1 + 8 * j + 4) as usize;
    lemma_change_kids(c);
    lemma_owords_nonneg(text_obj(c.table));
    lemma_owords_nonneg(Obj::Bytes(c.pk));
    lemma_owords_nonneg(text_obj(c.cid));
    lemma_owords_nonneg(value_obj(c.val));
    let b1 = budget - owords(text_obj(c.table));
    let b2 = b1 - owords(Obj::Bytes(c.pk));
    let b3 = b2 - owords(text_obj(c.cid));
    let off0 = lemma_change_kid(seg, base, cs, j, 0);
    lemma_read_text(seg, w0, c.table, off0);
    let off1 = lemma_change_kid(seg, base, cs, j, 1);
    lemma_read_data(seg, (w0 + 1) as usize, c.pk, off1);
    let off2 = lemma_change_kid(seg, base, cs, j, 2);
    lemma_read_text(seg, (w0 + 2) as usize, c.cid, off2);
    let off3 = lemma_change_kid(seg, base, cs, j, 3);
    lemma_dec_value(seg, (w0 + 3) as usize, c.val, off3, b3);
}

#[verifier::spinoff_prover]
#[verifier::rlimit(40)]
pub proof fn lemma_dec_changes(seg: Seq<u8>, base: int, cs: Seq<ChangeView>, m: int, budget: int)
    requires
        budget >= kids_words(changes_kids(cs.take(m))),
        seg.len() <= usize::MAX,
        0 <= base,
        8 * base + 8 * owords(changes_obj(cs)) <= seg.len(),
        seg.subrange(8 * base, 8 * base + 8 * owords(changes_obj(cs))) == enc(changes_obj(cs)),
        owords(changes_obj(cs)) <= MAX_SEGMENT_WORDS,
        0 <= m <= cs.len(),
    ensures
        dec_changes(seg, single(seg), changes_loc(base, cs), m, budget) == Ok::<(Seq<ChangeView>, int), Error>(
            (cs.take(m), budget - kids_words(changes_kids(cs.take(m)))),
        ),
    decreases m,
{
    if m == 0 {
        assert(cs.take(0) =~= Seq::<ChangeView>::empty());
        assert(changes_kids(cs.take(0)) =~= Seq::<Obj>::empty());
    } else {
        lemma_changes_kids_step(cs, m - 1);
        lemma_changes_kids(cs.take(m - 1));
        lemma_change_kids(cs[m - 1]);
        lemma_owords_nonneg(text_obj(cs[m - 1].table));
        lemma_owords_nonneg(Obj::Bytes(cs[m - 1].pk));
        lemma_owords_nonneg(text_obj(cs[m - 1].cid));
        lemma_owords_nonneg(value_obj(cs[m - 1].val));
        lemma_dec_changes(seg, base, cs, m - 1, budget);
        lemma_dec_change(seg, base, cs, m - 1, budget - kids_words(changes_kids(cs.take(m - 1))));
        assert(cs.take(m - 1).push(cs[m - 1]) =~= cs.take(m));
    }
}

#[verifier::spinoff_prover]
#[verifier::rlimit(40)]
pub proof fn lemma_dec_change_list(seg: Seq<u8>, w: usize, cs: Seq<ChangeView>, off: int, budget: int)
    requires
        budget >= owords(changes_obj(cs)),
        seg.len() <= usize::MAX,
        0 <= off <= MAX_SEGMENT_WORDS,
        8 * w + 8 <= seg.len(),
        word_at(seg, w as int) == ptr_word(changes_obj(cs), off),
        8 * (w + 1 + off) + 8 * owords(changes_obj(cs)) <= seg.len(),
        seg.subrange(8 * (w + 1 + off), 8 * (w + 1 + off) + 8 * owords(changes_obj(cs))) == enc(
            changes_obj(cs),
        ),
        owords(changes_obj(cs)) <= MAX_SEGMENT_WORDS,
    ensures
        dec_change_list(seg, single(seg), Some(w), budget) == Ok::<(Seq<ChangeView>, int), Error>(
            (cs, budget - owords(changes_obj(cs))),
        ),
{
    lemma_changes_wf(cs);
    lemma_read_struct_list(seg, w, changes_obj(cs), off);
    assert(changes_loc(w + 1 + off, cs) == ListLoc {
        first: (w + 2 + off) as usize,
        count: cs.len() as usize,
        data: 4,
        ptrs: 4,
    });
    lemma_changes_kids(cs);
    assert(changes_data(cs).len() == cs.len());
    assert(cs.take(cs.len() as int) =~= cs);
    assert(cs.len() * (4 + 4) >= 0) by (nonlinear_arith);
    lemma_dec_changes(seg, w + 1 + off, cs, cs.len() as int, budget - (1 + cs.len() * 8));
}

// ---------------------------------------------------------------------------
// Whole segments
// ---------------------------------------------------------------------------
/// The root of a segment: where it is, and that it reads back.
pub proof fn lemma_segment_root(root: Obj)
    requires
        root is Struct,
        root->Struct_0.len() + root->Struct_1.len() > 0,
        wf(root),
        fits(root),
    ensures
        ({
            let seg = segment(root);
            &&& seg.len() == 8 * (1 + owords(root))
            &&& seg.len() <= usize::MAX
            &&& seg.subrange(8, 8 + 8 * owords(root)) == enc(root)
            &&& read_root(seg, single(seg)) matches Ok((l, b)) && l == (Loc {
                start: 1,
                data: root->Struct_0.len() as usize,
                ptrs: root->Struct_1.len() as usize,
            }) && b == MAX_SEGMENT_WORDS - 1 - root->Struct_0.len() - root->Struct_1.len()
        }),
{
    let top = Obj::Struct(Seq::empty(), seq![root]);
    let seg = segment(root);
    lemma_kids_one(root);
    lemma_enc_len(top);
    lemma_owords_nonneg(root);
    assert(seg.subrange(0, seg.len() as int) =~= seg);
    lemma_struct_kid(seg, 0, Seq::empty(), seq![root], 0);
    lemma_take0(seq![root]);
    lemma_read_struct(seg, 0, root, 0);
}

pub proof fn lemma_request_obj(r: Request)
    ensures
        wf(request_obj(r)),
        fits(request_obj(r)),
{
    match r {
        Request::Status => {
            lemma_kids_one(Obj::Null);
        },
        Request::Changes { since_db_version } => {
            let c = Obj::Struct(seq![since_db_version as u64], Seq::empty());
            lemma_kids_one(c);
            assert(kids_words(Seq::<Obj>::empty()) == 0);
            assert(kids_wf(Seq::<Obj>::empty()));
        },
    }
}

/// Reading the segment of an encoded request gives the request back.
#[verifier::spinoff_prover]
#[verifier::rlimit(40)]
pub proof fn lemma_request_segment(r: Request)
    ensures
        dec_request(segment(request_obj(r)), single(segment(request_obj(r)))) == Ok::<Request, Error>(r),
{
    let root = request_obj(r);
    let seg = segment(root);
    lemma_request_obj(r);
    lemma_segment_root(root);
    let data = root->Struct_0;
    let kids = root->Struct_1;
    lemma_struct_data(seg, 1, data, kids, 0);
    match r {
        Request::Status => {},
        Request::Changes { since_db_version } => {
            let c = Obj::Struct(seq![since_db_version as u64], Seq::empty());
            lemma_struct_kid(seg, 1, data, kids, 0);
            lemma_take0(kids);
            lemma_kids_wf_at(kids, 0);
            lemma_read_struct(seg, 2, c, 0);
            assert(kids_words(Seq::<Obj>::empty()) == 0);
            lemma_struct_data(seg, 3, seq![since_db_version as u64], Seq::empty(), 0);
            lemma_i64_u64(since_db_version);
        },
    }
}

pub proof fn lemma_response_obj(r: ResponseView)
    requires
        fits(response_obj(r)),
    ensures
        wf(response_obj(r)),
{
    match r {
        ResponseView::Status { site_id, db_version } => {
            let b = Obj::Bytes(site_id);
            let s = Obj::Struct(seq![db_version as u64], seq![b]);
            lemma_kids_one(b);
            lemma_kids_one(s);
            lemma_owords_nonneg(b);
            lemma_bytes_small(site_id, MAX_SEGMENT_WORDS as int);
        },
        ResponseView::Changes { site_id, changes } => {
            let b = Obj::Bytes(site_id);
            let lo = changes_obj(changes);
            let c = Obj::Struct(Seq::empty(), seq![b, lo]);
            lemma_kids_two(b, lo);
            lemma_kids_one(c);
            lemma_owords_nonneg(b);
            lemma_owords_nonneg(lo);
            lemma_bytes_small(site_id, MAX_SEGMENT_WORDS as int);
            lemma_changes_wf(changes);
        },
    }
}

/// The part of a response segment below the root's union: word 2 points to
/// the struct of the union member, which lies at word 3.
pub proof fn lemma_response_member(r: ResponseView)
    requires
        fits(response_obj(r)),
    ensures
        ({
            let root = response_obj(r);
            let seg = segment(root);
            let c = root->Struct_1[0];
            &&& seg.len() <= usize::MAX
            &&& read_root(seg, single(seg)) == Ok::<(Loc, int), Error>((Loc { start: 1, data: 1, ptrs: 1 }, MAX_SEGMENT_WORDS - 3))
            &&& field_disc(seg, Loc { start: 1, data: 1, ptrs: 1 }) as u64 == root->Struct_0[0]
            &&& 24 + 8 * owords(c) <= seg.len()
            &&& seg.subrange(24int, 24 + 8 * owords(c)) == enc(c)
            &&& read_struct(seg, single(seg), Some(2usize)) matches Ok(l) && l.data == c->Struct_0.len()
                && l.ptrs == c->Struct_1.len() && (l.data + l.ptrs > 0 ==> l.start == 3)
            &&& struct_cost(seg, single(seg), Some(2usize)) == c->Struct_0.len() + c->Struct_1.len()
            &&& owords(root) == 2 + owords(c)
        }),
{
    let root = response_obj(r);
    let seg = segment(root);
    lemma_response_obj(r);
    lemma_segment_root(root);
    let data = root->Struct_0;
    let kids = root->Struct_1;
    lemma_struct_data(seg, 1, data, kids, 0);
    lemma_struct_kid(seg, 1, data, kids, 0);
    lemma_take0(kids);
    lemma_kids_wf_at(kids, 0);
    lemma_read_struct(seg, 2, kids[0], 0);
}

#[verifier::spinoff_prover]
#[verifier::rlimit(40)]
pub proof fn lemma_response_status_segment(site_id: Seq<u8>, db_version: i64)
    requires
        fits(response_obj(ResponseView::Status { site_id, db_version })),
    ensures
        dec_response(segment(response_obj(ResponseView::Status { site_id, db_version })), single(segment(response_obj(ResponseView::Status { site_id, db_version }))))
            == Ok::<ResponseView, Error>(ResponseView::Status { site_id, db_version }),
{
    let r = ResponseView::Status { site_id, db_version };
    let seg = segment(response_obj(r));
    lemma_response_member(r);
    lemma_response_obj(r);
    let b = Obj::Bytes(site_id);
    let sd = seq![db_version as u64];
    lemma_kids_one(b);
    lemma_kids_wf_at(seq![Obj::Struct(sd, seq![b])], 0);
    lemma_kids_one(Obj::Struct(sd, seq![b]));
    lemma_struct_data(seg, 3, sd, seq![b], 0);
    lemma_struct_kid(seg, 3, sd, seq![b], 0);
    lemma_take0(seq![b]);
    lemma_kids_wf_at(seq![b], 0);
    lemma_read_data(seg, 4, site_id, 0);
    lemma_i64_u64(db_version);
}

#[verifier::spinoff_prover]
#[verifier::rlimit(40)]
pub proof fn lemma_response_changes_segment(site_id: Seq<u8>, changes: Seq<ChangeView>)
    requires
        fits(response_obj(ResponseView::Changes { site_id, changes })),
    ensures
        dec_response(segment(response_obj(ResponseView::Changes { site_id, changes })), single(segment(response_obj(ResponseView::Changes { site_id, changes }))))
            == Ok::<ResponseView, Error>(ResponseView::Changes { site_id, changes }),
{
    let r = ResponseView::Changes { site_id, changes };
    let seg = segment(response_obj(r));
    lemma_response_member(r);
    lemma_response_obj(r);
    let b = Obj::Bytes(site_id);
    let lo = changes_obj(changes);
    let ck = seq![b, lo];
    lemma_kids_two(b, lo);
    lemma_kids_wf_at(seq![Obj::Struct(Seq::empty(), ck)], 0);
    lemma_kids_one(Obj::Struct(Seq::empty(), ck));
    lemma_owords_nonneg(b);
    lemma_owords_nonneg(lo);
    lemma_struct_kid(seg, 3, Seq::empty(), ck, 0);
    lemma_kids_wf_at(ck, 0);
    lemma_read_data(seg, 3, site_id, 1);
    lemma_struct_kid(seg, 3, Seq::empty(), ck, 1);
    lemma_kids_one(b);
    lemma_changes_wf(changes);
    lemma_dec_change_list(seg, 4, changes, owords(b), MAX_SEGMENT_WORDS - 5);
}

/// Reading the segment of an encoded response gives the response back.
pub proof fn lemma_response_segment(r: ResponseView)
    requires
        fits(response_obj(r)),
    ensures
        dec_response(segment(response_obj(r)), single(segment(response_obj(r)))) == Ok::<ResponseView, Error>(r),
{
    match r {
        ResponseView::Status { site_id, db_version } => lemma_response_status_segment(site_id, db_version),
        ResponseView::Changes { site_id, changes } => lemma_response_changes_segment(site_id, changes),
    }
}

pub proof fn lemma_node_status_obj(n: NodeStatusView)
    requires
        fits(node_status_obj(n)),
    ensures
        wf(node_status_obj(n)),
{
    let sb = Obj::Bytes(n.site_id);
    let db = Obj::Struct(seq![n.db_version as u64], seq![sb]);
    let rb = Obj::Bytes(n.route);
    lemma_kids_one(sb);
    lemma_kids_two(db, rb);
    lemma_owords_nonneg(sb);
    lemma_owords_nonneg(db);
    lemma_owords_nonneg(rb);
    lemma_bytes_small(n.site_id, MAX_SEGMENT_WORDS as int);
    lemma_bytes_small(n.route, MAX_SEGMENT_WORDS as int);
}

/// Reading the segment of an encoded node status gives the status back.
#[verifier::spinoff_prover]
#[verifier::rlimit(40)]
pub proof fn lemma_node_status_segment(n: NodeStatusView)
    requires
        fits(node_status_obj(n)),
    ensures
        dec_node_status(segment(node_status_obj(n)), single(segment(node_status_obj(n)))) == Ok::<NodeStatusView, Error>(n),
{
    let root = node_status_obj(n);
    let seg = segment(root);
    lemma_node_status_obj(n);
    lemma_segment_root(root);
    let sb = Obj::Bytes(n.site_id);
    let db = Obj::Struct(seq![n.db_version as u64], seq![sb]);
    let rb = Obj::Bytes(n.route);
    let kids = seq![db, rb];
    lemma_kids_two(db, rb);
    lemma_kids_one(sb);
    lemma_owords_nonneg(db);
    lemma_struct_kid(seg, 1, Seq::empty(), kids, 0);
    lemma_kids_wf_at(kids, 0);
    lemma_read_struct(seg, 1, db, 1);
    lemma_struct_data(seg, 3, seq![n.db_version as u64], seq![sb], 0);
    lemma_struct_kid(seg, 3, seq![n.db_version as u64], seq![sb], 0);
    lemma_take0(seq![sb]);
    lemma_kids_wf_at(seq![sb], 0);
    lemma_read_data(seg, 4, n.site_id, 0);
    lemma_struct_kid(seg, 1, Seq::empty(), kids, 1);
    lemma_kids_wf_at(kids, 1);
    lemma_kids_one(db);
    lemma_read_data(seg, 2, n.route, owords(db));
    lemma_i64_u64(n.db_version);
}

} // verus!
