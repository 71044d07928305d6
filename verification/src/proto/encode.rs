//! Writing the segment of a message.
use vstd::prelude::*;
use vstd::utf8::*;
use vstd::string::*;
use vstd::arithmetic::div_mod::{lemma_fundamental_div_mod, lemma_fundamental_div_mod_converse};
use super::layout::{
    Obj, enc, enc_kids, owords, kids_words, ptr_word, text_bytes, word_bytes, words_bytes, body,
    body_word, ptr_words, struct_ptr_val, list_ptr_val, tag_word, lemma_kids_words_nonneg,
    lemma_owords_nonneg, lemma_struct_enc, lemma_words_bytes_push, push_word, push_words,
    push_bytes_obj, push_text_obj, make_struct_ptr, make_list_ptr,
};
use super::codec::{
    Value, ValueView, Change, ChangeView, Request, Response, ResponseView, NodeStatus,
    NodeStatusView, MAX_SEGMENT_WORDS, text_obj, value_obj, value_disc, value_payload, value_kid,
    change_data, change_kids, changes_data, changes_kids, changes_obj, changes_view, request_obj,
    response_obj, node_status_obj, segment, fits,
};
use super::roundtrip::{
    lemma_kids_one, lemma_kids_two, lemma_kids_concat, lemma_change_kids, lemma_changes_kids,
    lemma_changes_kids_at,
};

verus! {

/// Size in words of an object, when it is at most `MAX_SEGMENT_WORDS`.
pub open spec fn measured(r: Option<u64>, o: Obj) -> bool {
    &&& r matches Some(w) ==> w == owords(o) && w <= MAX_SEGMENT_WORDS
    &&& r is None <==> owords(o) > MAX_SEGMENT_WORDS
}

fn measure_bytes(n: usize) -> (r: Option<u64>)
    ensures
        r matches Some(w) ==> w == (n + 7) / 8 && w <= MAX_SEGMENT_WORDS,
        r is None <==> (n + 7) / 8 > MAX_SEGMENT_WORDS,
{
    proof {
        lemma_fundamental_div_mod(n as int + 7, 8);
    }
    if n > 8 * 0x80_0000 {
        None
    } else {
        Some(((n + 7) / 8) as u64)
    }
}

fn measure_text(s: &str) -> (r: Option<u64>)
    ensures
        measured(r, text_obj(s@)),
        r is Some ==> encode_utf8(s@).len() < 0x400_0000,
{
    let n = s.as_bytes().len();
    if n > 8 * 0x80_0000 {
        proof {
            lemma_fundamental_div_mod(n as int + 8, 8);
        }
        None
    } else {
        let r = measure_bytes(n + 1);
        proof {
            assert(s.spec_bytes() == encode_utf8(s@));
            assert(text_bytes(s@).len() == n + 1);
            assert(measured(r, Obj::Bytes(text_bytes(s@))));
        }
        r
    }
}

fn measure_value(v: &Value) -> (r: Option<u64>)
    ensures
        measured(r, value_obj(v@)),
{
    proof {
        lemma_kids_one(value_kid(v@));
        lemma_owords_nonneg(value_kid(v@));
    }
    let kid = match v {
        Value::Text(s) => measure_text(s.as_str()),
        Value::Blob(b) => {
            let r = measure_bytes(b.len());
            proof {
                assert(measured(r, Obj::Bytes(b@)));
            }
            r
        },
        _ => Some(0),
    };
    match kid {
        None => None,
        Some(w) => if w + 3 > 0x80_0000 {
            None
        } else {
            Some(w + 3)
        },
    }
}

fn measure_change_kids(c: &Change) -> (r: Option<u64>)
    ensures
        r matches Some(w) ==> w == kids_words(change_kids(c@)) && w <= MAX_SEGMENT_WORDS,
        r is None <==> kids_words(change_kids(c@)) > MAX_SEGMENT_WORDS,
{
    proof {
        lemma_change_kids(c@);
        lemma_owords_nonneg(text_obj(c@.table));
        lemma_owords_nonneg(Obj::Bytes(c@.pk));
        lemma_owords_nonneg(text_obj(c@.cid));
        lemma_owords_nonneg(value_obj(c@.val));
    }
    let a = match measure_text(c.table.as_str()) {
        None => return None,
        Some(w) => w,
    };
    let b = match measure_bytes(c.pk.len()) {
        None => {
            proof {
                assert(measured(None, Obj::Bytes(c@.pk)));
            }
            return None;
        },
        Some(w) => w,
    };
    proof {
        assert(measured(Some(b), Obj::Bytes(c@.pk)));
    }
    let x = match measure_text(c.cid.as_str()) {
        None => return None,
        Some(w) => w,
    };
    let y = match measure_value(&c.val) {
        None => return None,
        Some(w) => w,
    };
    let t = a + b + x + y;
    if t > 0x80_0000 {
        None
    } else {
        Some(t)
    }
}

pub proof fn lemma_changes_kids_step(cs: Seq<ChangeView>, j: int)
    requires
        0 <= j < cs.len(),
    ensures
        changes_kids(cs.take(j + 1)) == changes_kids(cs.take(j)) + change_kids(cs[j]),
        kids_words(changes_kids(cs.take(j + 1))) == kids_words(changes_kids(cs.take(j)))
            + kids_words(change_kids(cs[j])),
{
    assert(cs.take(j + 1).drop_last() =~= cs.take(j));
    lemma_kids_concat(changes_kids(cs.take(j)), change_kids(cs[j]));
}

fn measure_changes(cs: &Vec<Change>) -> (r: Option<u64>)
    ensures
        measured(r, changes_obj(changes_view(cs@))),
{
    let ghost csv = changes_view(cs@);
    let n = cs.len();
    proof {
        lemma_changes_kids(csv);
        assert(changes_data(csv).len() == n);
        assert(owords(changes_obj(csv)) == 1 + n * 8 + kids_words(changes_kids(csv)));
    }
    if n > 0x10_0000 {
        return None;
    }
    if 1 + 8 * (n as u64) > 0x80_0000 {
        return None;
    }
    let mut acc: u64 = 0;
    let mut j: usize = 0;
    assert(csv.take(0) =~= Seq::<ChangeView>::empty());
    while j < n
        invariant
            n == cs@.len(),
            csv == changes_view(cs@),
            n <= 0x80_0000,
            j <= n,
            acc == kids_words(changes_kids(csv.take(j as int))),
            1 + 8 * n + acc <= 0x80_0000,
            owords(changes_obj(csv)) == 1 + n * 8 + kids_words(changes_kids(csv)),
        decreases n - j,
    {
        proof {
            lemma_changes_kids_step(csv, j as int);
            lemma_kids_words_nonneg(change_kids(csv[j as int]));
            assert(csv[j as int] == cs@[j as int]@);
        }
        let w = match measure_change_kids(&cs[j]) {
            None => {
                proof {
                    lemma_changes_kids_prefix_le(csv, j as int + 1);
                }
                return None;
            },
            Some(w) => w,
        };
        if 1 + 8 * (n as u64) + acc + w > 0x80_0000 {
            proof {
                lemma_changes_kids_prefix_le(csv, j as int + 1);
            }
            return None;
        }
        acc = acc + w;
        j = j + 1;
    }
    assert(csv.take(n as int) =~= csv);
    Some(1 + 8 * (n as u64) + acc)
}

/// The words of the children of a prefix of the changes are at most those of all.
pub proof fn lemma_changes_kids_prefix_le(cs: Seq<ChangeView>, j: int)
    requires
        0 <= j <= cs.len(),
    ensures
        kids_words(changes_kids(cs.take(j))) <= kids_words(changes_kids(cs)),
    decreases cs.len() - j,
{
    if j < cs.len() {
        lemma_changes_kids_step(cs, j);
        lemma_kids_words_nonneg(change_kids(cs[j]));
        lemma_changes_kids_prefix_le(cs, j + 1);
    } else {
        assert(cs.take(j) =~= cs);
    }
}


pub proof fn lemma_words_bytes_one(a: u64)
    ensures
        words_bytes(seq![a]) == word_bytes(a),
{
    assert(seq![a] =~= Seq::<u64>::empty().push(a));
    lemma_words_bytes_push(Seq::<u64>::empty(), a);
    assert(Seq::<u8>::empty() + word_bytes(a) =~= word_bytes(a));
}

pub proof fn lemma_words_bytes_two(a: u64, b: u64)
    ensures
        words_bytes(seq![a, b]) == word_bytes(a) + word_bytes(b),
{
    assert(seq![a, b] =~= seq![a].push(b));
    lemma_words_bytes_push(seq![a], b);
    lemma_words_bytes_one(a);
}

pub proof fn lemma_enc_value(v: ValueView)
    ensures
        enc(value_obj(v)) == word_bytes(value_disc(v)) + word_bytes(value_payload(v)) + word_bytes(
            ptr_word(value_kid(v), 0),
        ) + enc(value_kid(v)),
{
    let kid = value_kid(v);
    lemma_struct_enc(seq![value_disc(v), value_payload(v)], seq![kid]);
    lemma_kids_one(kid);
    assert(seq![kid].take(0) =~= Seq::<Obj>::empty());
    assert(ptr_words(seq![kid]) =~= seq![ptr_word(kid, 0)]);
    lemma_words_bytes_two(value_disc(v), value_payload(v));
    lemma_words_bytes_one(ptr_word(kid, 0));
}

/// Appends the encoding of a column value.
fn write_value(out: &mut Vec<u8>, v: &Value)
    requires
        owords(value_obj(v@)) <= MAX_SEGMENT_WORDS,
    ensures
        final(out)@ == old(out)@ + enc(value_obj(v@)),
{
    proof {
        lemma_enc_value(v@);
        lemma_kids_one(value_kid(v@));
        lemma_fundamental_div_mod(owords(value_kid(v@)) * 8, 8);
    }
    match v {
        Value::Null => {
            push_word(out, 0);
            push_word(out, 0);
            push_word(out, 0);
        },
        Value::Integer(i) => {
            push_word(out, 1);
            push_word(out, *i as u64);
            push_word(out, 0);
        },
        Value::Real(r) => {
            push_word(out, 2);
            push_word(out, *r);
            push_word(out, 0);
        },
        Value::Text(t) => {
            let n = t.as_str().as_bytes().len();
            proof {
                lemma_fundamental_div_mod(n as int + 8, 8);
            }
            push_word(out, 3);
            push_word(out, 0);
            push_word(out, make_list_ptr(0, 2, (n + 1) as u64));
            push_text_obj(out, t.as_str());
        },
        Value::Blob(b) => {
            proof {
                lemma_fundamental_div_mod(b@.len() as int + 7, 8);
            }
            push_word(out, 4);
            push_word(out, 0);
            push_word(out, make_list_ptr(0, 2, b.len() as u64));
            push_bytes_obj(out, b.as_slice());
        },
    }
    assert(final(out)@ =~= old(out)@ + enc(value_obj(v@)));
}

pub proof fn lemma_enc_change_kids(c: ChangeView)
    ensures
        enc_kids(change_kids(c)) == enc(text_obj(c.table)) + enc(Obj::Bytes(c.pk)) + enc(
            text_obj(c.cid),
        ) + enc(value_obj(c.val)),
{
    let a = text_obj(c.table);
    let b = Obj::Bytes(c.pk);
    let x = text_obj(c.cid);
    let y = value_obj(c.val);
    assert(change_kids(c) =~= seq![a] + seq![b] + seq![x] + seq![y]);
    lemma_kids_one(a);
    lemma_kids_one(b);
    lemma_kids_one(x);
    lemma_kids_one(y);
    lemma_kids_concat(seq![a], seq![b]);
    lemma_kids_concat(seq![a] + seq![b], seq![x]);
    lemma_kids_concat(seq![a] + seq![b] + seq![x], seq![y]);
}

/// Appends the encodings of the children of a change.
fn write_change_kids(out: &mut Vec<u8>, c: &Change)
    requires
        kids_words(change_kids(c@)) <= MAX_SEGMENT_WORDS,
    ensures
        final(out)@ == old(out)@ + enc_kids(change_kids(c@)),
{
    proof {
        lemma_enc_change_kids(c@);
        lemma_change_kids(c@);
        lemma_owords_nonneg(text_obj(c@.table));
        lemma_owords_nonneg(Obj::Bytes(c@.pk));
        lemma_owords_nonneg(text_obj(c@.cid));
        lemma_owords_nonneg(value_obj(c@.val));
        lemma_fundamental_div_mod(encode_utf8(c@.table).len() as int + 8, 8);
        lemma_fundamental_div_mod(encode_utf8(c@.cid).len() as int + 8, 8);
    }
    push_text_obj(out, c.table.as_str());
    push_bytes_obj(out, c.pk.as_slice());
    push_text_obj(out, c.cid.as_str());
    write_value(out, &c.val);
    assert(final(out)@ =~= old(out)@ + enc_kids(change_kids(c@)));
}


pub proof fn lemma_changes_kids_take(cs: Seq<ChangeView>, j: int, k: int)
    requires
        0 <= j < cs.len(),
        0 <= k <= 4,
    ensures
        changes_kids(cs).take(4 * j + k) == changes_kids(cs.take(j)) + change_kids(cs[j]).take(k),
    decreases cs.len(),
{
    let pre = cs.drop_last();
    lemma_changes_kids(pre);
    lemma_change_kids(cs.last());
    if j < cs.len() - 1 {
        lemma_changes_kids_take(pre, j, k);
        assert(pre.take(j) =~= cs.take(j));
        assert(changes_kids(cs).take(4 * j + k) =~= changes_kids(pre).take(4 * j + k));
    } else {
        assert(pre =~= cs.take(j));
        assert(changes_kids(cs).take(4 * j + k) =~= changes_kids(pre) + change_kids(cs[j]).take(k));
    }
}

/// Pointer `k` of element `j` of a list of `n` changes whose earlier
/// elements' children take `acc` words.
pub open spec fn elem_ptr(c: ChangeView, n: int, j: int, acc: int, k: int) -> u64 {
    ptr_word(change_kids(c)[k], 8 * n + acc + kids_words(change_kids(c).take(k)) - (8 * j + 4 + k) - 1)
}

pub open spec fn elem_words(c: ChangeView, n: int, j: int, acc: int) -> Seq<u64> {
    change_data(c) + seq![
        elem_ptr(c, n, j, acc, 0),
        elem_ptr(c, n, j, acc, 1),
        elem_ptr(c, n, j, acc, 2),
        elem_ptr(c, n, j, acc, 3),
    ]
}

pub open spec fn changes_body(cs: Seq<ChangeView>) -> Seq<u64> {
    body(cs.len() as int, 4, 4, changes_data(cs), changes_kids(cs))
}

pub proof fn lemma_body_elem(cs: Seq<ChangeView>, j: int)
    requires
        0 <= j < cs.len(),
    ensures
        changes_body(cs).len() == 8 * cs.len(),
        changes_body(cs).subrange(8 * j, 8 * j + 8) == elem_words(
            cs[j],
            cs.len() as int,
            j,
            kids_words(changes_kids(cs.take(j))),
        ),
{
    let n = cs.len() as int;
    let bd = changes_body(cs);
    let acc = kids_words(changes_kids(cs.take(j)));
    let ew = elem_words(cs[j], n, j, acc);
    assert(changes_data(cs)[j] == change_data(cs[j]));
    assert(n * (4 + 4) == 8 * n);
    assert(bd.len() == 8 * n);
    assert(ew.len() == 8);
    assert forall|r: int| 0 <= r < 8 implies #[trigger] bd.subrange(8 * j, 8 * j + 8)[r] == ew[r] by {
        assert(bd.subrange(8 * j, 8 * j + 8)[r] == bd[8 * j + r]);
        lemma_fundamental_div_mod_converse(8 * j + r, 8, j, r);
        if r >= 4 {
            let k = r - 4;
            lemma_changes_kids_at(cs, j, k);
            lemma_changes_kids_take(cs, j, k);
            lemma_kids_concat(changes_kids(cs.take(j)), change_kids(cs[j]).take(k));
        }
    }
    assert(bd.subrange(8 * j, 8 * j + 8) =~= ew);
}

/// Appends the body words of element `j` of a list of `n` changes whose
/// earlier elements' children take `acc` words, and returns the words its
/// own children take.
fn push_elem_words(body: &mut Vec<u64>, c: &Change, n: usize, j: usize, acc: u64) -> (w: u64)
    requires
        j < n,
        8 * n + acc + kids_words(change_kids(c@)) <= MAX_SEGMENT_WORDS,
    ensures
        final(body)@ == old(body)@ + elem_words(c@, n as int, j as int, acc as int),
        w == kids_words(change_kids(c@)),
{
    let ghost cv = c@;
    proof {
        lemma_change_kids(cv);
        lemma_owords_nonneg(text_obj(cv.table));
        lemma_owords_nonneg(Obj::Bytes(cv.pk));
        lemma_owords_nonneg(text_obj(cv.cid));
        lemma_owords_nonneg(value_obj(cv.val));
    }
    let s0 = match measure_text(c.table.as_str()) {
        Some(w) => w,
        None => 0,
    };
    let s1 = match measure_bytes(c.pk.len()) {
        Some(w) => w,
        None => 0,
    };
    let s2 = match measure_text(c.cid.as_str()) {
        Some(w) => w,
        None => 0,
    };
    let s3 = match measure_value(&c.val) {
        Some(w) => w,
        None => 0,
    };
    proof {
        assert(s0 == owords(text_obj(cv.table)));
        assert(s1 == owords(Obj::Bytes(cv.pk)));
        assert(s2 == owords(text_obj(cv.cid)));
        assert(s3 == owords(value_obj(cv.val)));
    }
    let tl = c.table.as_str().as_bytes().len();
    let cl = c.cid.as_str().as_bytes().len();
    let base: u64 = 8 * ((n - j) as u64) - 5 + acc;
    body.push(c.col_version as u64);
    body.push(c.db_version as u64);
    body.push(c.cl as u64);
    body.push(c.seq as u64);
    proof {
        lemma_fundamental_div_mod(tl as int + 8, 8);
        lemma_fundamental_div_mod(cl as int + 8, 8);
        lemma_fundamental_div_mod(c.pk@.len() as int + 7, 8);
        let ck = change_kids(cv);
        assert(ck.take(0) =~= Seq::<Obj>::empty());
        assert(ck.take(1) =~= seq![ck[0]]);
        assert(ck.take(2) =~= seq![ck[0]] + seq![ck[1]]);
        assert(ck.take(3) =~= seq![ck[0]] + seq![ck[1]] + seq![ck[2]]);
        lemma_kids_one(ck[0]);
        lemma_kids_one(ck[1]);
        lemma_kids_one(ck[2]);
        lemma_kids_concat(seq![ck[0]], seq![ck[1]]);
        lemma_kids_concat(seq![ck[0]] + seq![ck[1]], seq![ck[2]]);
    }
    body.push(make_list_ptr(base, 2, (tl + 1) as u64));
    body.push(make_list_ptr(base - 1 + s0, 2, c.pk.len() as u64));
    body.push(make_list_ptr(base - 2 + s0 + s1, 2, (cl + 1) as u64));
    body.push(make_struct_ptr(base - 3 + s0 + s1 + s2, 2, 1));
    assert(final(body)@ =~= old(body)@ + elem_words(cv, n as int, j as int, acc as int));
    s0 + s1 + s2 + s3
}

/// The words of the bodies of a list of changes.
fn changes_body_words(cs: &Vec<Change>) -> (body: Vec<u64>)
    requires
        owords(changes_obj(changes_view(cs@))) <= MAX_SEGMENT_WORDS,
    ensures
        body@ == changes_body(changes_view(cs@)),
{
    let ghost csv = changes_view(cs@);
    let n = cs.len();
    proof {
        lemma_changes_kids(csv);
        assert(changes_data(csv).len() == n);
    }
    let mut body: Vec<u64> = Vec::new();
    let mut acc: u64 = 0;
    let mut j: usize = 0;
    assert(csv.take(0) =~= Seq::<ChangeView>::empty());
    assert(changes_body(csv).take(0) =~= body@);
    while j < n
        invariant
            n == cs@.len(),
            csv == changes_view(cs@),
            j <= n,
            owords(changes_obj(csv)) == 1 + n * 8 + kids_words(changes_kids(csv)),
            owords(changes_obj(csv)) <= MAX_SEGMENT_WORDS,
            acc == kids_words(changes_kids(csv.take(j as int))),
            acc <= kids_words(changes_kids(csv)),
            body@ == changes_body(csv).take(8 * j),
            changes_body(csv).len() == 8 * n,
        decreases n - j,
    {
        let c = &cs[j];
        let ghost cv = csv[j as int];
        proof {
            assert(cv == c@);
            lemma_changes_kids_step(csv, j as int);
            lemma_changes_kids_prefix_le(csv, j as int + 1);
            lemma_kids_words_nonneg(change_kids(cv));
            lemma_body_elem(csv, j as int);
        }
        let ghost start = body@;
        let w = push_elem_words(&mut body, c, n, j, acc);
        proof {
            assert(body@ =~= start + elem_words(cv, n as int, j as int, acc as int));
            assert(changes_body(csv).take(8 * j + 8) =~= changes_body(csv).take(8 * j)
                + changes_body(csv).subrange(8 * j, 8 * j + 8));
        }
        acc = acc + w;
        j = j + 1;
    }
    assert(changes_body(csv).take(8 * n) =~= changes_body(csv));
    body
}

/// Appends the encoding of a list of changes.
fn write_changes(out: &mut Vec<u8>, cs: &Vec<Change>)
    requires
        owords(changes_obj(changes_view(cs@))) <= MAX_SEGMENT_WORDS,
    ensures
        final(out)@ == old(out)@ + enc(changes_obj(changes_view(cs@))),
{
    let ghost csv = changes_view(cs@);
    let n = cs.len();
    proof {
        lemma_changes_kids(csv);
        assert(changes_data(csv).len() == n);
    }
    push_word(out, make_struct_ptr(n as u64, 4, 4));
    let body = changes_body_words(cs);
    push_words(out, &body);
    let ghost start = out@;
    let mut j: usize = 0;
    assert(csv.take(0) =~= Seq::<ChangeView>::empty());
    assert(start + enc_kids(changes_kids(csv.take(0))) =~= start);
    while j < n
        invariant
            n == cs@.len(),
            csv == changes_view(cs@),
            j <= n,
            owords(changes_obj(csv)) == 1 + n * 8 + kids_words(changes_kids(csv)),
            owords(changes_obj(csv)) <= MAX_SEGMENT_WORDS,
            out@ == start + enc_kids(changes_kids(csv.take(j as int))),
        decreases n - j,
    {
        proof {
            assert(csv[j as int] == cs@[j as int]@);
            lemma_changes_kids_step(csv, j as int);
            lemma_changes_kids_prefix_le(csv, j as int + 1);
            lemma_kids_words_nonneg(changes_kids(csv.take(j as int)));
            lemma_kids_concat(changes_kids(csv.take(j as int)), change_kids(csv[j as int]));
        }
        write_change_kids(out, &cs[j]);
        proof {
            assert(out@ =~= start + enc_kids(changes_kids(csv.take(j + 1))));
        }
        j = j + 1;
    }
    assert(csv.take(n as int) =~= csv);
    assert(final(out)@ =~= old(out)@ + enc(changes_obj(csv)));
}


pub proof fn lemma_segment_enc(root: Obj)
    ensures
        segment(root) == word_bytes(ptr_word(root, 0)) + enc(root),
{
    lemma_struct_enc(Seq::empty(), seq![root]);
    lemma_kids_one(root);
    assert(seq![root].take(0) =~= Seq::<Obj>::empty());
    assert(ptr_words(seq![root]) =~= seq![ptr_word(root, 0)]);
    lemma_words_bytes_one(ptr_word(root, 0));
    assert(words_bytes(Seq::<u64>::empty()) == Seq::<u8>::empty());
    assert(segment(root) =~= word_bytes(ptr_word(root, 0)) + enc(root));
}

pub proof fn lemma_enc_struct_1_1(a: u64, kid: Obj)
    ensures
        enc(Obj::Struct(seq![a], seq![kid])) == word_bytes(a) + word_bytes(ptr_word(kid, 0)) + enc(kid),
{
    lemma_struct_enc(seq![a], seq![kid]);
    lemma_kids_one(kid);
    assert(seq![kid].take(0) =~= Seq::<Obj>::empty());
    assert(ptr_words(seq![kid]) =~= seq![ptr_word(kid, 0)]);
    lemma_words_bytes_one(a);
    lemma_words_bytes_one(ptr_word(kid, 0));
}

pub proof fn lemma_enc_struct_1_0(a: u64)
    ensures
        enc(Obj::Struct(seq![a], Seq::empty())) == word_bytes(a),
{
    lemma_struct_enc(seq![a], Seq::empty());
    assert(ptr_words(Seq::<Obj>::empty()) =~= Seq::<u64>::empty());
    lemma_words_bytes_one(a);
    assert(enc_kids(Seq::<Obj>::empty()) == Seq::<u8>::empty());
    assert(words_bytes(Seq::<u64>::empty()) == Seq::<u8>::empty());
    assert(word_bytes(a) + Seq::<u8>::empty() + Seq::<u8>::empty() =~= word_bytes(a));
}

pub proof fn lemma_enc_struct_0_2(x: Obj, y: Obj)
    ensures
        enc(Obj::Struct(Seq::empty(), seq![x, y])) == word_bytes(ptr_word(x, 1)) + word_bytes(
            ptr_word(y, owords(x)),
        ) + enc(x) + enc(y),
{
    lemma_struct_enc(Seq::empty(), seq![x, y]);
    lemma_kids_two(x, y);
    lemma_kids_one(x);
    lemma_kids_one(y);
    lemma_kids_concat(seq![x], seq![y]);
    assert(seq![x] + seq![y] =~= seq![x, y]);
    assert(ptr_words(seq![x, y]) =~= seq![ptr_word(x, 1), ptr_word(y, owords(x))]);
    lemma_words_bytes_two(ptr_word(x, 1), ptr_word(y, owords(x)));
    assert(words_bytes(Seq::<u64>::empty()) == Seq::<u8>::empty());
    assert(enc(Obj::Struct(Seq::empty(), seq![x, y])) =~= word_bytes(ptr_word(x, 1)) + word_bytes(
        ptr_word(y, owords(x)),
    ) + enc(x) + enc(y));
}

/// The segment of a request.
pub fn write_request_segment(r: &Request) -> (out: Vec<u8>)
    ensures
        out@ == segment(request_obj(*r)),
{
    let mut out: Vec<u8> = Vec::new();
    proof {
        lemma_segment_enc(request_obj(*r));
    }
    match r {
        Request::Status => {
            proof {
                lemma_enc_struct_1_1(0, Obj::Null);
            }
            push_word(&mut out, make_struct_ptr(0, 1, 1));
            push_word(&mut out, 0);
            push_word(&mut out, 0);
        },
        Request::Changes { since_db_version } => {
            proof {
                lemma_enc_struct_1_1(1, Obj::Struct(seq![*since_db_version as u64], Seq::empty()));
                lemma_enc_struct_1_0(*since_db_version as u64);
            }
            push_word(&mut out, make_struct_ptr(0, 1, 1));
            push_word(&mut out, 1);
            push_word(&mut out, make_struct_ptr(0, 1, 0));
            push_word(&mut out, *since_db_version as u64);
        },
    }
    assert(out@ =~= segment(request_obj(*r)));
    out
}

/// The segment of a status response whose encoding fits a segment.
fn write_status_response(site_id: &Vec<u8>, db_version: i64) -> (out: Vec<u8>)
    requires
        fits(response_obj(ResponseView::Status { site_id: site_id@, db_version })),
    ensures
        out@ == segment(response_obj(ResponseView::Status { site_id: site_id@, db_version })),
{
    let ghost root = response_obj(ResponseView::Status { site_id: site_id@, db_version });
    let ghost b = Obj::Bytes(site_id@);
    let ghost st = Obj::Struct(seq![db_version as u64], seq![b]);
    let mut out: Vec<u8> = Vec::new();
    proof {
        lemma_segment_enc(root);
        lemma_enc_struct_1_1(0, st);
        lemma_enc_struct_1_1(db_version as u64, b);
        lemma_kids_one(st);
        lemma_kids_one(b);
        lemma_owords_nonneg(b);
        lemma_fundamental_div_mod(site_id@.len() as int + 7, 8);
    }
    push_word(&mut out, make_struct_ptr(0, 1, 1));
    push_word(&mut out, 0);
    push_word(&mut out, make_struct_ptr(0, 1, 1));
    push_word(&mut out, db_version as u64);
    push_word(&mut out, make_list_ptr(0, 2, site_id.len() as u64));
    push_bytes_obj(&mut out, site_id.as_slice());
    assert(out@ =~= segment(root));
    out
}

/// The segment of a changes response whose encoding fits a segment.
#[verifier::spinoff_prover]
#[verifier::rlimit(40)]
fn write_changes_response(site_id: &Vec<u8>, changes: &Vec<Change>) -> (out: Vec<u8>)
    requires
        fits(
            response_obj(
                ResponseView::Changes { site_id: site_id@, changes: changes_view(changes@) },
            ),
        ),
    ensures
        out@ == segment(
            response_obj(
                ResponseView::Changes { site_id: site_id@, changes: changes_view(changes@) },
            ),
        ),
{
    let ghost root = response_obj(
        ResponseView::Changes { site_id: site_id@, changes: changes_view(changes@) },
    );
    let ghost b = Obj::Bytes(site_id@);
    let ghost l = changes_obj(changes_view(changes@));
    let ghost c = Obj::Struct(Seq::empty(), seq![b, l]);
    let mut out: Vec<u8> = Vec::new();
    proof {
        lemma_segment_enc(root);
        lemma_enc_struct_1_1(1, c);
        lemma_enc_struct_0_2(b, l);
        lemma_kids_one(c);
        lemma_kids_two(b, l);
        lemma_owords_nonneg(b);
        lemma_owords_nonneg(l);
        lemma_fundamental_div_mod(site_id@.len() as int + 7, 8);
        lemma_changes_kids(changes_view(changes@));
        assert(changes_data(changes_view(changes@)).len() == changes@.len());
    }
    let bw = ((site_id.len() + 7) / 8) as u64;
    push_word(&mut out, make_struct_ptr(0, 1, 1));
    push_word(&mut out, 1);
    push_word(&mut out, make_struct_ptr(0, 0, 2));
    push_word(&mut out, make_list_ptr(1, 2, site_id.len() as u64));
    push_word(&mut out, make_list_ptr(bw, 7, 8 * changes.len() as u64));
    push_bytes_obj(&mut out, site_id.as_slice());
    write_changes(&mut out, changes);
    assert(out@ =~= segment(root));
    out
}

/// The segment of a response whose encoding fits a segment.
pub fn write_response_segment(r: &Response) -> (out: Vec<u8>)
    requires
        fits(response_obj(r@)),
    ensures
        out@ == segment(response_obj(r@)),
{
    match r {
        Response::Status { site_id, db_version } => write_status_response(site_id, *db_version),
        Response::Changes { site_id, changes } => write_changes_response(site_id, changes),
    }
}

/// The segment of a node status whose encoding fits a segment.
pub fn write_node_status_segment(n: &NodeStatus) -> (out: Vec<u8>)
    requires
        fits(node_status_obj(n@)),
    ensures
        out@ == segment(node_status_obj(n@)),
{
    let mut out: Vec<u8> = Vec::new();
    let ghost sb = Obj::Bytes(n.site_id@);
    let ghost db = Obj::Struct(seq![n.db_version as u64], seq![sb]);
    let ghost rb = Obj::Bytes(n.route@);
    proof {
        lemma_segment_enc(node_status_obj(n@));
        lemma_enc_struct_0_2(db, rb);
        lemma_enc_struct_1_1(n.db_version as u64, sb);
        lemma_kids_two(db, rb);
        lemma_kids_one(sb);
        lemma_owords_nonneg(sb);
        lemma_owords_nonneg(db);
        lemma_owords_nonneg(rb);
        lemma_fundamental_div_mod(n.site_id@.len() as int + 7, 8);
        lemma_fundamental_div_mod(n.route@.len() as int + 7, 8);
    }
    let dbw = 2 + ((n.site_id.len() + 7) / 8) as u64;
    push_word(&mut out, make_struct_ptr(0, 0, 2));
    push_word(&mut out, make_struct_ptr(1, 1, 1));
    push_word(&mut out, make_list_ptr(dbw, 2, n.route.len() as u64));
    push_word(&mut out, n.db_version as u64);
    push_word(&mut out, make_list_ptr(0, 2, n.site_id.len() as u64));
    push_bytes_obj(&mut out, n.site_id.as_slice());
    push_bytes_obj(&mut out, n.route.as_slice());
    assert(out@ =~= segment(node_status_obj(n@)));
    out
}


/// Whether the encoding of a response fits a segment.
pub fn response_fits(r: &Response) -> (b: bool)
    ensures
        b == fits(response_obj(r@)),
{
    match r {
        Response::Status { site_id, db_version } => {
            let ghost bo = Obj::Bytes(site_id@);
            let ghost st = Obj::Struct(seq![*db_version as u64], seq![bo]);
            proof {
                lemma_kids_one(st);
                lemma_kids_one(bo);
            }
            match measure_bytes(site_id.len()) {
                None => false,
                Some(w) => 5 + w <= 0x80_0000,
            }
        },
        Response::Changes { site_id, changes } => {
            let ghost bo = Obj::Bytes(site_id@);
            let ghost l = changes_obj(changes_view(changes@));
            let ghost c = Obj::Struct(Seq::empty(), seq![bo, l]);
            proof {
                lemma_kids_one(c);
                lemma_kids_two(bo, l);
                lemma_owords_nonneg(bo);
                lemma_owords_nonneg(l);
            }
            match measure_bytes(site_id.len()) {
                None => false,
                Some(w) => match measure_changes(changes) {
                    None => false,
                    Some(lw) => 5 + w + lw <= 0x80_0000,
                },
            }
        },
    }
}

/// Whether the encoding of a node status fits a segment.
pub fn node_status_fits(n: &NodeStatus) -> (b: bool)
    ensures
        b == fits(node_status_obj(n@)),
{
    let ghost sb = Obj::Bytes(n.site_id@);
    let ghost db = Obj::Struct(seq![n.db_version as u64], seq![sb]);
    let ghost rb = Obj::Bytes(n.route@);
    proof {
        lemma_kids_two(db, rb);
        lemma_kids_one(sb);
        lemma_owords_nonneg(sb);
        lemma_owords_nonneg(rb);
    }
    match measure_bytes(n.site_id.len()) {
        None => false,
        Some(sw) => match measure_bytes(n.route.len()) {
            None => false,
            Some(rw) => 5 + sw + rw <= 0x80_0000,
        },
    }
}

} // verus!
