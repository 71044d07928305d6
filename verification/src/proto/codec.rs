//! Messages exchanged between peers and their encoding as framed
//! Cap'n Proto messages.
use vstd::prelude::*;
use vstd::utf8::*;
use super::framing::{
    framed, framed_ok, framed_flat, framed_ends, framed_segment, seg_count, seg_offset, table_bytes,
    lemma_seg_offset_mono, write_framed, read_framed,
};
use super::encode::{write_request_segment, write_response_segment, write_node_status_segment, response_fits, node_status_fits};
use super::layout::{
    Obj, ListLoc, Loc, enc, owords, text_bytes, seg_words, read_struct, read_text, read_data,
    read_struct_list, field_disc, field_word, field_ptr, elem_loc, at_valid, loc_valid,
    follow_struct, charge_data, charge_text, follow_struct_list, get_field_word, get_field_ptr,
    take_struct, take_data, take_text, take_list,
    get_elem_loc, lemma_field_ptr_valid, ends_wf, single,
};

verus! {

/// Why a message could not be encoded or decoded.
#[derive(Debug, Clone, Copy, PartialEq, Eq)]
pub enum Error {
    /// The framing or the pointer structure of the message is invalid, or
    /// the message is too large.
    Capnp,
    /// A union discriminant that the schema does not define.
    NotInSchema(u16),
    /// A text field that is not valid UTF-8.
    Utf8,
}

/// A request sent to a peer.
#[derive(Debug, Clone, Copy, PartialEq, Eq)]
pub enum Request {
    /// Ask for the peer's site id and database version.
    Status,
    /// Ask for the peer's own changes newer than a database version.
    Changes { since_db_version: i64 },
}

/// A column value of a change. `Real` holds the IEEE 754 bits of the value.
#[derive(Debug, Clone, PartialEq, Eq)]
pub enum Value {
    Null,
    Integer(i64),
    Real(u64),
    Text(String),
    Blob(Vec<u8>),
}

pub enum ValueView {
    Null,
    Integer(i64),
    Real(u64),
    Text(Seq<char>),
    Blob(Seq<u8>),
}

impl View for Value {
    type V = ValueView;

    open spec fn view(&self) -> ValueView {
        match self {
            Value::Null => ValueView::Null,
            Value::Integer(i) => ValueView::Integer(*i),
            Value::Real(r) => ValueView::Real(*r),
            Value::Text(t) => ValueView::Text(t@),
            Value::Blob(b) => ValueView::Blob(b@),
        }
    }
}

/// One changed cell of a conflict-free replicated table.
#[derive(Debug, Clone, PartialEq, Eq)]
pub struct Change {
    pub table: String,
    pub pk: Vec<u8>,
    pub cid: String,
    pub val: Value,
    pub col_version: i64,
    pub db_version: i64,
    pub cl: i64,
    pub seq: i64,
}

pub struct ChangeView {
    pub table: Seq<char>,
    pub pk: Seq<u8>,
    pub cid: Seq<char>,
    pub val: ValueView,
    pub col_version: i64,
    pub db_version: i64,
    pub cl: i64,
    pub seq: i64,
}

impl View for Change {
    type V = ChangeView;

    open spec fn view(&self) -> ChangeView {
        ChangeView {
            table: self.table@,
            pk: self.pk@,
            cid: self.cid@,
            val: self.val@,
            col_version: self.col_version,
            db_version: self.db_version,
            cl: self.cl,
            seq: self.seq,
        }
    }
}

/// The views of a sequence of changes.
pub open spec fn changes_view(cs: Seq<Change>) -> Seq<ChangeView> {
    cs.map_values(|c: Change| c@)
}

/// A peer's answer to a request.
#[derive(Debug, Clone, PartialEq, Eq)]
pub enum Response {
    Status { site_id: Vec<u8>, db_version: i64 },
    Changes { site_id: Vec<u8>, changes: Vec<Change> },
}

pub enum ResponseView {
    Status { site_id: Seq<u8>, db_version: i64 },
    Changes { site_id: Seq<u8>, changes: Seq<ChangeView> },
}

impl View for Response {
    type V = ResponseView;

    open spec fn view(&self) -> ResponseView {
        match self {
            Response::Status { site_id, db_version } => ResponseView::Status {
                site_id: site_id@,
                db_version: *db_version,
            },
            Response::Changes { site_id, changes } => ResponseView::Changes {
                site_id: site_id@,
                changes: changes_view(changes@),
            },
        }
    }
}

/// What a node publishes about itself: its database and how to reach it.
#[derive(Debug, Clone, PartialEq, Eq)]
pub struct NodeStatus {
    pub site_id: Vec<u8>,
    pub db_version: i64,
    pub route: Vec<u8>,
}

pub struct NodeStatusView {
    pub site_id: Seq<u8>,
    pub db_version: i64,
    pub route: Seq<u8>,
}

impl View for NodeStatus {
    type V = NodeStatusView;

    open spec fn view(&self) -> NodeStatusView {
        NodeStatusView { site_id: self.site_id@, db_version: self.db_version, route: self.route@ }
    }
}

// ---------------------------------------------------------------------------
// Schema: the object tree of each message
// ---------------------------------------------------------------------------
/// Largest segment, in words, that a reader accepts (the default traversal
/// limit of Cap'n Proto readers).
pub const MAX_SEGMENT_WORDS: u64 = 0x80_0000;

pub open spec fn text_obj(s: Seq<char>) -> Obj {
    Obj::Bytes(text_bytes(s))
}

pub open spec fn value_disc(v: ValueView) -> u64 {
    match v {
        ValueView::Null => 0,
        ValueView::Integer(_) => 1,
        ValueView::Real(_) => 2,
        ValueView::Text(_) => 3,
        ValueView::Blob(_) => 4,
    }
}

pub open spec fn value_payload(v: ValueView) -> u64 {
    match v {
        ValueView::Integer(i) => i as u64,
        ValueView::Real(r) => r,
        _ => 0,
    }
}

pub open spec fn value_kid(v: ValueView) -> Obj {
    match v {
        ValueView::Text(s) => text_obj(s),
        ValueView::Blob(b) => Obj::Bytes(b),
        _ => Obj::Null,
    }
}

/// `struct ChangeValue { union { null; integer :Int64; real :Float64; text :Text; blob :Data } }`
pub open spec fn value_obj(v: ValueView) -> Obj {
    Obj::Struct(seq![value_disc(v), value_payload(v)], seq![value_kid(v)])
}

pub open spec fn change_data(c: ChangeView) -> Seq<u64> {
    seq![c.col_version as u64, c.db_version as u64, c.cl as u64, c.seq as u64]
}

pub open spec fn change_kids(c: ChangeView) -> Seq<Obj> {
    seq![text_obj(c.table), Obj::Bytes(c.pk), text_obj(c.cid), value_obj(c.val)]
}

pub open spec fn changes_data(cs: Seq<ChangeView>) -> Seq<Seq<u64>> {
    cs.map_values(|c: ChangeView| change_data(c))
}

pub open spec fn changes_kids(cs: Seq<ChangeView>) -> Seq<Obj>
    decreases cs.len(),
{
    if cs.len() == 0 {
        Seq::empty()
    } else {
        changes_kids(cs.drop_last()) + change_kids(cs.last())
    }
}

/// `List(Change)` where `struct Change { table :Text; pk :Data; cid :Text;
/// val :ChangeValue; colVersion, dbVersion, cl, seq :Int64 }`
pub open spec fn changes_obj(cs: Seq<ChangeView>) -> Obj {
    Obj::List(4, 4, changes_data(cs), changes_kids(cs))
}

/// `struct Request { union { status :Void; changes :ChangesRequest } }`,
/// `struct ChangesRequest { sinceVersion :Int64 }`
pub open spec fn request_obj(r: Request) -> Obj {
    match r {
        Request::Status => Obj::Struct(seq![0u64], seq![Obj::Null]),
        Request::Changes { since_db_version } => Obj::Struct(
            seq![1u64],
            seq![Obj::Struct(seq![since_db_version as u64], Seq::empty())],
        ),
    }
}

/// `struct Response { union { status :StatusResponse; changes :ChangesResponse } }`,
/// `struct StatusResponse { siteId :Data; dbVersion :Int64 }`,
/// `struct ChangesResponse { siteId :Data; changes :List(Change) }`
pub open spec fn response_obj(r: ResponseView) -> Obj {
    match r {
        ResponseView::Status { site_id, db_version } => Obj::Struct(
            seq![0u64],
            seq![Obj::Struct(seq![db_version as u64], seq![Obj::Bytes(site_id)])],
        ),
        ResponseView::Changes { site_id, changes } => Obj::Struct(
            seq![1u64],
            seq![Obj::Struct(Seq::empty(), seq![Obj::Bytes(site_id), changes_obj(changes)])],
        ),
    }
}

/// `struct NodeStatus { db :DbStatus; route :Data }`,
/// `struct DbStatus { siteId :Data; dbVersion :Int64 }`
pub open spec fn node_status_obj(n: NodeStatusView) -> Obj {
    Obj::Struct(
        Seq::empty(),
        seq![Obj::Struct(seq![n.db_version as u64], seq![Obj::Bytes(n.site_id)]), Obj::Bytes(n.route)],
    )
}

/// The segment of a message: the root pointer, then the root object.
pub open spec fn segment(root: Obj) -> Seq<u8> {
    enc(Obj::Struct(Seq::empty(), seq![root]))
}

/// Whether a message whose root is `root` fits a segment that readers accept.
pub open spec fn fits(root: Obj) -> bool {
    1 + owords(root) <= MAX_SEGMENT_WORDS
}

// ---------------------------------------------------------------------------
// Decoding a segment
// ---------------------------------------------------------------------------
/// The root struct of a message, within a read limit: reading the root
/// pointer charges one word.
pub open spec fn read_root(seg: Seq<u8>, ends: Seq<usize>) -> Result<(Loc, int), Error> {
    if ends[0] < 1 {
        Err(Error::Capnp)
    } else {
        take_struct(seg, ends, Some(0usize), MAX_SEGMENT_WORDS - 1)
    }
}

pub open spec fn dec_value(seg: Seq<u8>, ends: Seq<usize>, at: Option<usize>, budget: int) -> Result<(ValueView, int), Error> {
    match take_struct(seg, ends, at, budget) {
        Err(e) => Err(e),
        Ok((l, b)) => {
            let disc = field_disc(seg, l);
            if disc == 0 {
                Ok((ValueView::Null, b))
            } else if disc == 1 {
                Ok((ValueView::Integer(field_word(seg, l, 1) as i64), b))
            } else if disc == 2 {
                Ok((ValueView::Real(field_word(seg, l, 1)), b))
            } else if disc == 3 {
                match take_text(seg, ends, field_ptr(l, 0), b) {
                    Err(e) => Err(e),
                    Ok((s, b2)) => Ok((ValueView::Text(s), b2)),
                }
            } else if disc == 4 {
                match take_data(seg, ends, field_ptr(l, 0), b) {
                    Err(e) => Err(e),
                    Ok((d, b2)) => Ok((ValueView::Blob(d), b2)),
                }
            } else {
                Err(Error::NotInSchema(disc))
            }
        },
    }
}

#[verifier::opaque]
pub open spec fn dec_change(seg: Seq<u8>, ends: Seq<usize>, l: Loc, budget: int) -> Result<(ChangeView, int), Error> {
    match take_text(seg, ends, field_ptr(l, 0), budget) {
        Err(e) => Err(e),
        Ok((table, b1)) => match take_data(seg, ends, field_ptr(l, 1), b1) {
            Err(e) => Err(e),
            Ok((pk, b2)) => match take_text(seg, ends, field_ptr(l, 2), b2) {
                Err(e) => Err(e),
                Ok((cid, b3)) => match dec_value(seg, ends, field_ptr(l, 3), b3) {
                    Err(e) => Err(e),
                    Ok((val, b4)) => Ok(
                        (
                            ChangeView {
                                table,
                                pk,
                                cid,
                                val,
                                col_version: field_word(seg, l, 0) as i64,
                                db_version: field_word(seg, l, 1) as i64,
                                cl: field_word(seg, l, 2) as i64,
                                seq: field_word(seg, l, 3) as i64,
                            },
                            b4,
                        ),
                    ),
                },
            },
        },
    }
}

/// The first `n` elements of a list of changes, or the first error among them.
pub open spec fn dec_changes(seg: Seq<u8>, ends: Seq<usize>, ll: ListLoc, n: int, budget: int) -> Result<(Seq<ChangeView>, int), Error>
    decreases n,
{
    if n <= 0 {
        Ok((Seq::empty(), budget))
    } else {
        match dec_changes(seg, ends, ll, n - 1, budget) {
            Err(e) => Err(e),
            Ok((prev, b)) => match dec_change(seg, ends, elem_loc(ll, n - 1), b) {
                Err(e) => Err(e),
                Ok((c, b2)) => Ok((prev.push(c), b2)),
            },
        }
    }
}

pub open spec fn dec_change_list(seg: Seq<u8>, ends: Seq<usize>, at: Option<usize>, budget: int) -> Result<(Seq<ChangeView>, int), Error> {
    match take_list(seg, ends, at, budget) {
        Err(e) => Err(e),
        Ok((ll, b)) => dec_changes(seg, ends, ll, ll.count as int, b),
    }
}

pub open spec fn dec_request(seg: Seq<u8>, ends: Seq<usize>) -> Result<Request, Error> {
    match read_root(seg, ends) {
        Err(e) => Err(e),
        Ok((l, b)) => {
            let disc = field_disc(seg, l);
            if disc == 0 {
                Ok(Request::Status)
            } else if disc == 1 {
                match take_struct(seg, ends, field_ptr(l, 0), b) {
                    Err(e) => Err(e),
                    Ok((c, _)) => Ok(Request::Changes { since_db_version: field_word(seg, c, 0) as i64 }),
                }
            } else {
                Err(Error::NotInSchema(disc))
            }
        },
    }
}

pub open spec fn dec_response(seg: Seq<u8>, ends: Seq<usize>) -> Result<ResponseView, Error> {
    match read_root(seg, ends) {
        Err(e) => Err(e),
        Ok((l, b)) => {
            let disc = field_disc(seg, l);
            if disc == 0 {
                match take_struct(seg, ends, field_ptr(l, 0), b) {
                    Err(e) => Err(e),
                    Ok((s, b2)) => match take_data(seg, ends, field_ptr(s, 0), b2) {
                        Err(e) => Err(e),
                        Ok((site_id, _)) => Ok(
                            ResponseView::Status { site_id, db_version: field_word(seg, s, 0) as i64 },
                        ),
                    },
                }
            } else if disc == 1 {
                match take_struct(seg, ends, field_ptr(l, 0), b) {
                    Err(e) => Err(e),
                    Ok((c, b2)) => match dec_change_list(seg, ends, field_ptr(c, 1), b2) {
                        Err(e) => Err(e),
                        Ok((changes, b3)) => match take_data(seg, ends, field_ptr(c, 0), b3) {
                            Err(e) => Err(e),
                            Ok((site_id, _)) => Ok(ResponseView::Changes { site_id, changes }),
                        },
                    },
                }
            } else {
                Err(Error::NotInSchema(disc))
            }
        },
    }
}

pub open spec fn dec_node_status(seg: Seq<u8>, ends: Seq<usize>) -> Result<NodeStatusView, Error> {
    match read_root(seg, ends) {
        Err(e) => Err(e),
        Ok((l, b)) => match take_struct(seg, ends, field_ptr(l, 0), b) {
            Err(e) => Err(e),
            Ok((db, b2)) => match take_data(seg, ends, field_ptr(db, 0), b2) {
                Err(e) => Err(e),
                Ok((site_id, b3)) => match take_data(seg, ends, field_ptr(l, 1), b3) {
                    Err(e) => Err(e),
                    Ok((route, _)) => Ok(
                        NodeStatusView { site_id, db_version: field_word(seg, db, 0) as i64, route },
                    ),
                },
            },
        },
    }
}


// ---------------------------------------------------------------------------
// Executable decoding of a segment
// ---------------------------------------------------------------------------
/// Follows a struct pointer within a read limit (see `take_struct`).
fn charge_struct(seg: &[u8], ends: &[usize], at: Option<usize>, budget: u64) -> (r: Result<(Loc, u64), Error>)
    requires
        at_valid(seg@, at),
        ends_wf(seg@, ends@),
    ensures
        match r {
            Ok((l, b)) => take_struct(seg@, ends@, at, budget as int) == Ok::<(Loc, int), Error>((l, b as int))
                && loc_valid(seg@, l),
            Err(e) => take_struct(seg@, ends@, at, budget as int) == Err::<(Loc, int), Error>(e),
        },
{
    match follow_struct(seg, ends, at) {
        Err(e) => Err(e),
        Ok((l, c)) => if c > budget {
            Err(Error::Capnp)
        } else {
            Ok((l, budget - c))
        },
    }
}

fn decode_root(seg: &[u8], ends: &[usize]) -> (r: Result<(Loc, u64), Error>)
    requires
        ends_wf(seg@, ends@),
    ensures
        match r {
            Ok((l, b)) => read_root(seg@, ends@) == Ok::<(Loc, int), Error>((l, b as int)) && loc_valid(seg@, l),
            Err(e) => read_root(seg@, ends@) == Err::<(Loc, int), Error>(e),
        },
{
    if ends[0] < 1 {
        Err(Error::Capnp)
    } else {
        proof {
            assert(ends@[0] <= ends@.last());
        }
        charge_struct(seg, ends, Some(0), MAX_SEGMENT_WORDS - 1)
    }
}

fn get_disc(seg: &[u8], l: Loc) -> (d: u16)
    requires
        loc_valid(seg@, l),
    ensures
        d == field_disc(seg@, l),
{
    (get_field_word(seg, l, 0) % 0x10000) as u16
}

fn decode_value(seg: &[u8], ends: &[usize], at: Option<usize>, budget: u64) -> (r: Result<(Value, u64), Error>)
    requires
        ends_wf(seg@, ends@),
        at_valid(seg@, at),
    ensures
        match r {
            Ok((v, b)) => dec_value(seg@, ends@, at, budget as int) == Ok::<(ValueView, int), Error>((v@, b as int)),
            Err(e) => dec_value(seg@, ends@, at, budget as int) == Err::<(ValueView, int), Error>(e),
        },
{
    let _len = seg.len();
    let (l, b) = match charge_struct(seg, ends, at, budget) {
        Err(e) => return Err(e),
        Ok(x) => x,
    };
    proof {
        lemma_field_ptr_valid(seg@, l, 0);
    }
    let disc = get_disc(seg, l);
    if disc == 0 {
        Ok((Value::Null, b))
    } else if disc == 1 {
        Ok((Value::Integer(get_field_word(seg, l, 1) as i64), b))
    } else if disc == 2 {
        Ok((Value::Real(get_field_word(seg, l, 1)), b))
    } else if disc == 3 {
        match charge_text(seg, ends, get_field_ptr(l, 0), b) {
            Err(e) => Err(e),
            Ok((s, b2)) => Ok((Value::Text(s), b2)),
        }
    } else if disc == 4 {
        match charge_data(seg, ends, get_field_ptr(l, 0), b) {
            Err(e) => Err(e),
            Ok((d, b2)) => Ok((Value::Blob(d), b2)),
        }
    } else {
        Err(Error::NotInSchema(disc))
    }
}

fn decode_change(seg: &[u8], ends: &[usize], l: Loc, budget: u64) -> (r: Result<(Change, u64), Error>)
    requires
        ends_wf(seg@, ends@),
        loc_valid(seg@, l),
    ensures
        match r {
            Ok((c, b)) => dec_change(seg@, ends@, l, budget as int) == Ok::<(ChangeView, int), Error>((c@, b as int)),
            Err(e) => dec_change(seg@, ends@, l, budget as int) == Err::<(ChangeView, int), Error>(e),
        },
{
    reveal(dec_change);
    let _len = seg.len();
    proof {
        lemma_field_ptr_valid(seg@, l, 0);
        lemma_field_ptr_valid(seg@, l, 1);
        lemma_field_ptr_valid(seg@, l, 2);
        lemma_field_ptr_valid(seg@, l, 3);
    }
    let (table, b1) = match charge_text(seg, ends, get_field_ptr(l, 0), budget) {
        Err(e) => return Err(e),
        Ok(x) => x,
    };
    let (pk, b2) = match charge_data(seg, ends, get_field_ptr(l, 1), b1) {
        Err(e) => return Err(e),
        Ok(x) => x,
    };
    let (cid, b3) = match charge_text(seg, ends, get_field_ptr(l, 2), b2) {
        Err(e) => return Err(e),
        Ok(x) => x,
    };
    let (val, b4) = match decode_value(seg, ends, get_field_ptr(l, 3), b3) {
        Err(e) => return Err(e),
        Ok(x) => x,
    };
    Ok(
        (
            Change {
                table,
                pk,
                cid,
                val,
                col_version: get_field_word(seg, l, 0) as i64,
                db_version: get_field_word(seg, l, 1) as i64,
                cl: get_field_word(seg, l, 2) as i64,
                seq: get_field_word(seg, l, 3) as i64,
            },
            b4,
        ),
    )
}

pub proof fn lemma_dec_changes_err(seg: Seq<u8>, ends: Seq<usize>, ll: ListLoc, j: int, m: int, budget: int)
    requires
        0 <= j <= m,
        dec_changes(seg, ends, ll, j, budget) is Err,
    ensures
        dec_changes(seg, ends, ll, m, budget) == dec_changes(seg, ends, ll, j, budget),
    decreases m - j,
{
    if j < m {
        lemma_dec_changes_err(seg, ends, ll, j, m - 1, budget);
    }
}

/// The view of a change read within a read limit.
pub open spec fn change_result(r: Result<(Change, u64), Error>) -> Result<(ChangeView, int), Error> {
    match r {
        Ok((c, b)) => Ok((c@, b as int)),
        Err(e) => Err(e),
    }
}

/// One more change read after the first `j`.
pub proof fn lemma_dec_changes_next(
    seg: Seq<u8>,
    ends: Seq<usize>,
    ll: ListLoc,
    j: int,
    budget: int,
    prev: Seq<ChangeView>,
    b: int,
    r: Result<(ChangeView, int), Error>,
)
    requires
        0 <= j,
        dec_changes(seg, ends, ll, j, budget) == Ok::<(Seq<ChangeView>, int), Error>((prev, b)),
        dec_change(seg, ends, elem_loc(ll, j), b) == r,
    ensures
        match r {
            Ok((c, b2)) => dec_changes(seg, ends, ll, j + 1, budget) == Ok::<(Seq<ChangeView>, int), Error>(
                (prev.push(c), b2),
            ),
            Err(e) => dec_changes(seg, ends, ll, j + 1, budget) == Err::<(Seq<ChangeView>, int), Error>(e),
        },
{
}

#[verifier::spinoff_prover]
#[verifier::rlimit(60)]
fn decode_change_list(seg: &[u8], ends: &[usize], at: Option<usize>, budget: u64) -> (r: Result<(Vec<Change>, u64), Error>)
    requires
        ends_wf(seg@, ends@),
        at_valid(seg@, at),
    ensures
        match r {
            Ok((cs, b)) => dec_change_list(seg@, ends@, at, budget as int) == Ok::<(Seq<ChangeView>, int), Error>(
                (changes_view(cs@), b as int),
            ),
            Err(e) => dec_change_list(seg@, ends@, at, budget as int) == Err::<(Seq<ChangeView>, int), Error>(e),
        },
{
    let (ll, c) = match follow_struct_list(seg, ends, at) {
        Err(e) => return Err(e),
        Ok(x) => x,
    };
    if c > budget {
        return Err(Error::Capnp);
    }
    let b0 = budget - c;
    let mut b = b0;
    let mut out: Vec<Change> = Vec::new();
    let mut j: usize = 0;
    assert(changes_view(out@) =~= Seq::<ChangeView>::empty());
    while j < ll.count
        invariant
            ends_wf(seg@, ends@),
            take_list(seg@, ends@, at, budget as int) == Ok::<(ListLoc, int), Error>((ll, b0 as int)),
            ll.first + ll.count * (ll.data + ll.ptrs) <= seg_words(seg@),
            j <= ll.count,
            dec_changes(seg@, ends@, ll, j as int, b0 as int) == Ok::<(Seq<ChangeView>, int), Error>(
                (changes_view(out@), b as int),
            ),
        decreases ll.count - j,
    {
        let l = get_elem_loc(seg, ll, j);
        let r = decode_change(seg, ends, l, b);
        proof {
            lemma_dec_changes_next(seg@, ends@, ll, j as int, b0 as int, changes_view(out@), b as int, change_result(r));
        }
        match r {
            Err(e) => {
                proof {
                    lemma_dec_changes_err(seg@, ends@, ll, j + 1, ll.count as int, b0 as int);
                }
                return Err(e);
            },
            Ok((ch, b2)) => {
                proof {
                    assert(changes_view(out@.push(ch)) =~= changes_view(out@).push(ch@));
                }
                out.push(ch);
                b = b2;
            },
        }
        j = j + 1;
    }
    Ok((out, b))
}

fn decode_request_segment(seg: &[u8], ends: &[usize]) -> (r: Result<Request, Error>)
    requires
        ends_wf(seg@, ends@),
    ensures
        r == dec_request(seg@, ends@),
{
    let (l, b) = match decode_root(seg, ends) {
        Err(e) => return Err(e),
        Ok(x) => x,
    };
    let _len = seg.len();
    proof {
        lemma_field_ptr_valid(seg@, l, 0);
    }
    let disc = get_disc(seg, l);
    if disc == 0 {
        Ok(Request::Status)
    } else if disc == 1 {
        match charge_struct(seg, ends, get_field_ptr(l, 0), b) {
            Err(e) => Err(e),
            Ok((c, _)) => Ok(Request::Changes { since_db_version: get_field_word(seg, c, 0) as i64 }),
        }
    } else {
        Err(Error::NotInSchema(disc))
    }
}

fn decode_response_segment(seg: &[u8], ends: &[usize]) -> (r: Result<Response, Error>)
    requires
        ends_wf(seg@, ends@),
    ensures
        match r {
            Ok(v) => dec_response(seg@, ends@) == Ok::<ResponseView, Error>(v@),
            Err(e) => dec_response(seg@, ends@) == Err::<ResponseView, Error>(e),
        },
{
    let (l, b) = match decode_root(seg, ends) {
        Err(e) => return Err(e),
        Ok(x) => x,
    };
    let _len = seg.len();
    proof {
        lemma_field_ptr_valid(seg@, l, 0);
    }
    let disc = get_disc(seg, l);
    if disc == 0 {
        let (s, b2) = match charge_struct(seg, ends, get_field_ptr(l, 0), b) {
            Err(e) => return Err(e),
            Ok(x) => x,
        };
        proof {
            lemma_field_ptr_valid(seg@, s, 0);
        }
        match charge_data(seg, ends, get_field_ptr(s, 0), b2) {
            Err(e) => Err(e),
            Ok((site_id, _)) => Ok(
                Response::Status { site_id, db_version: get_field_word(seg, s, 0) as i64 },
            ),
        }
    } else if disc == 1 {
        let (c, b2) = match charge_struct(seg, ends, get_field_ptr(l, 0), b) {
            Err(e) => return Err(e),
            Ok(x) => x,
        };
        proof {
            lemma_field_ptr_valid(seg@, c, 0);
            lemma_field_ptr_valid(seg@, c, 1);
        }
        let (changes, b3) = match decode_change_list(seg, ends, get_field_ptr(c, 1), b2) {
            Err(e) => return Err(e),
            Ok(x) => x,
        };
        match charge_data(seg, ends, get_field_ptr(c, 0), b3) {
            Err(e) => Err(e),
            Ok((site_id, _)) => Ok(Response::Changes { site_id, changes }),
        }
    } else {
        Err(Error::NotInSchema(disc))
    }
}

fn decode_node_status_segment(seg: &[u8], ends: &[usize]) -> (r: Result<NodeStatus, Error>)
    requires
        ends_wf(seg@, ends@),
    ensures
        match r {
            Ok(v) => dec_node_status(seg@, ends@) == Ok::<NodeStatusView, Error>(v@),
            Err(e) => dec_node_status(seg@, ends@) == Err::<NodeStatusView, Error>(e),
        },
{
    let (l, b) = match decode_root(seg, ends) {
        Err(e) => return Err(e),
        Ok(x) => x,
    };
    let _len = seg.len();
    proof {
        lemma_field_ptr_valid(seg@, l, 0);
        lemma_field_ptr_valid(seg@, l, 1);
    }
    let (db, b2) = match charge_struct(seg, ends, get_field_ptr(l, 0), b) {
        Err(e) => return Err(e),
        Ok(x) => x,
    };
    proof {
        lemma_field_ptr_valid(seg@, db, 0);
    }
    let (site_id, b3) = match charge_data(seg, ends, get_field_ptr(db, 0), b2) {
        Err(e) => return Err(e),
        Ok(x) => x,
    };
    match charge_data(seg, ends, get_field_ptr(l, 1), b3) {
        Err(e) => Err(e),
        Ok((route, _)) => Ok(
            NodeStatus { site_id, db_version: get_field_word(seg, db, 0) as i64, route },
        ),
    }
}


// ---------------------------------------------------------------------------
// Messages
// ---------------------------------------------------------------------------
/// The framed message whose root object is `root`.
pub open spec fn message(root: Obj) -> Seq<u8> {
    framed(segment(root))
}

/// What decoding a framed message as a request gives.
pub open spec fn request_from(m: Seq<u8>) -> Result<Request, Error> {
    if framed_ok(m) {
        dec_request(framed_flat(m), framed_ends(m))
    } else {
        Err(Error::Capnp)
    }
}

/// What decoding a framed message as a response gives.
pub open spec fn response_from(m: Seq<u8>) -> Result<ResponseView, Error> {
    if framed_ok(m) {
        dec_response(framed_flat(m), framed_ends(m))
    } else {
        Err(Error::Capnp)
    }
}

/// What decoding a framed message as a node status gives.
pub open spec fn node_status_from(m: Seq<u8>) -> Result<NodeStatusView, Error> {
    if framed_ok(m) {
        dec_node_status(framed_flat(m), framed_ends(m))
    } else {
        Err(Error::Capnp)
    }
}

/// The segments of a framed message one after the other, and where each
/// ends.
fn flatten(segs: &Vec<Vec<u8>>, Ghost(m): Ghost<Seq<u8>>) -> (r: (Vec<u8>, Vec<usize>))
    requires
        framed_ok(m),
        segs@.len() == seg_count(m),
        forall|i: int| 0 <= i < segs@.len() ==> #[trigger] segs@[i]@ == framed_segment(m, i),
    ensures
        r.0@ == framed_flat(m),
        r.1@ == framed_ends(m),
        ends_wf(r.0@, r.1@),
{
    let ghost t = table_bytes(m);
    let ghost n = seg_count(m);
    let mut flat: Vec<u8> = Vec::new();
    let mut ends: Vec<usize> = Vec::new();
    let mut i: usize = 0;
    proof {
        lemma_seg_offset_mono(m, 0, n);
    }
    assert(m.subrange(t, t + 8 * seg_offset(m, 0)) =~= flat@);
    while i < segs.len()
        invariant
            framed_ok(m),
            t == table_bytes(m),
            n == seg_count(m),
            segs@.len() == n,
            forall|k: int| 0 <= k < segs@.len() ==> #[trigger] segs@[k]@ == framed_segment(m, k),
            i <= n,
            flat@ == m.subrange(t, t + 8 * seg_offset(m, i as int)),
            ends@ == Seq::new(i as nat, |k: int| seg_offset(m, k + 1) as usize),
        decreases n - i,
    {
        proof {
            lemma_seg_offset_mono(m, 0, i as int);
            lemma_seg_offset_mono(m, i as int, i as int + 1);
            lemma_seg_offset_mono(m, i as int + 1, n);
            assert(segs@[i as int]@ == framed_segment(m, i as int));
            assert(m.subrange(t, t + 8 * seg_offset(m, i as int)) + framed_segment(m, i as int)
                =~= m.subrange(t, t + 8 * seg_offset(m, i as int + 1)));
        }
        let seg = &segs[i];
        let mut k: usize = 0;
        let ghost before = flat@;
        while k < seg.len()
            invariant
                k <= seg@.len(),
                flat@ == before + seg@.take(k as int),
            decreases seg@.len() - k,
        {
            flat.push(seg[k]);
            k = k + 1;
            assert(flat@ =~= before + seg@.take(k as int));
        }
        assert(seg@.take(seg@.len() as int) =~= seg@);
        assert(flat@ =~= m.subrange(t, t + 8 * seg_offset(m, i as int + 1)));
        let end = flat.len() / 8;
        assert(8 * seg_offset(m, i as int + 1) == flat@.len());
        ends.push(end);
        i = i + 1;
        assert(ends@ =~= Seq::new(i as nat, |k: int| seg_offset(m, k + 1) as usize));
    }
    proof {
        assert(ends@ =~= framed_ends(m));
        assert forall|a: int, b: int| 0 <= a <= b < ends@.len() implies ends@[a] <= ends@[b] by {
            lemma_seg_offset_mono(m, 0, a + 1);
            lemma_seg_offset_mono(m, a + 1, b + 1);
            lemma_seg_offset_mono(m, b + 1, n);
            assert(ends@[a] == seg_offset(m, a + 1) as usize);
            assert(ends@[b] == seg_offset(m, b + 1) as usize);
        }
        assert(ends@[n - 1] == seg_offset(m, n) as usize);
        lemma_seg_offset_mono(m, n, n);
    }
    (flat, ends)
}

/// A value that can be written as a message.
pub trait Encodable {
    /// The message that encodes the value; none where it would not fit a
    /// segment that readers accept.
    spec fn encoding(&self) -> Option<Seq<u8>>;

    fn encode(&self) -> (r: Result<Vec<u8>, Error>)
        ensures
            match self.encoding() {
                Some(m) => r matches Ok(b) && b@ == m,
                None => r == Err::<Vec<u8>, Error>(Error::Capnp),
            },
    ;
}

/// A value that can be read from a message.
pub trait Decodable: Sized {
    /// Whether `r` is what decoding `message` gives.
    spec fn decodes(message: Seq<u8>, r: Result<Self, Error>) -> bool;

    fn decode(message: &[u8]) -> (r: Result<Self, Error>)
        ensures
            Self::decodes(message@, r),
    ;
}

pub proof fn lemma_segment_len(root: Obj)
    requires
        fits(root),
    ensures
        segment(root).len() == 8 * (1 + owords(root)),
        segment(root).len() % 8 == 0,
        segment(root).len() / 8 <= u32::MAX,
{
    super::layout::lemma_enc_len(Obj::Struct(Seq::empty(), seq![root]));
    super::roundtrip::lemma_kids_one(root);
    super::layout::lemma_owords_nonneg(root);
}

impl Encodable for Request {
    open spec fn encoding(&self) -> Option<Seq<u8>> {
        Some(message(request_obj(*self)))
    }

    fn encode(&self) -> (r: Result<Vec<u8>, Error>) {
        let seg = write_request_segment(self);
        proof {
            super::roundtrip::lemma_request_obj(*self);
            lemma_segment_len(request_obj(*self));
        }
        Ok(write_framed(seg.as_slice()))
    }
}

impl Encodable for Response {
    open spec fn encoding(&self) -> Option<Seq<u8>> {
        if fits(response_obj(self@)) {
            Some(message(response_obj(self@)))
        } else {
            None
        }
    }

    fn encode(&self) -> (r: Result<Vec<u8>, Error>) {
        if !response_fits(self) {
            return Err(Error::Capnp);
        }
        let seg = write_response_segment(self);
        proof {
            lemma_segment_len(response_obj(self@));
        }
        Ok(write_framed(seg.as_slice()))
    }
}

impl Encodable for NodeStatus {
    open spec fn encoding(&self) -> Option<Seq<u8>> {
        if fits(node_status_obj(self@)) {
            Some(message(node_status_obj(self@)))
        } else {
            None
        }
    }

    fn encode(&self) -> (r: Result<Vec<u8>, Error>) {
        if !node_status_fits(self) {
            return Err(Error::Capnp);
        }
        let seg = write_node_status_segment(self);
        proof {
            lemma_segment_len(node_status_obj(self@));
        }
        Ok(write_framed(seg.as_slice()))
    }
}

impl Decodable for Request {
    open spec fn decodes(message: Seq<u8>, r: Result<Request, Error>) -> bool {
        r == request_from(message)
    }

    fn decode(message: &[u8]) -> (r: Result<Request, Error>) {
        match read_framed(message) {
            Err(_) => Err(Error::Capnp),
            Ok(segs) => {
                let (flat, ends) = flatten(&segs, Ghost(message@));
                decode_request_segment(flat.as_slice(), ends.as_slice())
            },
        }
    }
}

impl Decodable for Response {
    open spec fn decodes(message: Seq<u8>, r: Result<Response, Error>) -> bool {
        match r {
            Ok(v) => response_from(message) == Ok::<ResponseView, Error>(v@),
            Err(e) => response_from(message) == Err::<ResponseView, Error>(e),
        }
    }

    fn decode(message: &[u8]) -> (r: Result<Response, Error>) {
        match read_framed(message) {
            Err(_) => Err(Error::Capnp),
            Ok(segs) => {
                let (flat, ends) = flatten(&segs, Ghost(message@));
                decode_response_segment(flat.as_slice(), ends.as_slice())
            },
        }
    }
}

impl Decodable for NodeStatus {
    open spec fn decodes(message: Seq<u8>, r: Result<NodeStatus, Error>) -> bool {
        match r {
            Ok(v) => node_status_from(message) == Ok::<NodeStatusView, Error>(v@),
            Err(e) => node_status_from(message) == Err::<NodeStatusView, Error>(e),
        }
    }

    fn decode(message: &[u8]) -> (r: Result<NodeStatus, Error>) {
        match read_framed(message) {
            Err(_) => Err(Error::Capnp),
            Ok(segs) => {
                let (flat, ends) = flatten(&segs, Ghost(message@));
                decode_node_status_segment(flat.as_slice(), ends.as_slice())
            },
        }
    }
}

// ---------------------------------------------------------------------------
// Round trips
// ---------------------------------------------------------------------------
/// The message of a root object that fits a segment frames that segment.
proof fn lemma_message(root: Obj)
    requires
        fits(root),
    ensures
        framed_ok(message(root)),
        framed_flat(message(root)) == segment(root),
        framed_ends(message(root)) == single(segment(root)),
{
    lemma_segment_len(root);
    super::framing::lemma_framed(segment(root));
}

/// Every request encodes, and decoding its message gives the request back.
pub proof fn lemma_request_roundtrip(r: Request)
    ensures
        r.encoding() is Some,
        Request::decodes(r.encoding()->0, Ok(r)),
{
    super::roundtrip::lemma_request_obj(r);
    lemma_message(request_obj(r));
    super::roundtrip::lemma_request_segment(r);
}

/// Decoding the message of a response that encodes gives the response back.
pub proof fn lemma_response_roundtrip(r: Response)
    requires
        r.encoding() is Some,
    ensures
        Response::decodes(r.encoding()->0, Ok(r)),
{
    lemma_message(response_obj(r@));
    super::roundtrip::lemma_response_segment(r@);
}

/// Decoding the message of a node status that encodes gives the status back.
pub proof fn lemma_node_status_roundtrip(n: NodeStatus)
    requires
        n.encoding() is Some,
    ensures
        NodeStatus::decodes(n.encoding()->0, Ok(n)),
{
    lemma_message(node_status_obj(n@));
    super::roundtrip::lemma_node_status_segment(n@);
}

} // verus!
