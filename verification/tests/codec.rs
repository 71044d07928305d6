use ddcp::proto::codec::{Change, Decodable, Encodable, Error, NodeStatus, Request, Response, Value};

#[test]
fn request_status() {
    let msg_bytes = Request::Status.encode().expect("ok");
    let decoded = Request::decode(&msg_bytes).expect("ok");
    assert_eq!(Request::Status, decoded);
}

#[test]
fn response_status() {
    let msg_bytes = Response::Status {
        site_id: "foo".as_bytes().to_vec(),
        db_version: 42,
    }
    .encode()
    .expect("ok");
    let decoded = Response::decode(&msg_bytes).expect("ok");
    assert_eq!(
        Response::Status {
            site_id: "foo".as_bytes().to_vec(),
            db_version: 42
        },
        decoded
    );
}

#[test]
fn request_changes() {
    let msg_bytes = Request::Changes {
        since_db_version: 42,
    }
    .encode()
    .expect("ok");
    let decoded = Request::decode(&msg_bytes).expect("ok");
    assert_eq!(
        Request::Changes {
            since_db_version: 42
        },
        decoded
    );
}

#[test]
fn response_changes_empty() {
    let msg_bytes = Response::Changes {
        site_id: "foo".as_bytes().to_vec(),
        changes: vec![],
    }
    .encode()
    .expect("ok");
    let decoded = Response::decode(&msg_bytes).expect("ok");
    assert_eq!(
        Response::Changes {
            site_id: "foo".as_bytes().to_vec(),
            changes: vec![]
        },
        decoded
    );
}

fn sample_changes() -> Vec<Change> {
    vec![
        Change {
            table: "some_table".to_owned(),
            pk: "some_pk".to_string().into_bytes(),
            cid: "el_cid".to_owned(),
            val: Value::Integer(42),
            col_version: 23,
            db_version: 42,
            cl: 99,
            seq: 999,
        },
        Change {
            table: "some_other_table".to_owned(),
            pk: "some_other_pk".to_string().into_bytes(),
            cid: "a_cid".to_owned(),
            val: Value::Text("foo".to_string()),
            col_version: 32,
            db_version: 24,
            cl: 111,
            seq: 1111,
        },
    ]
}

#[test]
fn response_changes() {
    let changes = sample_changes();
    let msg_bytes = Response::Changes {
        site_id: "foo".as_bytes().to_vec(),
        changes: changes.clone(),
    }
    .encode()
    .expect("ok");
    let decoded = Response::decode(&msg_bytes).expect("ok");
    assert_eq!(
        Response::Changes {
            site_id: "foo".as_bytes().to_vec(),
            changes,
        },
        decoded
    );
}

#[test]
fn response_changes_every_value_kind() {
    let vals = vec![
        Value::Null,
        Value::Integer(-7),
        Value::Real(1.5f64.to_bits()),
        Value::Text(String::new()),
        Value::Text("héllo wörld".to_string()),
        Value::Blob(vec![]),
        Value::Blob(vec![0, 1, 2, 3, 4, 5, 6, 7, 8, 9]),
    ];
    let changes: Vec<Change> = vals
        .into_iter()
        .enumerate()
        .map(|(i, val)| Change {
            table: format!("t{}", i),
            pk: vec![i as u8; i],
            cid: "c".repeat(i),
            val,
            col_version: i as i64,
            db_version: -(i as i64),
            cl: i64::MAX,
            seq: i64::MIN,
        })
        .collect();
    let resp = Response::Changes { site_id: vec![9; 16], changes };
    let msg_bytes = resp.encode().expect("ok");
    assert_eq!(Response::decode(&msg_bytes).expect("ok"), resp);
}

#[test]
fn node_status_roundtrip() {
    let status = NodeStatus {
        site_id: vec![1, 2, 3, 4, 5, 6, 7, 8, 9, 10, 11, 12, 13, 14, 15, 16],
        db_version: 1234,
        route: vec![0xab; 37],
    };
    let msg_bytes = status.encode().expect("ok");
    assert_eq!(NodeStatus::decode(&msg_bytes).expect("ok"), status);
}

#[test]
fn request_status_exact_bytes() {
    // Segment table: one segment of three words; then the root pointer to a
    // struct of one data word and one pointer, the discriminant 0, and a
    // null pointer.
    let expected: Vec<u8> = vec![
        0, 0, 0, 0, 3, 0, 0, 0, //
        0, 0, 0, 0, 1, 0, 1, 0, //
        0, 0, 0, 0, 0, 0, 0, 0, //
        0, 0, 0, 0, 0, 0, 0, 0,
    ];
    assert_eq!(Request::Status.encode().expect("ok"), expected);
}

#[test]
fn request_changes_exact_bytes() {
    let expected: Vec<u8> = vec![
        0, 0, 0, 0, 4, 0, 0, 0, //
        0, 0, 0, 0, 1, 0, 1, 0, //
        1, 0, 0, 0, 0, 0, 0, 0, //
        0, 0, 0, 0, 1, 0, 0, 0, //
        42, 0, 0, 0, 0, 0, 0, 0,
    ];
    assert_eq!(
        Request::Changes { since_db_version: 42 }.encode().expect("ok"),
        expected
    );
}

#[test]
fn decode_empty_message_fails() {
    assert_eq!(Request::decode(&[]), Err(Error::Capnp));
    assert!(matches!(Response::decode(&[]), Err(Error::Capnp)));
    assert!(matches!(NodeStatus::decode(&[]), Err(Error::Capnp)));
}

#[test]
fn decode_truncated_message_fails() {
    let msg_bytes = Request::Changes { since_db_version: 7 }.encode().expect("ok");
    let short = &msg_bytes[..msg_bytes.len() - 8];
    assert_eq!(Request::decode(short), Err(Error::Capnp));
}

#[test]
fn decode_unknown_request_kind() {
    let msg: Vec<u8> = vec![
        0, 0, 0, 0, 3, 0, 0, 0, //
        0, 0, 0, 0, 1, 0, 1, 0, //
        5, 0, 0, 0, 0, 0, 0, 0, //
        0, 0, 0, 0, 0, 0, 0, 0,
    ];
    assert_eq!(Request::decode(&msg), Err(Error::NotInSchema(5)));
}

#[test]
fn decode_invalid_text_fails() {
    let resp = Response::Changes {
        site_id: vec![1],
        changes: vec![Change {
            table: "zq".to_owned(),
            pk: vec![],
            cid: "c".to_owned(),
            val: Value::Null,
            col_version: 0,
            db_version: 0,
            cl: 0,
            seq: 0,
        }],
    };
    let mut msg = resp.encode().expect("ok");
    let at = msg
        .windows(3)
        .position(|w| w == [b'z', b'q', 0])
        .expect("table text");
    msg[at] = 0xff;
    assert!(matches!(Response::decode(&msg), Err(Error::Utf8)));
}

#[test]
fn decode_two_segment_message_with_null_root() {
    // Two segments of one word each; the root pointer is null, which reads
    // as the default struct: a status request.
    let msg: Vec<u8> = vec![
        1, 0, 0, 0, 1, 0, 0, 0, //
        1, 0, 0, 0, 0, 0, 0, 0, //
        0, 0, 0, 0, 0, 0, 0, 0, //
        0, 0, 0, 0, 0, 0, 0, 0,
    ];
    assert_eq!(Request::decode(&msg), Ok(Request::Status));
}

fn framed(segments: &[&[u8]]) -> Vec<u8> {
    capnp::serialize::write_message_segments_to_words(&capnp::message::SegmentArray::new(segments))
}

#[test]
fn decode_through_single_far_pointer() {
    // Segment 0: the root struct, whose pointer is a far pointer to a landing
    // pad at word 0 of segment 1; the pad points at the struct after it.
    let seg0: Vec<u8> = vec![
        0, 0, 0, 0, 1, 0, 1, 0, //
        1, 0, 0, 0, 0, 0, 0, 0, //
        2, 0, 0, 0, 1, 0, 0, 0,
    ];
    let seg1: Vec<u8> = vec![
        0, 0, 0, 0, 1, 0, 0, 0, //
        42, 0, 0, 0, 0, 0, 0, 0,
    ];
    let msg = framed(&[&seg0, &seg1]);
    assert_eq!(Request::decode(&msg), Ok(Request::Changes { since_db_version: 42 }));
}

#[test]
fn decode_through_double_far_pointer() {
    // The far pointer in segment 0 is double: its pad in segment 1 is a far
    // pointer to the start of segment 2, then a tag for the struct there.
    let seg0: Vec<u8> = vec![
        0, 0, 0, 0, 1, 0, 1, 0, //
        1, 0, 0, 0, 0, 0, 0, 0, //
        6, 0, 0, 0, 1, 0, 0, 0,
    ];
    let seg1: Vec<u8> = vec![
        2, 0, 0, 0, 2, 0, 0, 0, //
        0, 0, 0, 0, 1, 0, 0, 0,
    ];
    let seg2: Vec<u8> = vec![7, 0, 0, 0, 0, 0, 0, 0];
    let msg = framed(&[&seg0, &seg1, &seg2]);
    assert_eq!(Request::decode(&msg), Ok(Request::Changes { since_db_version: 7 }));
}

#[test]
fn decode_far_pointer_to_missing_segment_fails() {
    let seg0: Vec<u8> = vec![
        0, 0, 0, 0, 1, 0, 1, 0, //
        1, 0, 0, 0, 0, 0, 0, 0, //
        2, 0, 0, 0, 5, 0, 0, 0,
    ];
    let seg1: Vec<u8> = vec![0, 0, 0, 0, 1, 0, 0, 0];
    let msg = framed(&[&seg0, &seg1]);
    assert_eq!(Request::decode(&msg), Err(Error::Capnp));
}

#[test]
fn decode_object_crossing_segments_fails() {
    // A near pointer whose struct would run past the end of its segment.
    let seg0: Vec<u8> = vec![
        0, 0, 0, 0, 1, 0, 1, 0, //
        1, 0, 0, 0, 0, 0, 0, 0, //
        0, 0, 0, 0, 1, 0, 0, 0,
    ];
    let seg1: Vec<u8> = vec![42, 0, 0, 0, 0, 0, 0, 0];
    let msg = framed(&[&seg0, &seg1]);
    assert_eq!(Request::decode(&msg), Err(Error::Capnp));
}

#[test]
fn decode_response_split_over_segments() {
    // A status response whose site id lies in the second segment.
    let seg0: Vec<u8> = vec![
        0, 0, 0, 0, 1, 0, 1, 0, //
        0, 0, 0, 0, 0, 0, 0, 0, //
        0, 0, 0, 0, 1, 0, 1, 0, //
        9, 0, 0, 0, 0, 0, 0, 0, //
        2, 0, 0, 0, 1, 0, 0, 0,
    ];
    let seg1: Vec<u8> = vec![
        1, 0, 0, 0, 26, 0, 0, 0, //
        b'f', b'o', b'o', 0, 0, 0, 0, 0,
    ];
    let msg = framed(&[&seg0, &seg1]);
    assert_eq!(
        Response::decode(&msg).expect("ok"),
        Response::Status { site_id: b"foo".to_vec(), db_version: 9 }
    );
}

/// A changes response whose changes pointer (word 4) is `list_ptr`, followed
/// by the words `rest`.
fn changes_response_with(list_ptr: [u8; 8], rest: &[[u8; 8]]) -> Vec<u8> {
    let mut seg: Vec<u8> = vec![
        0, 0, 0, 0, 1, 0, 1, 0, //
        1, 0, 0, 0, 0, 0, 0, 0, //
        0, 0, 0, 0, 0, 0, 2, 0, //
        0, 0, 0, 0, 0, 0, 0, 0,
    ];
    seg.extend_from_slice(&list_ptr);
    for w in rest {
        seg.extend_from_slice(w);
    }
    framed(&[&seg])
}

fn default_change() -> Change {
    Change {
        table: String::new(),
        pk: vec![],
        cid: String::new(),
        val: Value::Null,
        col_version: 0,
        db_version: 0,
        cl: 0,
        seq: 0,
    }
}

#[test]
fn decode_list_of_empty_structs() {
    let msg = changes_response_with([1, 0, 0, 0, 7, 0, 0, 0], &[[12, 0, 0, 0, 0, 0, 0, 0]]);
    assert_eq!(
        Response::decode(&msg).expect("ok"),
        Response::Changes { site_id: vec![], changes: vec![default_change(); 3] }
    );
}

#[test]
fn decode_list_of_empty_structs_over_read_limit_fails() {
    // Nine million elements of no size exceed the reader's limit of 8 Mi words.
    let msg = changes_response_with([1, 0, 0, 0, 7, 0, 0, 0], &[[0x00, 0x51, 0x25, 0x02, 0, 0, 0, 0]]);
    assert!(matches!(Response::decode(&msg), Err(Error::Capnp)));
}

#[test]
fn decode_list_of_words_as_changes() {
    let msg = changes_response_with(
        [1, 0, 0, 0, 21, 0, 0, 0],
        &[[7, 0, 0, 0, 0, 0, 0, 0], [9, 0, 0, 0, 0, 0, 0, 0]],
    );
    let mut a = default_change();
    a.col_version = 7;
    let mut b = default_change();
    b.col_version = 9;
    assert_eq!(
        Response::decode(&msg).expect("ok"),
        Response::Changes { site_id: vec![], changes: vec![a, b] }
    );
}

#[test]
fn decode_list_of_pointers_as_changes() {
    let msg = changes_response_with(
        [1, 0, 0, 0, 14, 0, 0, 0],
        &[[1, 0, 0, 0, 26, 0, 0, 0], [b'a', b'b', 0, 0, 0, 0, 0, 0]],
    );
    let mut a = default_change();
    a.table = "ab".to_string();
    assert_eq!(
        Response::decode(&msg).expect("ok"),
        Response::Changes { site_id: vec![], changes: vec![a] }
    );
}

#[test]
fn decode_list_of_bytes_as_changes() {
    let msg = changes_response_with([1, 0, 0, 0, 42, 0, 0, 0], &[[1, 2, 3, 4, 5, 0, 0, 0]]);
    assert_eq!(
        Response::decode(&msg).expect("ok"),
        Response::Changes { site_id: vec![], changes: vec![default_change(); 5] }
    );
}

#[test]
fn decode_list_of_bits_as_changes_fails() {
    let msg = changes_response_with([1, 0, 0, 0, 9, 0, 0, 0], &[[1, 0, 0, 0, 0, 0, 0, 0]]);
    assert!(matches!(Response::decode(&msg), Err(Error::Capnp)));
}

#[test]
fn decode_amplified_pointers_over_read_limit_fails() {
    // Many list elements all point at the same large text; following them
    // reads more than the limit allows.
    let n: u64 = 3000;
    let big: u64 = 4096; // words of text
    let mut seg: Vec<u8> = vec![
        0, 0, 0, 0, 1, 0, 1, 0, //
        1, 0, 0, 0, 0, 0, 0, 0, //
        0, 0, 0, 0, 0, 0, 2, 0, //
        0, 0, 0, 0, 0, 0, 0, 0,
    ];
    // A list of n pointers at word 5, then the text.
    let list_ptr: u64 = 1 | ((6 | (n << 3)) << 32);
    seg.extend_from_slice(&list_ptr.to_le_bytes());
    let text_at = 5 + n;
    for i in 0..n {
        let here = 5 + i;
        let off = text_at - here - 1;
        let p: u64 = 1 | (off << 2) | ((2 | ((8 * big) << 3)) << 32);
        seg.extend_from_slice(&p.to_le_bytes());
    }
    let mut text = vec![b'x'; (8 * big - 1) as usize];
    text.push(0);
    seg.extend_from_slice(&text);
    let msg = framed(&[&seg]);
    assert!(matches!(Response::decode(&msg), Err(Error::Capnp)));
}
