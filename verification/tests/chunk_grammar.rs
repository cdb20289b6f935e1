//! Groups, headers and descriptions.

use oxideav_iff::chunk::{
    make_group, parse_group_children, probe_top_level_group, read_body, read_chunk_header,
    read_form_type, read_top_level_group, skip_pad, ByteReader, ChunkHeader, GroupChild, GroupKind,
    ReservedId, GROUP_FORM,
};
use oxideav_iff::error::{IffError, Reason};

fn child(id: &[u8; 4], body: &[u8]) -> Vec<u8> {
    let mut v = id.to_vec();
    v.extend_from_slice(&(body.len() as u32).to_be_bytes());
    v.extend_from_slice(body);
    if body.len() % 2 == 1 {
        v.push(0);
    }
    v
}

#[test]
fn members_come_back_in_order() {
    let d: Vec<u8> = [
        child(b"PROP", b"ILBMxyz"),
        child(b"PROP", b"8SVX"),
        child(b"FORM", b"ILBM1234"),
        child(b"CAT ", b"    "),
    ]
    .concat();
    let kids = parse_group_children(GroupKind::List, &d).unwrap();
    assert_eq!(
        kids,
        vec![
            GroupChild::Prop {
                form_type: *b"ILBM",
                body: b"xyz"
            },
            GroupChild::Prop {
                form_type: *b"8SVX",
                body: b""
            },
            GroupChild::Group {
                kind: GroupKind::Form,
                inner_type: *b"ILBM",
                body: b"1234"
            },
            GroupChild::Group {
                kind: GroupKind::Cat,
                inner_type: *b"    ",
                body: b""
            },
        ]
    );
}

#[test]
fn faulty_members_are_described() {
    let said =
        |kind: GroupKind, d: &[u8]| parse_group_children(kind, d).unwrap_err().message();
    assert_eq!(
        said(GroupKind::Cat, &child(b"BMHD", b"1234")),
        "IFF: \"BMHD\" is not a legal LIST/CAT child (grammar: PROP / FORM / LIST / CAT)"
    );
    assert_eq!(
        said(GroupKind::Cat, b"FORM\x00\x00\x00\x05ILBM"),
        "IFF: group child \"FORM\" overruns the containing group's ckSize"
    );
    let twice: Vec<u8> = [child(b"PROP", b"TEXT"), child(b"PROP", b"TEXT")].concat();
    assert_eq!(
        parse_group_children(GroupKind::List, &twice),
        Err(IffError::Invalid(Reason::DuplicateProp {
            form_type: *b"TEXT"
        }))
    );
}

#[test]
fn ids_that_are_no_text_are_shown_as_question_marks() {
    let h = ChunkHeader {
        id: [0xC3, 0x28, 0xA0, 0xA1],
        size: 0,
    };
    assert_eq!(h.id_str(), "????");
    let h = ChunkHeader {
        id: *b"a\xC3\xA9b",
        size: 0,
    };
    assert_eq!(h.id_str(), "aéb");
    let e = probe_top_level_group(b"a\"\nb\x00\x00\x00\x00????").unwrap_err();
    assert_eq!(
        e.message(),
        "IFF: not a top-level group chunk (got \"a\\\"\\nb\")"
    );
}

#[test]
fn streams_and_bytes_agree_on_the_group() {
    for d in [
        b"FORM\x00\x00\x00\x09ILBMrest!".as_slice(),
        b"LIST\xFF\xFF\xFF\xFF    ".as_slice(),
        b"NOPE\x00\x00\x00\x00    ".as_slice(),
    ] {
        let mut r = ByteReader::new(d);
        assert_eq!(read_top_level_group(&mut r), probe_top_level_group(d));
    }
    let mut r = ByteReader::new(b"FORM\x00\x00\x00\x04IL");
    assert_eq!(read_top_level_group(&mut r), Err(IffError::UnexpectedEnd));
    let mut r = ByteReader::new(b"FORM\x00");
    assert_eq!(
        read_top_level_group(&mut r).unwrap_err().message(),
        "IFF: truncated chunk header"
    );
}

#[test]
fn a_refused_stream_is_left_behind_what_was_read() {
    let mut r = ByteReader::new(b"BODY\x00\x00\x00\x04abcd");
    assert!(read_top_level_group(&mut r).is_err());
    assert_eq!(r.pos, 8);
    let mut r = ByteReader::new(b"FORM\x00\x00\x00\x04AN");
    assert_eq!(read_top_level_group(&mut r), Err(IffError::UnexpectedEnd));
    assert_eq!(r.pos, 10);
    let mut r = ByteReader::new(b"FORM\x00");
    assert!(read_top_level_group(&mut r).is_err());
    assert_eq!(r.pos, 5);
}

#[test]
fn bodies_are_read_up_to_their_pad_bytes() {
    let mut r = ByteReader::new(b"NAME\x00\x00\x00\x03abc\x00AUTHx");
    let h = read_chunk_header(&mut r).unwrap().unwrap();
    assert_eq!(read_body(&mut r, &h).unwrap(), b"abc");
    assert_eq!(r.pos, 11);
    skip_pad(&mut r, &h).unwrap();
    assert_eq!(read_form_type(&mut r), Ok(*b"AUTH"));
    assert_eq!(read_form_type(&mut r), Err(IffError::UnexpectedEnd));
    assert_eq!(read_body(&mut r, &h), Err(IffError::UnexpectedEnd));
    assert_eq!(read_chunk_header(&mut r), Ok(None));
}

#[test]
fn groups_announce_their_size() {
    assert_eq!(
        make_group(GROUP_FORM, *b"ILBM", &[1, 2]),
        b"FORM\x00\x00\x00\x06ILBM\x01\x02"
    );
}

#[test]
fn reserved_ids_are_distinct() {
    let ids = ReservedId::all_reserved_ids();
    for (i, a) in ids.iter().enumerate() {
        assert!(ReservedId::classify(*a).is_some());
        for b in &ids[..i] {
            assert_ne!(a, b);
        }
    }
}
