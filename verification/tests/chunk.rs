//! Chunks and groups.

use oxideav_iff::chunk::{
    parse_group_children, probe_top_level_group, prop_for_form_type, read_body, read_chunk_header,
    read_top_level_group, skip_chunk_body, ByteReader, ChunkHeader, GroupChild, GroupKind,
    ReservedId, FILLER_ID, GROUP_FORM,
};
#[test]
fn padded_size_even_odd() {
    let a = ChunkHeader {
        id: *b"BODY",
        size: 10,
    };
    assert_eq!(a.padded_size(), 10);
    let b = ChunkHeader {
        id: *b"NAME",
        size: 9,
    };
    assert_eq!(b.padded_size(), 10);
}

#[test]
fn read_chunk_header_parses_bytes() {
    let bytes = [b'V', b'H', b'D', b'R', 0, 0, 0, 20];
    let mut cur = ByteReader::new(&bytes[..]);
    let h = read_chunk_header(&mut cur).unwrap().unwrap();
    assert_eq!(&h.id, b"VHDR");
    assert_eq!(h.size, 20);
}

#[test]
fn probe_top_level_group_returns_none_for_short_buf() {
    assert!(probe_top_level_group(&[]).unwrap().is_none());
    assert!(probe_top_level_group(b"FORM").unwrap().is_none());
    assert!(probe_top_level_group(b"FORM\x00\x00\x00\x10ILB")
        .unwrap()
        .is_none());
}

#[test]
fn probe_top_level_group_decodes_form_ilbm() {
    let bytes = b"FORM\x00\x00\x00\x10ILBM\x00\x00\x00\x00";
    let g = probe_top_level_group(bytes).unwrap().unwrap();
    assert_eq!(g.kind, GroupKind::Form);
    assert_eq!(g.size, 0x10);
    assert_eq!(&g.inner_type, b"ILBM");
    assert_eq!(g.kind_id(), GROUP_FORM);
    assert_eq!(g.inner_type_str(), "ILBM");
    assert_eq!(g.declared_total_len(), 24);
}

#[test]
fn probe_top_level_group_decodes_list_and_cat() {
    let bytes = b"LIST\x00\x00\x00\x04ILBM";
    let g = probe_top_level_group(bytes).unwrap().unwrap();
    assert_eq!(g.kind, GroupKind::List);
    assert_eq!(g.size, 4);
    assert_eq!(&g.inner_type, b"ILBM");
    assert_eq!(g.declared_total_len(), 12);

    let bytes = b"CAT \x00\x00\x00\x04JJJJ";
    let g = probe_top_level_group(bytes).unwrap().unwrap();
    assert_eq!(g.kind, GroupKind::Cat);
    assert_eq!(&g.kind_id(), b"CAT ");
    assert_eq!(g.inner_type_str(), "JJJJ");
}

#[test]
fn probe_top_level_group_odd_size_adds_pad_byte() {
    let bytes = b"FORM\x00\x00\x00\x05ANIM\x00";
    let g = probe_top_level_group(bytes).unwrap().unwrap();
    assert_eq!(g.size, 5);
    assert_eq!(g.declared_total_len(), 14);
}

#[test]
fn probe_top_level_group_rejects_non_group_id() {
    let err = probe_top_level_group(b"VHDR\x00\x00\x00\x00????").unwrap_err();
    let msg = err.message();
    assert!(msg.contains("not a top-level group chunk"), "{msg}");
}

#[test]
fn read_top_level_group_returns_none_at_clean_eof() {
    let mut cur = ByteReader::new(&[][..]);
    assert!(read_top_level_group(&mut cur).unwrap().is_none());
}

#[test]
fn read_top_level_group_matches_probe() {
    let bytes = b"FORM\x00\x00\x00\x12AIFC\x00\x00\x00\x00\x00\x00";
    let probed = probe_top_level_group(bytes).unwrap().unwrap();
    let mut cur = ByteReader::new(&bytes[..]);
    let streamed = read_top_level_group(&mut cur).unwrap().unwrap();
    assert_eq!(probed, streamed);
    assert_eq!(streamed.kind, GroupKind::Form);
    assert_eq!(&streamed.inner_type, b"AIFC");
}

#[test]
fn read_top_level_group_rejects_non_group_id() {
    let bytes = b"VHDR\x00\x00\x00\x00????";
    let mut cur = ByteReader::new(&bytes[..]);
    let err = read_top_level_group(&mut cur).unwrap_err();
    let msg = err.message();
    assert!(msg.contains("not a top-level group chunk"), "{msg}");
}

#[test]
fn read_top_level_group_partial_header_is_error() {
    let bytes = b"FORM\x00\x00";
    let mut cur = ByteReader::new(&bytes[..]);
    assert!(read_top_level_group(&mut cur).is_err());
}

#[test]
fn group_kind_round_trip() {
    for k in [GroupKind::Form, GroupKind::List, GroupKind::Cat] {
        assert_eq!(GroupKind::from_id(k.id()), Some(k));
    }
    assert_eq!(GroupKind::from_id(*b"PROP"), None);
}

#[test]
fn reserved_id_classifies_three_groups() {
    assert_eq!(
        ReservedId::classify(*b"FORM"),
        Some(ReservedId::Group(GroupKind::Form))
    );
    assert_eq!(
        ReservedId::classify(*b"LIST"),
        Some(ReservedId::Group(GroupKind::List))
    );
    assert_eq!(
        ReservedId::classify(*b"CAT "),
        Some(ReservedId::Group(GroupKind::Cat))
    );
}

#[test]
fn reserved_id_classifies_prop_and_filler() {
    assert_eq!(ReservedId::classify(*b"PROP"), Some(ReservedId::Prop));
    assert_eq!(ReservedId::classify(*b"    "), Some(ReservedId::Filler));
}

#[test]
fn reserved_id_classifies_all_twenty_seven_future_versions() {
    for d in b'1'..=b'9' {
        let mut id = *b"LIS_";
        id[3] = d;
        assert_eq!(
            ReservedId::classify(id),
            Some(ReservedId::ReservedFuture {
                parent: GroupKind::List,
                digit: d,
            }),
            "LIS{}",
            d as char,
        );
        let mut id = *b"FOR_";
        id[3] = d;
        assert_eq!(
            ReservedId::classify(id),
            Some(ReservedId::ReservedFuture {
                parent: GroupKind::Form,
                digit: d,
            }),
            "FOR{}",
            d as char,
        );
        let mut id = *b"CAT_";
        id[3] = d;
        assert_eq!(
            ReservedId::classify(id),
            Some(ReservedId::ReservedFuture {
                parent: GroupKind::Cat,
                digit: d,
            }),
            "CAT{}",
            d as char,
        );
    }
}

#[test]
fn reserved_id_rejects_non_reserved_ckid() {
    for non_reserved in [
        *b"BMHD", *b"CMAP", *b"BODY", *b"DLTA", *b"VHDR", *b"COMM", *b"SSND", *b"MARK",
        *b"ANNO", *b"NAME", *b"AUTH", *b"COMT", *b"INST", *b"MIDI", *b"APPL", *b"AESD",
        *b"SAXL", *b"TEXT", *b"FVER", *b"GRAB", *b"DEST", *b"SPRT", *b"CAMG", *b"CRNG",
        *b"CCRT", *b"DRNG", *b"SHAM", *b"PCHG", *b"ANHD",
    ] {
        assert_eq!(
            ReservedId::classify(non_reserved),
            None,
            "{:?} should not classify as reserved",
            std::str::from_utf8(&non_reserved).unwrap(),
        );
    }
}

#[test]
fn reserved_id_rejects_boundary_version_digits() {
    assert_eq!(ReservedId::classify(*b"LIS0"), None);
    assert_eq!(ReservedId::classify(*b"FOR0"), None);
    assert_eq!(ReservedId::classify(*b"CAT0"), None);
    assert_eq!(ReservedId::classify(*b"LISA"), None);
    assert_eq!(ReservedId::classify(*b"LISx"), None);
}

#[test]
fn reserved_id_predicates() {
    let g = ReservedId::Group(GroupKind::Form);
    assert!(g.is_group());
    assert!(!g.is_filler());
    assert!(!g.is_reserved_future());

    let f = ReservedId::Filler;
    assert!(!f.is_group());
    assert!(f.is_filler());
    assert!(!f.is_reserved_future());

    let p = ReservedId::Prop;
    assert!(!p.is_group());
    assert!(!p.is_filler());
    assert!(!p.is_reserved_future());

    let rf = ReservedId::ReservedFuture {
        parent: GroupKind::List,
        digit: b'3',
    };
    assert!(!rf.is_group());
    assert!(!rf.is_filler());
    assert!(rf.is_reserved_future());
}

#[test]
fn all_reserved_ids_covers_every_id_classify_recognises() {
    let ids = ReservedId::all_reserved_ids();
    assert_eq!(ids.len(), 32, "list has 5 base + 27 future = 32 IDs");

    let mut seen = std::collections::BTreeSet::new();
    for id in ids {
        assert!(
            seen.insert(id),
            "{:?} appears twice in all_reserved_ids",
            std::str::from_utf8(&id).unwrap_or("????"),
        );
        assert!(
            ReservedId::classify(id).is_some(),
            "{:?} present in enumeration but rejected by classify",
            std::str::from_utf8(&id).unwrap_or("????"),
        );
    }
}

#[test]
fn chunk_header_reserved_and_is_filler() {
    let h = ChunkHeader {
        id: FILLER_ID,
        size: 8,
    };
    assert!(h.is_filler());
    assert_eq!(h.reserved(), Some(ReservedId::Filler));
    let h = ChunkHeader {
        id: GROUP_FORM,
        size: 24,
    };
    assert!(h.is_group());
    assert!(!h.is_filler());
    assert_eq!(h.reserved(), Some(ReservedId::Group(GroupKind::Form)));
    let h = ChunkHeader {
        id: *b"BMHD",
        size: 20,
    };
    assert!(!h.is_group());
    assert!(!h.is_filler());
    assert!(h.reserved().is_none());
}

fn child(id: &[u8; 4], body: &[u8]) -> Vec<u8> {
    let mut v = Vec::with_capacity(8 + body.len() + 1);
    v.extend_from_slice(id);
    v.extend_from_slice(&(body.len() as u32).to_be_bytes());
    v.extend_from_slice(body);
    if body.len() & 1 == 1 {
        v.push(0);
    }
    v
}

fn typed_body(inner: &[u8; 4], rest: &[u8]) -> Vec<u8> {
    let mut v = Vec::with_capacity(4 + rest.len());
    v.extend_from_slice(inner);
    v.extend_from_slice(rest);
    v
}

#[test]
fn parse_group_children_decodes_list_with_prop_and_forms() {
    let prop_body = typed_body(b"TEXT", &child(b"FONT", b"TimesRoman"));
    let form1_body = typed_body(b"TEXT", &child(b"CHRS", b"Hello "));
    let form2_body = typed_body(b"TEXT", &child(b"CHRS", b"there."));
    let children: Vec<u8> = [
        child(b"PROP", &prop_body),
        child(b"FORM", &form1_body),
        child(b"FORM", &form2_body),
    ]
    .concat();
    let kids = parse_group_children(GroupKind::List, &children).unwrap();
    assert_eq!(kids.len(), 3);
    assert!(kids[0].is_prop());
    assert_eq!(kids[0].inner_type(), *b"TEXT");
    match kids[1] {
        GroupChild::Group {
            kind, inner_type, ..
        } => {
            assert_eq!(kind, GroupKind::Form);
            assert_eq!(&inner_type, b"TEXT");
        }
        _ => panic!("expected nested FORM"),
    }
    let shared = prop_for_form_type(&kids, *b"TEXT").unwrap();
    let mut cur = ByteReader::new(shared);
    let h = read_chunk_header(&mut cur).unwrap().unwrap();
    assert_eq!(&h.id, b"FONT");
    assert_eq!(read_body(&mut cur, &h).unwrap(), b"TimesRoman");
    assert!(prop_for_form_type(&kids, *b"ILBM").is_none());
}

#[test]
fn parse_group_children_rejects_prop_after_group() {
    let children: Vec<u8> = [
        child(b"FORM", &typed_body(b"TEXT", &[])),
        child(b"PROP", &typed_body(b"TEXT", &[])),
    ]
    .concat();
    let err = parse_group_children(GroupKind::List, &children).unwrap_err();
    assert!(err.message().contains("before any FORM"), "{err:?}");
}

#[test]
fn parse_group_children_rejects_duplicate_prop_form_type() {
    let dup: Vec<u8> = [
        child(b"PROP", &typed_body(b"TEXT", &[])),
        child(b"PROP", &typed_body(b"TEXT", &[])),
    ]
    .concat();
    let err = parse_group_children(GroupKind::List, &dup).unwrap_err();
    assert!(err.message().contains("at most one PROP"), "{err:?}");

    let distinct: Vec<u8> = [
        child(b"PROP", &typed_body(b"TEXT", &[])),
        child(b"PROP", &typed_body(b"ILBM", &[])),
    ]
    .concat();
    let kids = parse_group_children(GroupKind::List, &distinct).unwrap();
    assert_eq!(kids.len(), 2);
    assert!(prop_for_form_type(&kids, *b"ILBM").is_some());
}

#[test]
fn parse_group_children_rejects_prop_in_cat() {
    let children = child(b"PROP", &typed_body(b"TEXT", &[]));
    let err = parse_group_children(GroupKind::Cat, &children).unwrap_err();
    assert!(err.message().contains("not in CATs"), "{err:?}");
    let children = child(b"FORM", &typed_body(b"ILBM", &[]));
    let kids = parse_group_children(GroupKind::Cat, &children).unwrap();
    assert_eq!(kids.len(), 1);
}

#[test]
fn parse_group_children_rejects_form_kind() {
    let err = parse_group_children(GroupKind::Form, &[]).unwrap_err();
    assert!(err.message().contains("per-form walker"), "{err:?}");
}

#[test]
fn parse_group_children_rejects_data_and_future_version_ids() {
    let children = child(b"BMHD", &[0u8; 20]);
    assert!(parse_group_children(GroupKind::List, &children).is_err());
    let children = child(b"LIS1", &typed_body(b"TEXT", &[]));
    assert!(parse_group_children(GroupKind::List, &children).is_err());
}

#[test]
fn parse_group_children_skips_filler() {
    let children: Vec<u8> = [
        child(b"    ", b"xxx"),
        child(b"PROP", &typed_body(b"TEXT", &[])),
        child(b"FORM", &typed_body(b"TEXT", &[])),
    ]
    .concat();
    let kids = parse_group_children(GroupKind::List, &children).unwrap();
    assert_eq!(kids.len(), 2);
    assert!(kids[0].is_prop());
}

#[test]
fn parse_group_children_bounds_checks() {
    assert!(parse_group_children(GroupKind::List, &[])
        .unwrap()
        .is_empty());
    assert!(parse_group_children(GroupKind::Cat, b"FORM\x00\x00").is_err());
    let mut children = child(b"FORM", &typed_body(b"ILBM", &[]));
    children[7] = 0xFF;
    assert!(parse_group_children(GroupKind::Cat, &children).is_err());
    let children = child(b"FORM", b"IL");
    assert!(parse_group_children(GroupKind::Cat, &children).is_err());
    let children = child(b"PROP", b"TE");
    assert!(parse_group_children(GroupKind::List, &children).is_err());
}

#[test]
fn parse_group_children_handles_odd_sized_children_and_missing_final_pad() {
    let form1 = typed_body(b"TEXT", &child(b"CHRS", b"a"));
    let mut children = child(b"FORM", &form1);
    assert_eq!(children.len() % 2, 0, "even after pad");
    let form2 = typed_body(b"TEXT", b"x");
    children.extend_from_slice(b"FORM");
    children.extend_from_slice(&(form2.len() as u32).to_be_bytes());
    children.extend_from_slice(&form2);
    let kids = parse_group_children(GroupKind::Cat, &children).unwrap();
    assert_eq!(kids.len(), 2);
    match kids[1] {
        GroupChild::Group { body, .. } => assert_eq!(body, b"x"),
        _ => panic!("expected nested FORM"),
    }
}

#[test]
fn filler_chunk_walks_past_body_without_decoding() {
    let bytes: Vec<u8> = [
        b"    ".as_slice(),
        &[0, 0, 0, 5],
        b"hello",
        &[0],
        b"FORM",
        &[0, 0, 0, 4],
        b"ILBM",
    ]
    .concat();
    let mut cur = ByteReader::new(&bytes[..]);
    let h = read_chunk_header(&mut cur).unwrap().unwrap();
    assert!(h.is_filler());
    assert_eq!(h.size, 5);
    assert_eq!(h.padded_size(), 6);
    skip_chunk_body(&mut cur, &h).unwrap();
    let h2 = read_chunk_header(&mut cur).unwrap().unwrap();
    assert_eq!(&h2.id, b"FORM");
    assert_eq!(h2.size, 4);
}
