//! The order in which chunks are believed.

use oxideav_iff::aiff::ChunkClass;
#[test]
fn rank_order_matches_spec_order() {
    let order = ChunkClass::all_in_precedence_order();
    assert_eq!(order.len(), 14);
    for (i, &c) in order.iter().enumerate() {
        assert_eq!(c.rank() as usize, i, "rank mismatch at index {i}");
    }
}

#[test]
fn ck_id_round_trips_through_lookup() {
    for &c in ChunkClass::all_in_precedence_order() {
        let id = c.ck_id();
        assert_eq!(id.len(), 4);
        if c == ChunkClass::Copyright {
            assert_eq!(id, b"(c) ");
        } else {
            assert!(id.iter().all(|b| b.is_ascii()));
        }
    }
}

#[test]
fn copyright_id_uses_round_paren_lowercase_c_space() {
    assert_eq!(ChunkClass::Copyright.ck_id(), b"(c) ");
    let bytes = ChunkClass::Copyright.ck_id();
    assert_eq!(bytes[0], b'(');
    assert_eq!(bytes[1], b'c');
    assert_eq!(bytes[2], b')');
    assert_eq!(bytes[3], b' ');
}

#[test]
fn higher_precedence_matches_section_14_example() {
    assert!(ChunkClass::Instrument.higher_precedence_than(ChunkClass::MidiData));
    assert!(!ChunkClass::MidiData.higher_precedence_than(ChunkClass::Instrument));
}

#[test]
fn common_outranks_everything_below_it() {
    for &c in ChunkClass::all_in_precedence_order() {
        if c == ChunkClass::Common || c == ChunkClass::FormatVersion {
            continue;
        }
        assert!(
            ChunkClass::Common.higher_precedence_than(c),
            "COMM should outrank {c:?}"
        );
    }
}

#[test]
fn application_specific_loses_to_everything_above_it() {
    for &c in ChunkClass::all_in_precedence_order() {
        if c == ChunkClass::ApplicationSpecific {
            continue;
        }
        assert!(
            c.higher_precedence_than(ChunkClass::ApplicationSpecific),
            "{c:?} should outrank APPL"
        );
    }
}

#[test]
fn higher_precedence_than_is_irreflexive() {
    for &c in ChunkClass::all_in_precedence_order() {
        assert!(
            !c.higher_precedence_than(c),
            "{c:?} should not outrank itself"
        );
    }
}

#[test]
fn ord_matches_rank() {
    let mut shuffled = vec![
        ChunkClass::ApplicationSpecific,
        ChunkClass::Common,
        ChunkClass::MidiData,
        ChunkClass::FormatVersion,
        ChunkClass::Instrument,
    ];
    shuffled.sort();
    assert_eq!(
        shuffled,
        vec![
            ChunkClass::FormatVersion,
            ChunkClass::Common,
            ChunkClass::Instrument,
            ChunkClass::MidiData,
            ChunkClass::ApplicationSpecific,
        ]
    );
}
