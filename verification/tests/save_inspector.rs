use openhome_core::digest::reference_of;
use openhome_core::error::{Error, Missing};
use openhome_core::save_inspector::{
    checksum, identify, known_formats, prefix_needed, rank, suggest, validate, Context, FormatTag,
    Identification, Marker, SaveFileRecord, Signature, Trust, Validation,
};

fn tag(generation: u8, layout: u16) -> FormatTag {
    FormatTag { generation, layout }
}

fn sample_formats() -> Vec<Signature> {
    vec![
        Signature {
            tag: tag(3, 0),
            file_len: Some(16),
            markers: vec![Marker { offset: 4, bytes: b"GEN3".to_vec() }],
        },
        Signature {
            tag: tag(4, 1),
            file_len: None,
            markers: vec![
                Marker { offset: 0, bytes: b"G4".to_vec() },
                Marker { offset: 10, bytes: vec![0xFF] },
            ],
        },
        Signature { tag: tag(1, 0), file_len: Some(8), markers: vec![] },
        Signature {
            tag: tag(4, 2),
            file_len: None,
            markers: vec![Marker { offset: 0, bytes: b"G4".to_vec() }],
        },
    ]
}

fn record(path: &str, format: Option<FormatTag>, last_used: u64) -> SaveFileRecord {
    SaveFileRecord { path: path.to_string(), format, checksum: 0, trust: Trust::Trusted, last_used }
}

fn paths(records: &[SaveFileRecord]) -> Vec<&str> {
    records.iter().map(|r| r.path.as_str()).collect()
}

#[test]
fn identify_finds_a_format_by_length_and_marker() {
    let file = b"0000GEN300000000";
    assert_eq!(identify(file, 16, &sample_formats()), Identification::Format(tag(3, 0)));
}

#[test]
fn identify_needs_every_marker() {
    let mut file = b"G4........".to_vec();
    file.push(0xFF);
    assert_eq!(identify(&file, 11, &sample_formats()), Identification::Format(tag(4, 1)));
    file[10] = 0xFE;
    assert_eq!(identify(&file, 11, &sample_formats()), Identification::Format(tag(4, 2)));
}

#[test]
fn identify_takes_the_first_signature_that_matches() {
    let file = b"G4......";
    assert_eq!(identify(file, 8, &sample_formats()), Identification::Format(tag(1, 0)));
    assert_eq!(identify(file, 9, &sample_formats()), Identification::Format(tag(4, 2)));
}

#[test]
fn identify_of_an_unknown_structure_is_unrecognized() {
    assert_eq!(identify(b"????", 4, &sample_formats()), Identification::Unrecognized);
    assert_eq!(identify(b"", 0, &sample_formats()), Identification::Unrecognized);
    assert_eq!(identify(b"0000GEN300000000", 17, &sample_formats()), Identification::Unrecognized);
    assert_eq!(identify(b"G4", 2, &vec![]), Identification::Unrecognized);
}

#[test]
fn identify_does_not_match_a_marker_beyond_the_prefix() {
    let file = b"0000GE";
    assert_eq!(identify(file, 16, &sample_formats()), Identification::Unrecognized);
    let far = vec![Signature {
        tag: tag(9, 9),
        file_len: None,
        markers: vec![Marker { offset: usize::MAX, bytes: vec![1, 2] }],
    }];
    assert_eq!(identify(b"abc", 3, &far), Identification::Unrecognized);
}

#[test]
fn identify_from_the_needed_prefix_is_identify_from_the_file() {
    let formats = sample_formats();
    let n = prefix_needed(&formats);
    assert_eq!(n, 11);
    let mut file = b"G4........".to_vec();
    file.push(0xFF);
    file.extend_from_slice(&[7u8; 100]);
    assert_eq!(
        identify(&file[..n], file.len() as u64, &formats),
        identify(&file, file.len() as u64, &formats)
    );
    assert_eq!(identify(&file[..n], file.len() as u64, &formats), Identification::Format(tag(4, 1)));
}

#[test]
fn prefix_needed_is_the_farthest_marker_end() {
    assert_eq!(prefix_needed(&vec![]), 0);
    assert_eq!(
        prefix_needed(&vec![Signature { tag: tag(1, 0), file_len: Some(8), markers: vec![] }]),
        0
    );
    let far = vec![
        Signature {
            tag: tag(9, 9),
            file_len: None,
            markers: vec![Marker { offset: usize::MAX, bytes: vec![1, 2] }],
        },
        Signature {
            tag: tag(9, 8),
            file_len: None,
            markers: vec![Marker { offset: 3, bytes: vec![1, 2] }],
        },
    ];
    assert_eq!(prefix_needed(&far), 5);
}

#[test]
fn checksum_is_the_digest_of_the_bytes() {
    assert_eq!(checksum(b""), 0xcbf2_9ce4_8422_2325);
    assert_eq!(checksum(b"a"), 0xaf63_dc4c_8601_ec8c);
    assert_eq!(checksum(b"save"), reference_of(b"save").digest);
}

#[test]
fn edited_save_is_modified() {
    let original = b"0000GEN300000000";
    let trusted = SaveFileRecord::scan("a.sav".to_string(), Some(original), &sample_formats(), 10).unwrap();
    assert_eq!(trusted.trust, Trust::Trusted);
    assert_eq!(validate(&trusted, Some(original)), Validation::Valid);
    let mut edited = original.to_vec();
    edited[15] = b'1';
    assert_eq!(validate(&trusted, Some(&edited)), Validation::Modified);
    assert_eq!(validate(&trusted, Some(&original[..15])), Validation::Modified);
}

#[test]
fn save_that_cannot_be_read_is_unreadable() {
    let trusted = SaveFileRecord::scan("a.sav".to_string(), Some(b"x"), &sample_formats(), 10).unwrap();
    assert_eq!(validate(&trusted, None), Validation::Unreadable);
}

#[test]
fn scan_records_format_checksum_and_time() {
    let file = b"0000GEN300000000";
    let record = SaveFileRecord::scan("saves/a.sav".to_string(), Some(file), &sample_formats(), 1234).unwrap();
    assert_eq!(
        record,
        SaveFileRecord {
            path: "saves/a.sav".to_string(),
            format: Some(tag(3, 0)),
            checksum: checksum(file),
            trust: Trust::Trusted,
            last_used: 1234,
        }
    );
    let unknown = SaveFileRecord::scan("b.bin".to_string(), Some(b"????"), &sample_formats(), 5).unwrap();
    assert_eq!(unknown.format, None);
    assert_eq!(unknown.trust, Trust::Stale);
    assert_eq!(unknown.checksum, checksum(b"????"));
}

#[test]
fn scan_of_a_file_that_cannot_be_read_is_not_found() {
    assert_eq!(
        SaveFileRecord::scan("gone.sav".to_string(), None, &sample_formats(), 1),
        Err(Error::NotFound(Missing::SavePath("gone.sav".to_string())))
    );
}

#[test]
fn revalidate_sets_the_trust_to_match() {
    let file = b"0000GEN300000000";
    let mut record = SaveFileRecord::scan("a.sav".to_string(), Some(file), &sample_formats(), 1).unwrap();
    let before = record.clone();
    assert_eq!(record.revalidate(Some(b"0000GEN30000000X")), Validation::Modified);
    assert_eq!(record.trust, Trust::Stale);
    assert_eq!(record.checksum, before.checksum);
    assert_eq!(record.revalidate(Some(file)), Validation::Valid);
    assert_eq!(record, before);
    assert_eq!(record.revalidate(None), Validation::Unreadable);
    assert_eq!(record.trust, Trust::Stale);
    assert_eq!(record.last_used, 1);

    let mut unknown = SaveFileRecord::scan("b.bin".to_string(), Some(b"????"), &sample_formats(), 5).unwrap();
    assert_eq!(unknown.revalidate(Some(b"????")), Validation::Valid);
    assert_eq!(unknown.trust, Trust::Stale);
}

#[test]
fn confirm_takes_the_file_as_it_is_now() {
    let mut record = SaveFileRecord::scan("a.sav".to_string(), Some(b"????"), &sample_formats(), 1).unwrap();
    let now = b"0000GEN300000000";
    assert_eq!(record.revalidate(Some(now)), Validation::Modified);
    record.confirm(now, &sample_formats(), 99);
    assert_eq!(
        record,
        SaveFileRecord {
            path: "a.sav".to_string(),
            format: Some(tag(3, 0)),
            checksum: checksum(now),
            trust: Trust::Trusted,
            last_used: 99,
        }
    );
    assert_eq!(validate(&record, Some(now)), Validation::Valid);
}

#[test]
fn suggest_puts_fitting_saves_first_then_the_more_recent() {
    let known = vec![
        record("old3", Some(tag(3, 0)), 10),
        record("new4", Some(tag(4, 1)), 90),
        record("new3", Some(tag(3, 1)), 50),
        record("unknown", None, 99),
        record("mid4", Some(tag(4, 2)), 60),
    ];
    let for_three = suggest(&known, &Context { generation: Some(3) });
    assert_eq!(paths(&for_three), vec!["new3", "old3", "unknown", "new4", "mid4"]);
    let for_four = suggest(&known, &Context { generation: Some(4) });
    assert_eq!(paths(&for_four), vec!["new4", "mid4", "unknown", "new3", "old3"]);
    let for_any = suggest(&known, &Context { generation: None });
    assert_eq!(paths(&for_any), vec!["unknown", "new4", "mid4", "new3", "old3"]);
    let for_none = suggest(&known, &Context { generation: Some(7) });
    assert_eq!(paths(&for_none), paths(&for_any));
}

#[test]
fn suggest_keeps_the_given_order_among_equals() {
    let known = vec![
        record("a", Some(tag(3, 0)), 5),
        record("b", Some(tag(3, 0)), 5),
        record("c", Some(tag(3, 0)), 7),
        record("d", Some(tag(3, 0)), 5),
    ];
    let suggested = suggest(&known, &Context { generation: Some(3) });
    assert_eq!(paths(&suggested), vec!["c", "a", "b", "d"]);
    assert_eq!(rank(&known, &Context { generation: Some(3) }), vec![2, 0, 1, 3]);
}

#[test]
fn suggest_returns_every_save_once() {
    let known = vec![
        record("a", None, 3),
        record("b", Some(tag(1, 0)), 3),
        record("a", None, 3),
    ];
    let suggested = suggest(&known, &Context { generation: Some(1) });
    assert_eq!(suggested.len(), 3);
    assert_eq!(paths(&suggested), vec!["b", "a", "a"]);
    assert_eq!(suggested[0], known[1]);
    assert_eq!(suggest(&vec![], &Context { generation: None }), vec![]);
    assert_eq!(rank(&vec![], &Context { generation: None }), Vec::<usize>::new());
}

#[test]
fn rank_orders_by_recency_up_to_the_limits() {
    let known = vec![record("zero", None, 0), record("max", None, u64::MAX), record("one", None, 1)];
    assert_eq!(rank(&known, &Context { generation: None }), vec![1, 2, 0]);
}

#[test]
fn known_formats_are_told_apart_by_length() {
    let formats = known_formats();
    assert_eq!(formats.len(), 5);
    assert_eq!(prefix_needed(&formats), 0);
    let cases: [(u64, u8, u16); 5] = [
        (0x2_0000, 3, 0),
        (0x6_5600, 6, 0),
        (0x7_6000, 6, 1),
        (0x6_BE00, 7, 0),
        (0x6_CC00, 7, 1),
    ];
    for (file_len, generation, layout) in cases {
        assert_eq!(
            identify(b"", file_len, &formats),
            Identification::Format(FormatTag { generation, layout })
        );
        let matching = formats.iter().filter(|s| s.file_len == Some(file_len)).count();
        assert_eq!(matching, 1);
    }
    for signature in &formats {
        assert!(signature.markers.is_empty());
    }
}

#[test]
fn file_of_no_known_length_is_unrecognized() {
    let formats = known_formats();
    for file_len in [0u64, 1, 0x8000, 0x2_0000 - 1, 0x2_0000 + 1, 0x8_0000, u64::MAX] {
        assert_eq!(identify(b"anything", file_len, &formats), Identification::Unrecognized);
    }
}
