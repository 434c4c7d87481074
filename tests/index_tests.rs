use mft_index::record::{
    FILE_ATTRIBUTE_DIRECTORY, USN_REASON_FILE_CREATE, USN_REASON_FILE_DELETE,
    USN_REASON_RENAME_NEW_NAME, USN_REASON_RENAME_OLD_NAME,
};
use mft_index::{check_anchor, decode_records, EnumStep, FileEntry, IndexError, MftIndex};

const ROOT: u64 = 0x0005_0000_0000_0005;
const USERS: u64 = 0x0001_0000_0000_0100;
const A_FILE: u64 = 0x0001_0000_0000_0200;

fn record_units(frn: u64, parent: u64, reason: u32, attributes: u32, units: &[u16]) -> Vec<u8> {
    let name_len = units.len() * 2;
    let mut len = 60 + name_len;
    len = (len + 7) / 8 * 8;
    let mut r = vec![0u8; len];
    r[0..4].copy_from_slice(&(len as u32).to_le_bytes());
    r[4..6].copy_from_slice(&2u16.to_le_bytes());
    r[8..16].copy_from_slice(&frn.to_le_bytes());
    r[16..24].copy_from_slice(&parent.to_le_bytes());
    r[40..44].copy_from_slice(&reason.to_le_bytes());
    r[52..56].copy_from_slice(&attributes.to_le_bytes());
    r[56..58].copy_from_slice(&(name_len as u16).to_le_bytes());
    r[58..60].copy_from_slice(&60u16.to_le_bytes());
    for (i, u) in units.iter().enumerate() {
        r[60 + 2 * i..62 + 2 * i].copy_from_slice(&u.to_le_bytes());
    }
    r
}

fn record(frn: u64, parent: u64, reason: u32, attributes: u32, name: &str) -> Vec<u8> {
    let units: Vec<u16> = name.encode_utf16().collect();
    record_units(frn, parent, reason, attributes, &units)
}

fn buffer(prefix: u64, records: &[Vec<u8>]) -> Vec<u8> {
    let mut b = prefix.to_le_bytes().to_vec();
    for r in records {
        b.extend_from_slice(r);
    }
    b
}

/// An index holding `\Users`, built by one enumeration read.
fn index_with_users() -> MftIndex {
    let mut ix = MftIndex::new("C:".to_string());
    ix.clear();
    let b = buffer(0x9000, &[record(USERS, ROOT, 0, FILE_ATTRIBUTE_DIRECTORY, "Users")]);
    assert!(matches!(ix.ingest_enum_buffer(0, &b, b.len()), EnumStep::Next(0x9000)));
    assert!(matches!(ix.ingest_enum_buffer(0x9000, &[], 0), EnumStep::Done));
    assert_eq!(ix.finish_build(), 1);
    ix
}

fn create_a_txt(ix: &mut MftIndex) {
    let b = buffer(200, &[record(A_FILE, USERS, USN_REASON_FILE_CREATE, 0, "a.txt")]);
    let step = ix.journal_step(100, true, &b, b.len());
    assert_eq!(step.next_usn, 200);
    assert_eq!(step.changes.len(), 1);
}

#[test]
fn empty_volume() {
    let mut ix = MftIndex::new("C:".to_string());
    ix.clear();
    assert!(matches!(ix.ingest_enum_buffer(0, &[], 0), EnumStep::Done));
    assert_eq!(ix.finish_build(), 0);
    assert!(ix.search("x").is_empty());
    let bytes = ix.save_snapshot(42, 7).ok().unwrap();
    let mut other = MftIndex::new("C:".to_string());
    assert_eq!(other.load_snapshot(&bytes).ok(), Some((42, 7)));
    assert_eq!(other.entry_count(), 0);
    let quiet = 42u64.to_le_bytes();
    let step = ix.journal_step(42, true, &quiet, 8);
    assert!(step.wait);
    assert_eq!(step.next_usn, 42);
    assert!(step.changes.is_empty());
}

#[test]
fn create_one_file() {
    let mut ix = index_with_users();
    let b = buffer(200, &[record(A_FILE, USERS, USN_REASON_FILE_CREATE, 0, "a.txt")]);
    let step = ix.journal_step(100, true, &b, b.len());
    assert!(!step.wait);
    assert_eq!(step.next_usn, 200);
    assert_eq!(step.changes.len(), 1);
    assert_eq!(step.changes[0].action, "create");
    assert_eq!(step.changes[0].path, "C:\\Users\\a.txt");
    assert!(!step.changes[0].is_dir);
    assert_eq!(ix.search("a.txt"), vec!["C:\\Users\\a.txt".to_string()]);
}

#[test]
fn rename_reports_delete_then_create() {
    let mut ix = index_with_users();
    create_a_txt(&mut ix);
    let b = buffer(
        300,
        &[
            record(A_FILE, USERS, USN_REASON_RENAME_OLD_NAME, 0, "a.txt"),
            record(A_FILE, USERS, USN_REASON_RENAME_NEW_NAME, 0, "b.txt"),
        ],
    );
    let step = ix.journal_step(200, true, &b, b.len());
    assert_eq!(step.changes.len(), 2);
    assert_eq!(step.changes[0].action, "delete");
    assert_eq!(step.changes[0].path, "C:\\Users\\a.txt");
    assert_eq!(step.changes[1].action, "create");
    assert_eq!(step.changes[1].path, "C:\\Users\\b.txt");
    assert_eq!(ix.entry(A_FILE).unwrap().name, "b.txt");
    assert_eq!(ix.entry_count(), 2);
    assert!(ix.search("a.txt").is_empty());
    assert_eq!(ix.search("b.txt"), vec!["C:\\Users\\b.txt".to_string()]);
}

#[test]
fn delete_directory_with_child() {
    let mut ix = index_with_users();
    create_a_txt(&mut ix);
    let b = buffer(
        400,
        &[
            record(A_FILE, USERS, USN_REASON_FILE_DELETE, 0, "a.txt"),
            record(USERS, ROOT, USN_REASON_FILE_DELETE, FILE_ATTRIBUTE_DIRECTORY, "Users"),
        ],
    );
    let step = ix.journal_step(200, true, &b, b.len());
    assert_eq!(step.changes.len(), 2);
    assert_eq!(step.changes[0].action, "delete");
    assert_eq!(step.changes[0].path, "C:\\Users\\a.txt");
    assert!(!step.changes[0].is_dir);
    assert_eq!(step.changes[1].action, "delete");
    assert_eq!(step.changes[1].path, "C:\\Users");
    assert!(step.changes[1].is_dir);
    assert!(ix.search("a.txt").is_empty());
    assert!(ix.search("Users").is_empty());
    assert_eq!(ix.entry_count(), 0);
    assert!(ix.search_index.is_empty());
}

#[test]
fn journal_gap_needs_rebuild() {
    assert!(matches!(check_anchor(100, 9, 9, 500), Err(IndexError::JournalTruncated)));
    assert!(matches!(check_anchor(100, 9, 8, 50), Err(IndexError::JournalMismatch)));
    assert!(check_anchor(500, 9, 9, 500).is_ok());
}

#[test]
fn depth_52_chain_keeps_last_50_components() {
    let mut ix = MftIndex::new("C:".to_string());
    let mut recs = Vec::new();
    for i in 1..=52u64 {
        let parent = if i == 1 { ROOT } else { 1000 + i - 1 };
        recs.push(record(1000 + i, parent, 0, FILE_ATTRIBUTE_DIRECTORY, &format!("d{}", i)));
    }
    let b = buffer(1, &recs);
    assert!(matches!(ix.ingest_enum_buffer(0, &b, b.len()), EnumStep::Next(1)));
    assert_eq!(ix.finish_build(), 52);
    let p = ix.reconstruct_path(1052).unwrap();
    let expected: Vec<String> = (3..=52).map(|i| format!("d{}", i)).collect();
    assert_eq!(p, format!("C:\\{}", expected.join("\\")));
    assert_eq!(p.split('\\').count(), 51);
    assert_eq!(ix.reconstruct_path(1001).unwrap(), "C:\\d1");
}

#[test]
fn broken_chain_yields_none() {
    let mut ix = MftIndex::new("D:\\".to_string());
    let b = buffer(5, &[record(77, 66, 0, 0, "orphan.txt")]);
    ix.ingest_enum_buffer(0, &b, b.len());
    ix.finish_build();
    assert_eq!(ix.reconstruct_path(77), None);
    assert!(ix.search("orphan").is_empty());
    assert_eq!(ix.reconstruct_path(ROOT), Some("D:\\".to_string()));
}

#[test]
fn anchor_advances_past_undecodable_records() {
    let mut ix = index_with_users();
    let mut b = 777u64.to_le_bytes().to_vec();
    b.extend_from_slice(&[0xFF; 40]);
    let step = ix.journal_step(100, true, &b, b.len());
    assert!(!step.wait);
    assert_eq!(step.next_usn, 777);
    assert!(step.changes.is_empty());
    assert_eq!(ix.entry_count(), 1);
}

#[test]
fn failed_or_short_read_waits() {
    let mut ix = index_with_users();
    let b = buffer(999, &[record(A_FILE, USERS, USN_REASON_FILE_CREATE, 0, "a.txt")]);
    let step = ix.journal_step(100, false, &b, b.len());
    assert!(step.wait);
    assert_eq!(step.next_usn, 100);
    assert_eq!(ix.entry_count(), 1);
    let step = ix.journal_step(100, true, &b, 8);
    assert!(step.wait);
    assert_eq!(step.next_usn, 100);
}

#[test]
fn quiet_journal_keeps_store_and_anchor() {
    let mut ix = index_with_users();
    let quiet = buffer(100, &[]);
    let step = ix.journal_step(100, true, &quiet, quiet.len());
    assert_eq!(step.next_usn, 100);
    assert!(step.changes.is_empty());
    assert_eq!(ix.entry_count(), 1);
    assert_eq!(ix.entry(USERS).unwrap().name, "Users");
}

#[test]
fn created_entry_has_one_index_pair() {
    let mut ix = index_with_users();
    create_a_txt(&mut ix);
    let b = buffer(300, &[record(A_FILE, USERS, USN_REASON_FILE_CREATE, 0, "a2.txt")]);
    ix.journal_step(200, true, &b, b.len());
    let pairs: Vec<&(u64, String)> = ix.search_index.iter().filter(|p| p.0 == A_FILE).collect();
    assert_eq!(pairs.len(), 1);
    assert_eq!(pairs[0].1, "a2.txt");
    assert_eq!(ix.search_index.len(), 2);
}

#[test]
fn narrowing_a_query_keeps_only_hits() {
    let mut ix = index_with_users();
    let b = buffer(
        300,
        &[
            record(501, USERS, USN_REASON_FILE_CREATE, 0, "report.txt"),
            record(502, USERS, USN_REASON_FILE_CREATE, 0, "REPORT-final.doc"),
            record(503, USERS, USN_REASON_FILE_CREATE, 0, "notes.md"),
        ],
    );
    ix.journal_step(100, true, &b, b.len());
    let wide = ix.search("rep");
    let narrow = ix.search("report.");
    assert_eq!(wide.len(), 2);
    assert_eq!(narrow, vec!["C:\\Users\\report.txt".to_string()]);
    for p in &narrow {
        assert!(wide.contains(p));
    }
}

#[test]
fn search_ignores_case() {
    let mut ix = index_with_users();
    create_a_txt(&mut ix);
    assert_eq!(ix.search("A.TXT"), vec!["C:\\Users\\a.txt".to_string()]);
    assert_eq!(ix.search("USERS"), vec!["C:\\Users".to_string()]);
    assert!(ix.search("b.txt").is_empty());
}

#[test]
fn search_caps_results_at_500() {
    let mut ix = MftIndex::new("C:".to_string());
    let recs: Vec<Vec<u8>> =
        (0..600u64).map(|i| record(10_000 + i, ROOT, 0, 0, &format!("f{}.log", i))).collect();
    let b = buffer(1, &recs);
    ix.ingest_enum_buffer(0, &b, b.len());
    assert_eq!(ix.finish_build(), 600);
    assert_eq!(ix.search("").len(), 500);
    assert_eq!(ix.search(".LOG").len(), 500);
    assert_eq!(ix.search("f59").len(), 11);
}

#[test]
fn snapshot_round_trip() {
    let mut ix = index_with_users();
    create_a_txt(&mut ix);
    let b = buffer(300, &[record(600, USERS, USN_REASON_FILE_CREATE, FILE_ATTRIBUTE_DIRECTORY, "Ünïcødé ✓")]);
    ix.journal_step(200, true, &b, b.len());
    let bytes = ix.save_snapshot(-5, 0xABCD).ok().unwrap();
    let mut back = MftIndex::new("C:".to_string());
    assert_eq!(back.load_snapshot(&bytes).ok(), Some((-5, 0xABCD)));
    assert_eq!(back.entry_count(), 3);
    for frn in [USERS, A_FILE, 600] {
        let a: FileEntry = ix.entry(frn).unwrap();
        let b: FileEntry = back.entry(frn).unwrap();
        assert_eq!(a.parent_frn, b.parent_frn);
        assert_eq!(a.name, b.name);
        assert_eq!(a.is_dir, b.is_dir);
    }
    assert_eq!(back.search("ünï"), vec!["C:\\Users\\Ünïcødé ✓".to_string()]);
}

#[test]
fn snapshot_starts_with_magic_and_version() {
    let ix = index_with_users();
    let bytes = ix.save_snapshot(1, 2).ok().unwrap();
    assert_eq!(&bytes[0..4], b"MFTI");
    assert_eq!(&bytes[4..8], &1u32.to_le_bytes());
    assert_eq!(bytes.len(), 32 + 21 + 5);
}

#[test]
fn corrupt_snapshot_is_refused() {
    let ix = index_with_users();
    let good = ix.save_snapshot(1, 2).ok().unwrap();
    let mut other = index_with_users();
    let mut bad_utf8 = good.clone();
    let last = bad_utf8.len() - 1;
    bad_utf8[last] = 0xFF;
    assert!(matches!(other.load_snapshot(&bad_utf8), Err(IndexError::PersistError)));
    assert!(matches!(other.load_snapshot(&good[..good.len() - 1]), Err(IndexError::PersistError)));
    let mut bad_version = good.clone();
    bad_version[4] = 2;
    assert!(matches!(other.load_snapshot(&bad_version), Err(IndexError::PersistError)));
    let mut trailing = good.clone();
    trailing.push(0);
    assert!(matches!(other.load_snapshot(&trailing), Err(IndexError::PersistError)));
    assert_eq!(other.entry_count(), 1);
}

#[test]
fn decoder_reads_fields() {
    let b = buffer(
        3,
        &[
            record(11, 22, USN_REASON_FILE_CREATE, FILE_ATTRIBUTE_DIRECTORY, "dir"),
            record(33, 11, 0x2, 0x20, "x.bin"),
        ],
    );
    let recs = decode_records(&b, b.len());
    assert_eq!(recs.len(), 2);
    assert_eq!(recs[0].frn, 11);
    assert_eq!(recs[0].parent_frn, 22);
    assert_eq!(recs[0].reason, USN_REASON_FILE_CREATE);
    assert_eq!(recs[0].attributes, FILE_ATTRIBUTE_DIRECTORY);
    assert_eq!(recs[0].name, "dir");
    assert_eq!(recs[1].name, "x.bin");
}

#[test]
fn decoder_replaces_ill_formed_utf16() {
    let b = buffer(3, &[record_units(11, 22, 0, 0, &[0x61, 0xD800, 0x62])]);
    let recs = decode_records(&b, b.len());
    assert_eq!(recs[0].name, "a\u{FFFD}b");
}

#[test]
fn zero_length_record_stops_the_walk() {
    let mut b = buffer(3, &[record(11, 22, 0, 0, "one")]);
    b.extend_from_slice(&[0u8; 64]);
    b.extend_from_slice(&record(12, 22, 0, 0, "two"));
    assert_eq!(decode_records(&b, b.len()).len(), 1);
}

#[test]
fn overrunning_record_stops_the_walk() {
    let b = buffer(3, &[record(11, 22, 0, 0, "one"), record(12, 22, 0, 0, "two")]);
    assert_eq!(decode_records(&b, b.len() - 1).len(), 1);
    let mut bad_name = record(13, 22, 0, 0, "three");
    bad_name[58..60].copy_from_slice(&200u16.to_le_bytes());
    let b = buffer(3, &[bad_name]);
    assert!(decode_records(&b, b.len()).is_empty());
    assert!(decode_records(&b, 7).is_empty());
}

#[test]
fn empty_names_are_skipped() {
    let mut ix = index_with_users();
    let b = buffer(9, &[record(70, USERS, 0, 0, "")]);
    assert!(matches!(ix.ingest_enum_buffer(0, &b, b.len()), EnumStep::Next(9)));
    assert_eq!(ix.finish_build(), 1);
    let b = buffer(300, &[record(71, USERS, USN_REASON_FILE_CREATE, 0, "")]);
    let step = ix.journal_step(100, true, &b, b.len());
    assert!(step.changes.is_empty());
    assert_eq!(ix.entry_count(), 1);
}

#[test]
fn stalled_enumeration_is_reported() {
    let mut ix = MftIndex::new("C:".to_string());
    let b = buffer(4, &[record(70, ROOT, 0, 0, "x")]);
    assert!(matches!(ix.ingest_enum_buffer(4, &b, b.len()), EnumStep::Stalled));
    assert_eq!(ix.entry_count(), 0);
    assert!(matches!(ix.ingest_enum_buffer(0, &b, 5), EnumStep::Done));
}

#[test]
fn drive_with_trailing_separator_is_not_doubled() {
    let mut ix = MftIndex::new("E:\\".to_string());
    let b = buffer(1, &[record(70, ROOT, 0, 0, "x.txt")]);
    ix.ingest_enum_buffer(0, &b, b.len());
    ix.finish_build();
    assert_eq!(ix.reconstruct_path(70), Some("E:\\x.txt".to_string()));
}

#[test]
fn delete_of_unknown_frn_reports_nothing() {
    let mut ix = index_with_users();
    let b = buffer(300, &[record(4242, USERS, USN_REASON_FILE_DELETE, 0, "ghost.txt")]);
    let step = ix.journal_step(100, true, &b, b.len());
    assert!(step.changes.is_empty());
    assert_eq!(step.next_usn, 300);
    assert_eq!(ix.entry_count(), 1);
}
