use savedata_backup::matcher::Entry;
use savedata_backup::matcher::EntryKind;
use savedata_backup::matcher::candidate_for_entry;
use savedata_backup::matcher::name_contains_marker;
use savedata_backup::matcher::search_archive_targets;

fn v(s: &[u8]) -> Vec<u8> {
    s.to_vec()
}

#[test]
fn marker_matching_ignores_ascii_case() {
    assert!(name_contains_marker(&v(b"sav")));
    assert!(name_contains_marker(&v(b"SAVE")));
    assert!(name_contains_marker(&v(b"MySaVedata")));
    assert!(name_contains_marker(&v(b"autosave.dat")));
    assert!(!name_contains_marker(&v(b"sa")));
    assert!(!name_contains_marker(&v(b"")));
    assert!(!name_contains_marker(&v(b"config")));
    assert!(!name_contains_marker(&v(b"sxaxv")));
}

#[test]
fn matched_file_yields_its_parent_directory() {
    let c = candidate_for_entry(&v(b"C:\\Doc\\GameB\\sav.dat"), EntryKind::File);
    assert_eq!(c, Some(v(b"C:\\Doc\\GameB")));
}

#[test]
fn matched_directory_yields_itself() {
    let c = candidate_for_entry(&v(b"C:\\Doc\\GameA\\Save"), EntryKind::Directory);
    assert_eq!(c, Some(v(b"C:\\Doc\\GameA\\Save")));
}

#[test]
fn unmatched_entry_yields_nothing() {
    let c = candidate_for_entry(&v(b"C:\\Doc\\GameA\\music"), EntryKind::File);
    assert_eq!(c, None);
}

#[test]
fn other_entry_kinds_are_dropped() {
    let c = candidate_for_entry(&v(b"C:\\Doc\\GameA\\Save"), EntryKind::Other);
    assert_eq!(c, None);
}

#[test]
fn matched_file_under_volume_root_yields_the_root() {
    let c = candidate_for_entry(&v(b"C:\\sav.dat"), EntryKind::File);
    assert_eq!(c, Some(v(b"C:\\")));
}

#[test]
fn marker_in_directory_name_only_counts_for_the_base_name() {
    // the base name `Slot1` holds no marker even though an ancestor does
    let c = candidate_for_entry(&v(b"C:\\Saves\\Slot1"), EntryKind::Directory);
    assert_eq!(c, None);
}

#[test]
fn search_reduces_matched_entries_to_candidate_roots() {
    let entries = vec![
        Entry { path: v(b"C:\\Doc\\GameA\\Save"), kind: EntryKind::Directory },
        Entry { path: v(b"C:\\Doc\\GameA\\Save\\Slot1\\data.sav"), kind: EntryKind::File },
        Entry { path: v(b"C:\\Doc\\GameB\\sav.dat"), kind: EntryKind::File },
        Entry { path: v(b"C:\\Doc\\GameC\\notes.txt"), kind: EntryKind::File },
    ];
    let out = search_archive_targets(&entries);
    assert_eq!(out, vec![v(b"C:\\Doc\\GameA\\Save"), v(b"C:\\Doc\\GameB")]);
}

#[test]
fn search_with_no_entries_yields_no_candidates() {
    let entries: Vec<Entry> = vec![];
    let out = search_archive_targets(&entries);
    assert!(out.is_empty());
}
