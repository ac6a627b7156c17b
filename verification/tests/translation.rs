use savedata_backup::archive::entry_path_in_dir;
use savedata_backup::archive::plan_entries;
use savedata_backup::translate::TranslateError;
use savedata_backup::translate::get_dest;

fn v(s: &[u8]) -> Vec<u8> {
    s.to_vec()
}

#[test]
fn translation_strips_volume_and_reroots_under_drive_letter() {
    assert_eq!(get_dest(&v(b"D:\\sub\\file.txt")), Ok(v(b"D\\sub\\file.txt")));
    assert_eq!(get_dest(&v(b"E:\\Saves\\Game1")), Ok(v(b"E\\Saves\\Game1")));
    assert_eq!(get_dest(&v(b"c:\\x")), Ok(v(b"c\\x")));
}

#[test]
fn translating_a_bare_volume_root_yields_the_drive_letter() {
    assert_eq!(get_dest(&v(b"C:\\")), Ok(v(b"C")));
}

#[test]
fn translation_round_trips_to_the_source_path() {
    let src = v(b"D:\\sub\\file.txt");
    let dest = get_dest(&src).unwrap();
    // re-prepend the volume designator and root separator
    let mut restored = vec![dest[0], b':', b'\\'];
    restored.extend_from_slice(&dest[2..]);
    assert_eq!(restored, src);
}

#[test]
fn single_component_paths_are_unsupported() {
    assert_eq!(get_dest(&v(b"file.txt")), Err(TranslateError::UnsupportedPathKind));
    assert_eq!(get_dest(&v(b"C:")), Err(TranslateError::UnsupportedPathKind));
    assert_eq!(get_dest(&v(b"")), Err(TranslateError::UnsupportedPathKind));
}

#[test]
fn paths_without_a_volume_designator_are_unsupported() {
    assert_eq!(get_dest(&v(b"\\\\server\\share\\x")), Err(TranslateError::UnsupportedPathKind));
    assert_eq!(get_dest(&v(b"sub\\file.txt")), Err(TranslateError::UnsupportedPathKind));
    assert_eq!(get_dest(&v(b"AB:\\x")), Err(TranslateError::UnsupportedPathKind));
    assert_eq!(get_dest(&v(b"1:\\x")), Err(TranslateError::UnsupportedPathKind));
    assert_eq!(get_dest(&v(b"C:x")), Err(TranslateError::UnsupportedPathKind));
}

#[test]
fn planned_entries_pair_sources_with_destinations() {
    let sources = vec![v(b"E:\\Saves\\Game1"), v(b"C:\\Doc\\GameB")];
    let plan = plan_entries(&sources).unwrap();
    assert_eq!(plan.len(), 2);
    assert_eq!(plan[0].source, v(b"E:\\Saves\\Game1"));
    assert_eq!(plan[0].dest, v(b"E\\Saves\\Game1"));
    assert_eq!(plan[1].source, v(b"C:\\Doc\\GameB"));
    assert_eq!(plan[1].dest, v(b"C\\Doc\\GameB"));
}

#[test]
fn one_unsupported_source_aborts_the_whole_plan() {
    let sources = vec![v(b"E:\\Saves\\Game1"), v(b"relative\\path")];
    let plan = plan_entries(&sources);
    assert!(matches!(plan, Err(TranslateError::UnsupportedPathKind)));
}

#[test]
fn archived_directory_entries_are_rooted_at_its_destination() {
    let dest = get_dest(&v(b"E:\\Saves\\Game1")).unwrap();
    let inner = entry_path_in_dir(&dest, &v(b"slot1.dat"));
    assert_eq!(inner, v(b"E\\Saves\\Game1\\slot1.dat"));
    let nested = entry_path_in_dir(&dest, &v(b"profile\\slot2.dat"));
    assert_eq!(nested, v(b"E\\Saves\\Game1\\profile\\slot2.dat"));
}
