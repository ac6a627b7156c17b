use savedata_backup::context::AppContext;
use savedata_backup::store::parse_lines;
use savedata_backup::store::render_lines;

fn v(s: &[u8]) -> Vec<u8> {
    s.to_vec()
}

#[test]
fn an_empty_candidate_set_renders_as_empty_text() {
    let paths: Vec<Vec<u8>> = vec![];
    assert_eq!(render_lines(&paths), v(b""));
}

#[test]
fn rendering_writes_one_path_per_line_in_order() {
    let paths = vec![v(b"C:\\Doc\\GameA\\Save"), v(b"C:\\Doc\\GameB")];
    assert_eq!(render_lines(&paths), v(b"C:\\Doc\\GameA\\Save\nC:\\Doc\\GameB\n"));
}

#[test]
fn parsing_empty_text_yields_no_lines() {
    let lines = parse_lines(&v(b""));
    assert!(lines.is_empty());
}

#[test]
fn parsing_splits_on_newlines() {
    let lines = parse_lines(&v(b"C:\\a\nC:\\b\n"));
    assert_eq!(lines, vec![v(b"C:\\a"), v(b"C:\\b")]);
}

#[test]
fn parsing_keeps_a_final_line_without_a_newline() {
    let lines = parse_lines(&v(b"C:\\a\nC:\\b"));
    assert_eq!(lines, vec![v(b"C:\\a"), v(b"C:\\b")]);
}

#[test]
fn parsing_drops_the_carriage_return_of_a_crlf_ending() {
    let lines = parse_lines(&v(b"C:\\a\r\nC:\\b\r\n"));
    assert_eq!(lines, vec![v(b"C:\\a"), v(b"C:\\b")]);
}

#[test]
fn parsing_keeps_empty_interior_lines() {
    let lines = parse_lines(&v(b"a\n\nb\n"));
    assert_eq!(lines, vec![v(b"a"), v(b""), v(b"b")]);
}

#[test]
fn rendering_then_parsing_returns_the_same_paths() {
    let paths = vec![v(b"C:\\Doc\\GameA\\Save"), v(b"C:\\Doc\\GameB"), v(b"E:\\S")];
    let text = render_lines(&paths);
    assert_eq!(parse_lines(&text), paths);
}

#[test]
fn context_holds_the_configured_file_locations() {
    let ctx = AppContext {
        config_dir: String::from("cfg"),
        search_dir_file: String::from("cfg/search_dir.txt"),
        target_dir_file: String::from("cfg/target_dir.txt"),
        target_file_file: String::from("cfg/target_file.txt"),
    };
    assert_eq!(ctx.config_dir, "cfg");
    assert_eq!(ctx.search_dir_file, "cfg/search_dir.txt");
    assert_eq!(ctx.target_dir_file, "cfg/target_dir.txt");
    assert_eq!(ctx.target_file_file, "cfg/target_file.txt");
}
