use savedata_backup::paths::covers_exec;
use savedata_backup::paths::is_parent;
use savedata_backup::paths::path_lt_exec;
use savedata_backup::reduce::reduce_candidates;

fn v(s: &[u8]) -> Vec<u8> {
    s.to_vec()
}

#[test]
fn reduce_drops_nested_and_duplicate_matches() {
    let input = vec![
        v(b"C:\\Doc\\GameA\\Save"),
        v(b"C:\\Doc\\GameA\\Save\\Slot1"),
        v(b"C:\\Doc\\GameB"),
        v(b"C:\\Doc\\GameA\\Save"),
    ];
    let out = reduce_candidates(&input);
    assert_eq!(out, vec![v(b"C:\\Doc\\GameA\\Save"), v(b"C:\\Doc\\GameB")]);
}

#[test]
fn reduce_empty_input_yields_empty_output() {
    let input: Vec<Vec<u8>> = vec![];
    let out = reduce_candidates(&input);
    assert!(out.is_empty());
}

#[test]
fn reduce_keeps_sibling_with_common_name_prefix() {
    // `save2` is no descendant of `save`: prefix comparison is
    // component-wise, not a raw string prefix test.
    let input = vec![v(b"C:\\data\\save"), v(b"C:\\data\\save2")];
    let out = reduce_candidates(&input);
    assert_eq!(out, vec![v(b"C:\\data\\save"), v(b"C:\\data\\save2")]);
}

#[test]
fn reduce_orders_separator_before_other_bytes() {
    // In raw byte order `GameA Extra` falls between `GameA` and
    // `GameA\Save`; the component-wise order keeps descendants adjacent, so
    // the nested path is still dropped.
    let input = vec![
        v(b"C:\\Doc\\GameA\\Save"),
        v(b"C:\\Doc\\GameA Extra"),
        v(b"C:\\Doc\\GameA"),
    ];
    let out = reduce_candidates(&input);
    assert_eq!(out, vec![v(b"C:\\Doc\\GameA"), v(b"C:\\Doc\\GameA Extra")]);
}

#[test]
fn reduce_is_idempotent_on_its_own_output() {
    let input = vec![
        v(b"C:\\Doc\\GameA\\Save\\Slot1"),
        v(b"C:\\Doc\\GameB"),
        v(b"C:\\Doc\\GameA\\Save"),
        v(b"C:\\Doc\\GameB\\sav"),
    ];
    let once = reduce_candidates(&input);
    let twice = reduce_candidates(&once);
    assert_eq!(once, twice);
}

#[test]
fn reduce_is_deterministic_across_runs() {
    let input = vec![v(b"D:\\x\\y"), v(b"C:\\a"), v(b"D:\\x")];
    let first = reduce_candidates(&input);
    let second = reduce_candidates(&input);
    assert_eq!(first, second);
}

#[test]
fn reduce_output_has_no_nesting() {
    let input = vec![
        v(b"C:\\a"),
        v(b"C:\\a\\b"),
        v(b"C:\\a\\b\\c"),
        v(b"C:\\b\\c"),
        v(b"C:\\b"),
    ];
    let out = reduce_candidates(&input);
    for i in 0..out.len() {
        for j in 0..out.len() {
            if i != j {
                assert!(!covers_exec(&out[i], &out[j]));
            }
        }
    }
    assert_eq!(out, vec![v(b"C:\\a"), v(b"C:\\b")]);
}

#[test]
fn reduce_covers_every_input_exactly_once() {
    let input = vec![
        v(b"C:\\games\\one\\save"),
        v(b"C:\\games\\one\\save\\slot"),
        v(b"C:\\games\\two"),
        v(b"C:\\games\\one\\save"),
    ];
    let out = reduce_candidates(&input);
    for p in &input {
        let n = out.iter().filter(|c| covers_exec(c, p)).count();
        assert_eq!(n, 1);
    }
}

#[test]
fn is_parent_checks_component_boundaries() {
    assert!(is_parent(&Some(v(b"C:\\a")), &v(b"C:\\a\\b")));
    assert!(is_parent(&Some(v(b"C:\\a")), &v(b"C:\\a")));
    assert!(!is_parent(&Some(v(b"C:\\a")), &v(b"C:\\ab")));
    assert!(!is_parent(&None, &v(b"C:\\a")));
}

#[test]
fn path_order_puts_ancestors_first() {
    assert!(path_lt_exec(&v(b"C:\\a"), &v(b"C:\\a\\b")));
    assert!(path_lt_exec(&v(b"C:\\a\\b"), &v(b"C:\\a b")));
    assert!(!path_lt_exec(&v(b"C:\\a"), &v(b"C:\\a")));
}
