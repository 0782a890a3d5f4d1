use engine::mega::folder::{compute_paths, dedup_name};

fn info(entries: &[(&str, &str, &str)]) -> Vec<(String, (String, String))> {
    entries
        .iter()
        .map(|(h, name, p)| (h.to_string(), (name.to_string(), p.to_string())))
        .collect()
}

fn path_of<'a>(map: &[(String, (String, String))], paths: &'a [String], h: &str) -> &'a str {
    let i = map.iter().position(|(k, _)| k == h).unwrap();
    &paths[i]
}

#[test]
fn computes_nested_paths() {
    let map = info(&[
        ("root", "Root", "MISSING"),
        ("a", "Sub", "root"),
        ("f", "file.mp4", "a"),
    ]);
    let paths = compute_paths(&map);
    assert_eq!(path_of(&map, &paths, "root"), "Root");
    assert_eq!(path_of(&map, &paths, "a"), "Root/Sub");
    assert_eq!(path_of(&map, &paths, "f"), "Root/Sub/file.mp4");
}

#[test]
fn parent_cycle_does_not_hang() {
    // a → b → a: corrupt data must degrade gracefully, not recurse forever.
    let map = info(&[("a", "A", "b"), ("b", "B", "a"), ("c", "C", "a")]);
    let paths = compute_paths(&map);
    assert_eq!(paths.len(), 3);
    assert!(path_of(&map, &paths, "c").ends_with("/C"));
}

#[test]
fn dedup_names() {
    assert_eq!(dedup_name("file.mp4", 2), "file (2).mp4");
    assert_eq!(dedup_name("no-ext", 3), "no-ext (3)");
    assert_eq!(dedup_name(".hidden", 2), ".hidden (2)");
}

#[test]
fn dedup_name_uses_last_dot_and_decimal() {
    assert_eq!(dedup_name("a.tar.gz", 10), "a.tar (10).gz");
    assert_eq!(dedup_name("x", 4294967295), "x (4294967295)");
}

#[test]
fn child_of_empty_named_root_has_no_leading_slash() {
    let map = info(&[("r", "", ""), ("c", "C", "r")]);
    let paths = compute_paths(&map);
    assert_eq!(paths, vec!["".to_string(), "C".to_string()]);
}

#[test]
fn parent_loop_is_cut_once() {
    let map = info(&[("a", "A", "b"), ("b", "B", "a"), ("c", "C", "a")]);
    let paths = compute_paths(&map);
    let a = path_of(&map, &paths, "a");
    let b = path_of(&map, &paths, "b");
    assert!((a == "A") != (b == "B"));
    assert!(a == format!("{b}/A") || b == format!("{a}/B"));
    assert_eq!(path_of(&map, &paths, "c"), format!("{a}/C"));
}

#[test]
fn dedup_counters_give_distinct_names() {
    let names: Vec<String> = (2u32..14).map(|n| dedup_name("clip.mp4", n)).collect();
    for (i, a) in names.iter().enumerate() {
        assert_ne!(a, "clip.mp4");
        for b in &names[i + 1..] {
            assert_ne!(a, b);
        }
    }
    assert_eq!(dedup_name("clip.mp4", 12), "clip (12).mp4");
}
