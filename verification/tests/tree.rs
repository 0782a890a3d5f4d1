use aes::cipher::generic_array::GenericArray;
use aes::cipher::{BlockEncrypt, KeyInit};
use engine::mega::crypto::b64encode;
use engine::mega::folder::{
    build_tree, build_tree_checked, decode_node_key, folder_source, master_key, RawNode,
};
use engine::mega::names::{dedup_sibling_names, sanitize_segment};
use engine::mega::{MegaLink, NodeKind};
use engine::Error;

fn ecb_encrypt(key: &[u8; 16], data: &[u8]) -> Vec<u8> {
    let cipher = aes::Aes128::new(GenericArray::from_slice(key));
    let mut out = Vec::new();
    for chunk in data.chunks(16) {
        let mut b = GenericArray::clone_from_slice(chunk);
        cipher.encrypt_block(&mut b);
        out.extend_from_slice(&b);
    }
    out
}

fn cbc_encrypt(key: &[u8; 16], plain: &[u8]) -> Vec<u8> {
    let cipher = aes::Aes128::new(GenericArray::from_slice(key));
    let mut prev = [0u8; 16];
    let mut out = Vec::new();
    for chunk in plain.chunks(16) {
        let mut block = [0u8; 16];
        for i in 0..16 {
            block[i] = chunk[i] ^ prev[i];
        }
        let mut ga = GenericArray::clone_from_slice(&block);
        cipher.encrypt_block(&mut ga);
        prev.copy_from_slice(&ga);
        out.extend_from_slice(&ga);
    }
    out
}

fn attrs(key: &[u8; 16], name: &str) -> String {
    let mut plain = format!("MEGA{{\"n\":\"{name}\"}}").into_bytes();
    while plain.len() % 16 != 0 {
        plain.push(0);
    }
    b64encode(&cbc_encrypt(key, &plain))
}

const MASTER: [u8; 16] = [3u8; 16];

fn folder(h: &str, p: &str, name: &str, key: [u8; 16]) -> RawNode {
    RawNode {
        h: h.into(),
        p: p.into(),
        t: 1,
        a: Some(attrs(&key, name)),
        k: Some(format!("share:{}", b64encode(&ecb_encrypt(&MASTER, &key)))),
        s: None,
    }
}

fn file(h: &str, p: &str, name: &str, full: [u8; 32], size: i64) -> RawNode {
    let mut aes_key = [0u8; 16];
    for i in 0..16 {
        aes_key[i] = full[i] ^ full[i + 16];
    }
    RawNode {
        h: h.into(),
        p: p.into(),
        t: 0,
        a: Some(attrs(&aes_key, name)),
        k: Some(format!("share:{}", b64encode(&ecb_encrypt(&MASTER, &full)))),
        s: Some(size),
    }
}

#[test]
fn master_key_takes_first_sixteen_bytes() {
    let text = b64encode(&[9u8; 20]);
    assert_eq!(master_key(&text).unwrap(), [9u8; 16]);
    assert_eq!(
        master_key(&b64encode(&[1u8; 8])),
        Err(Error::InvalidLink("folder key too short".into()))
    );
}

#[test]
fn folder_source_rejects_file_links() {
    let link = MegaLink::File { id: "x".into(), key: "y".into() };
    assert!(matches!(folder_source(&link), Err(Error::Other(_))));
    let key = b64encode(&[5u8; 16]);
    let link = MegaLink::Folder { id: "fid".into(), key, file: None };
    assert_eq!(folder_source(&link).unwrap(), ("fid".to_string(), [5u8; 16]));
}

#[test]
fn node_keys_unwrap_to_sixteen_or_thirty_two_bytes() {
    let n = folder("h", "", "x", [4u8; 16]);
    assert_eq!(decode_node_key(&MASTER, &n).unwrap(), vec![4u8; 16]);
    let f = file("h", "", "x", [6u8; 32], 1);
    assert_eq!(decode_node_key(&MASTER, &f).unwrap(), vec![6u8; 32]);
    let mut bad = f.clone();
    bad.k = None;
    assert_eq!(decode_node_key(&MASTER, &bad), None);
    bad.k = Some("share:AAAA".into());
    assert_eq!(decode_node_key(&MASTER, &bad), None);
}

#[test]
fn builds_tree_with_paths_names_and_totals() {
    let mut full = [0u8; 32];
    full[0] = 1;
    full[31] = 2;
    let raw = vec![
        file("f2", "sub", "b.mp4", full, 20),
        folder("sub", "root", "Sub", [8u8; 16]),
        folder("root", "MISSING", "Root", [7u8; 16]),
        file("f1", "sub", "a.mp4", [9u8; 32], 10),
        RawNode { h: "bad".into(), p: "root".into(), t: 0, a: None, k: None, s: Some(99) },
    ];
    let tree = build_tree(&MASTER, raw).unwrap();
    assert_eq!(tree.root_handle, "root");
    assert_eq!(tree.root_name, "Root");
    assert_eq!(tree.total_files, 2);
    assert_eq!(tree.total_folders, 2);
    assert_eq!(tree.total_bytes, 30);
    let paths: Vec<&str> = tree.nodes.iter().map(|n| n.rel_path.as_str()).collect();
    assert_eq!(paths, vec!["Root", "Root/Sub", "Root/Sub/a.mp4", "Root/Sub/b.mp4"]);
    assert_eq!(tree.nodes[0].parent, None);
    assert_eq!(tree.nodes[1].parent.as_deref(), Some("root"));
    assert_eq!(tree.nodes[3].file_key, Some(full));
    assert_eq!(tree.nodes[3].kind, NodeKind::File);
    assert_eq!(tree.nodes[1].file_key, None);
}

#[test]
fn colliding_siblings_are_renamed() {
    let raw = vec![
        folder("root", "", "Root", [7u8; 16]),
        file("x", "root", "A:b.txt", [1u8; 32], 1),
        file("y", "root", "a*B.txt", [2u8; 32], 1),
        file("z", "root", "a_b.txt", [3u8; 32], 1),
    ];
    let tree = build_tree(&MASTER, raw).unwrap();
    let names: Vec<&str> = tree.nodes.iter().map(|n| n.name.as_str()).collect();
    assert_eq!(names, vec!["Root", "A:b.txt", "a*B (2).txt", "a_b (3).txt"]);
}

#[test]
fn undecodable_names_and_empty_listing() {
    let mut n = folder("root", "", "Root", [7u8; 16]);
    n.a = Some("!!".into());
    let tree = build_tree(&MASTER, vec![n]).unwrap();
    assert_eq!(tree.root_name, "(undecodable name)");
    let empty = build_tree(&MASTER, vec![]).unwrap();
    assert_eq!(empty.root_handle, "");
    assert_eq!(empty.root_name, "(root)");
    assert!(empty.nodes.is_empty());
}

#[test]
fn root_prefers_a_folder() {
    let raw = vec![
        file("f", "elsewhere", "loose.bin", [1u8; 32], 5),
        folder("d", "nowhere", "Top", [7u8; 16]),
    ];
    let tree = build_tree(&MASTER, raw).unwrap();
    assert_eq!(tree.root_handle, "d");
}

#[test]
fn sanitizes_reserved_characters() {
    assert_eq!(sanitize_segment("a:b*c?\"<>|/\\\u{1}"), "a_b_c________");
    assert_eq!(sanitize_segment("plain name.txt"), "plain name.txt");
}

#[test]
fn dedup_keeps_first_and_renames_later() {
    let entries = vec![
        ("p".to_string(), "x.txt".to_string()),
        ("p".to_string(), "X.TXT".to_string()),
        ("q".to_string(), "x.txt".to_string()),
    ];
    assert_eq!(
        dedup_sibling_names(&entries).unwrap(),
        vec!["x.txt".to_string(), "X (2).TXT".to_string(), "x.txt".to_string()]
    );
}

#[test]
fn checked_build_refuses_sizes_that_overflow() {
    let raw = vec![
        file("a", "", "a.bin", [1u8; 32], i64::MAX),
        file("b", "", "b.bin", [2u8; 32], 1),
    ];
    assert!(build_tree_checked(&MASTER, raw).is_none());

    let dropped = RawNode { h: "gone".into(), p: "".into(), t: 0, a: None, k: None, s: Some(i64::MAX) };
    let raw = vec![dropped, file("b", "", "b.bin", [2u8; 32], 1)];
    let tree = build_tree_checked(&MASTER, raw).unwrap().unwrap();
    assert_eq!(tree.total_bytes, 1);
    assert_eq!(tree.nodes.len(), 1);

    let raw = vec![file("m", "", "m.bin", [3u8; 32], i64::MIN)];
    let tree = build_tree_checked(&MASTER, raw).unwrap().unwrap();
    assert_eq!(tree.total_bytes, i64::MIN);
}
