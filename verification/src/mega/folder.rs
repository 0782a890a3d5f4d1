//! Reconstruct the node tree behind a MEGA *folder* link.
//!
//! Flow:
//!   1. The listing (fetched elsewhere) gives every node encrypted.
//!   2. For each node, unwrap its key with the folder master key (AES-ECB) and
//!      decrypt its attributes (AES-CBC) to recover the name.
//!   3. Re-link nodes by parent handle and compute on-disk relative paths.

use vstd::prelude::*;

use crate::error::{Error, ErrorView};
use crate::mega::crypto::{
    aes_ecb_decrypt, attributes_spec, b64decode, b64url_decoding, b64url_error,
    decrypt_attributes, ecb_decrypt, unpack_file_key,
};
use crate::mega::link::MegaLink;
use crate::mega::names::{
    collision_key, counters_separate, dedup_all, dedup_sibling_names, group_size,
    lemma_dedup_all_succeeds, lemma_dedup_keys_distinct, pair_view, texts_view,
};
use crate::mega::order::{
    is_permutation, lemma_permutation_onto, lemma_permutation_sum, lex_le, stable_order,
    stably_sorted, sum_below, sum_over,
};
pub use crate::mega::paths::compute_paths;
use crate::mega::paths::{
    find_handle, find_handle_from, handle_index, info_view, join_path, on_parent_cycle,
    parent_index, path_consistent, paths_consistent,
};
use crate::text::{
    chars_of, concat_chars, signed_decimal, signed_decimal_chars, last_index_of, last_index_of_exec, lemma_last_index_of, slice_chars, starts_with,
    string_of, trim_ws,
};

pub use crate::mega::names::{dedup_name, dedup_name_spec};

verus! {

/// The view of an optional text.
pub open spec fn opt_text(o: Option<String>) -> Option<Seq<char>> {
    match o {
        Some(s) => Some(s@),
        None => None,
    }
}

/// A node as returned by the MEGA API (encrypted).
#[derive(Debug, Clone)]
pub struct RawNode {
    /// node handle
    pub h: String,
    /// parent handle (empty when absent)
    pub p: String,
    /// type: 0 = file, 1 = folder (2..=4 are account roots, not seen in folder links)
    pub t: i64,
    /// encrypted attributes
    pub a: Option<String>,
    /// encrypted key, formatted `<sharehandle>:<base64>`
    pub k: Option<String>,
    /// size in bytes (files only)
    pub s: Option<i64>,
}

/// The model of a [`RawNode`].
pub struct RawNodeView {
    pub h: Seq<char>,
    pub p: Seq<char>,
    pub t: i64,
    pub a: Option<Seq<char>>,
    pub k: Option<Seq<char>>,
    pub s: Option<i64>,
}

impl View for RawNode {
    type V = RawNodeView;

    open spec fn view(&self) -> RawNodeView {
        RawNodeView {
            h: self.h@,
            p: self.p@,
            t: self.t,
            a: opt_text(self.a),
            k: opt_text(self.k),
            s: self.s,
        }
    }
}

/// Whether a node is a file or a folder.
#[derive(Debug, Clone, Copy, PartialEq, Eq, Structural)]
pub enum NodeKind {
    File,
    Folder,
}

/// A decrypted node in the reconstructed tree.
#[derive(Debug, Clone)]
pub struct TreeNode {
    pub handle: String,
    /// Parent handle, or `None` for the shared root.
    pub parent: Option<String>,
    pub kind: NodeKind,
    pub name: String,
    pub size: i64,
    /// Path from the root (inclusive), used to fold files into the right dirs.
    pub rel_path: String,
    /// Full 32-byte decrypted node key (files only): AES key + nonce + meta-MAC.
    pub file_key: Option<[u8; 32]>,
}

/// The model of a [`TreeNode`].
pub struct TreeNodeView {
    pub handle: Seq<char>,
    pub parent: Option<Seq<char>>,
    pub kind: NodeKind,
    pub name: Seq<char>,
    pub size: i64,
    pub rel_path: Seq<char>,
    pub file_key: Option<Seq<u8>>,
}

impl View for TreeNode {
    type V = TreeNodeView;

    open spec fn view(&self) -> TreeNodeView {
        TreeNodeView {
            handle: self.handle@,
            parent: opt_text(self.parent),
            kind: self.kind,
            name: self.name@,
            size: self.size,
            rel_path: self.rel_path@,
            file_key: match self.file_key {
                Some(k) => Some(k@),
                None => None,
            },
        }
    }
}

/// The fully reconstructed folder tree plus summary stats.
#[derive(Debug, Clone)]
pub struct Tree {
    pub root_handle: String,
    pub root_name: String,
    pub total_files: usize,
    pub total_folders: usize,
    pub total_bytes: i64,
    pub nodes: Vec<TreeNode>,
}

/// What [`master_key`] makes of the key text of a folder link.
pub open spec fn master_key_spec(folder_key_b64: Seq<char>) -> Option<Seq<u8>> {
    match b64url_decoding(trim_ws(folder_key_b64)) {
        Some(b) => if b.len() >= 16 {
            Some(b.take(16))
        } else {
            None
        },
        None => None,
    }
}

/// Decode the 16-byte folder master key from the link fragment.
pub fn master_key(folder_key_b64: &str) -> (r: Result<[u8; 16], Error>)
    ensures
        match b64url_decoding(trim_ws(folder_key_b64@)) {
            None => r matches Err(Error::Other(m)) && m@ == "base64 decode: "@ + b64url_error(
                trim_ws(folder_key_b64@),
            ),
            Some(b) => if b.len() < 16 {
                r matches Err(e) && e@ == ErrorView::InvalidLink("folder key too short"@)
            } else {
                r matches Ok(k) && k@ == b.take(16)
            },
        },
        match r {
            Ok(k) => master_key_spec(folder_key_b64@) == Some(k@),
            Err(_) => master_key_spec(folder_key_b64@) is None,
        },
{
    let bytes = match b64decode(folder_key_b64) {
        Ok(b) => b,
        Err(e) => return Err(e),
    };
    if bytes.len() < 16 {
        let msg = chars_of("folder key too short");
        return Err(Error::InvalidLink(string_of(msg.as_slice())));
    }
    let mut key = [0u8; 16];
    let mut i: usize = 0;
    while i < 16
        invariant
            bytes@.len() >= 16,
            i <= 16,
            forall|m: int| 0 <= m < i ==> key@[m] == bytes@[m],
        decreases 16 - i,
    {
        key[i] = bytes[i];
        i = i + 1;
    }
    assert(key@ =~= bytes@.take(16));
    Ok(key)
}

/// The text after the last `c` in `s` (all of `s` without one), as
/// `s.rsplit(c).next()` gives it.
pub open spec fn after_last(s: Seq<char>, c: char) -> Seq<char> {
    match last_index_of(s, c) {
        Some(i) => s.skip(i + 1),
        None => s,
    }
}

/// The raw decrypted key of a node: 32 bytes for files (AES key + nonce +
/// meta-MAC) and 16 bytes for folders, or `None` where it cannot be had.
pub open spec fn node_key_spec(master: Seq<u8>, k: Option<Seq<char>>, t: i64) -> Option<Seq<u8>> {
    match k {
        None => None,
        Some(kf) => match b64url_decoding(trim_ws(after_last(kf, ':'))) {
            None => None,
            Some(enc) => if enc.len() == 0 || enc.len() % 16 != 0 {
                None
            } else {
                let need: int = if t == 0 {
                    32
                } else {
                    16
                };
                let dec = ecb_decrypt(master, enc);
                if dec.len() >= need {
                    Some(dec.take(need))
                } else {
                    None
                }
            },
        },
    }
}

/// Unwrap a node's raw decrypted key with the folder master key. Returns 32
/// bytes for files (AES key + nonce + meta-MAC) and 16 bytes for folders.
pub fn decode_node_key(master: &[u8; 16], n: &RawNode) -> (r: Option<Vec<u8>>)
    ensures
        match r {
            Some(v) => node_key_spec(master@, n@.k, n.t) == Some(v@),
            None => node_key_spec(master@, n@.k, n.t) is None,
        },
        r matches Some(v) ==> v@.len() == if n.t == 0 {
            32int
        } else {
            16int
        },
{
    let k_field = match &n.k {
        Some(k) => k,
        None => return None,
    };
    // Format is `<sharehandle>:<base64>`; we want the part after the last ':'.
    let chars = chars_of(k_field.as_str());
    let key_chars = match last_index_of_exec(&chars, ':') {
        Some(i) => {
            proof {
                lemma_last_index_of(chars@, ':');
            }
            assert(i < chars@.len());
            slice_chars(&chars, i + 1, chars.len())
        },
        None => slice_chars(&chars, 0, chars.len()),
    };
    assert(key_chars@ =~= after_last(k_field@, ':'));
    let key_b64 = string_of(key_chars.as_slice());
    let enc = match b64decode(key_b64.as_str()) {
        Ok(e) => e,
        Err(_) => return None,
    };
    if enc.len() == 0 || enc.len() % 16 != 0 {
        return None;
    }
    let need: usize = if n.t == 0 {
        32
    } else {
        16
    };
    let dec = aes_ecb_decrypt(master, enc.as_slice());
    if dec.len() >= need {
        let mut out: Vec<u8> = Vec::new();
        let mut i: usize = 0;
        while i < need
            invariant
                i <= need <= dec@.len(),
                out@ == dec@.take(i as int),
            decreases need - i,
        {
            out.push(dec[i]);
            i = i + 1;
            assert(dec@.take(i as int) =~= dec@.take(i - 1).push(dec@[i - 1]));
        }
        Some(out)
    } else {
        None
    }
}


/// The name given to a node whose attributes cannot be read.
pub open spec fn undecodable_name() -> Seq<char> {
    "(undecodable name)"@
}

/// The string member `member` of the JSON object in `json`, as `serde_json`
/// reads it (`None` where `json` is not JSON, not an object, or has no string
/// member of that name).
pub uninterp spec fn json_member(json: Seq<char>, member: Seq<char>) -> Option<Seq<char>>;

/// Trusted: calls `serde_json::from_str::<serde_json::Value>`, then
/// `Value::get(member)`, and keeps the member where it is a string. Claims only that the result is
/// that string member, which depends on the two texts alone.
#[verifier::external_body]
fn json_string_member(json: &str, member: &str) -> (r: Option<String>)
    ensures
        opt_text(r) == json_member(json@, member@),
{
    match serde_json::from_str::<serde_json::Value>(json) {
        Ok(v) => match v.get(member) {
            Some(serde_json::Value::String(n)) => Some(n.clone()),
            _ => None,
        },
        Err(_) => None,
    }
}

/// The 16-byte AES key folded from a 32-byte file key.
pub open spec fn unpack_spec(k: Seq<u8>) -> Seq<u8> {
    Seq::new(16, |i: int| k[i] ^ k[i + 16])
}

/// The name of a node: the `n` field of its decrypted attributes, or
/// `(undecodable name)`.
pub open spec fn node_name_spec(attr_key: Seq<u8>, a: Option<Seq<char>>) -> Seq<char> {
    match a {
        None => undecodable_name(),
        Some(a) => match attributes_spec(attr_key, a) {
            None => undecodable_name(),
            Some(json) => match json_member(json, "n"@) {
                Some(n) => n,
                None => undecodable_name(),
            },
        },
    }
}

/// A listed node after key unwrapping and name decryption.
pub struct DecodedView {
    pub handle: Seq<char>,
    pub parent: Seq<char>,
    pub kind: NodeKind,
    pub name: Seq<char>,
    pub size: i64,
    pub file_key: Option<Seq<u8>>,
}

/// A listed node after key unwrapping and name decryption.
pub struct Decoded {
    pub handle: String,
    pub parent: String,
    pub kind: NodeKind,
    pub name: String,
    pub size: i64,
    pub file_key: Option<[u8; 32]>,
}

impl View for Decoded {
    type V = DecodedView;

    open spec fn view(&self) -> DecodedView {
        DecodedView {
            handle: self.handle@,
            parent: self.parent@,
            kind: self.kind,
            name: self.name@,
            size: self.size,
            file_key: match self.file_key {
                Some(k) => Some(k@),
                None => None,
            },
        }
    }
}

/// What a raw node decodes to, or `None` where its key cannot be unwrapped
/// (such nodes are left out of the tree).
pub open spec fn decode_raw(master: Seq<u8>, n: RawNodeView) -> Option<DecodedView> {
    match node_key_spec(master, n.k, n.t) {
        None => None,
        Some(raw_key) => {
            let kind = if n.t == 0 {
                NodeKind::File
            } else {
                NodeKind::Folder
            };
            let attr_key = if kind == NodeKind::File {
                unpack_spec(raw_key)
            } else {
                raw_key.take(16)
            };
            Some(
                DecodedView {
                    handle: n.h,
                    parent: n.p,
                    kind,
                    name: node_name_spec(attr_key, n.a),
                    size: match n.s {
                        Some(s) => s,
                        None => 0,
                    },
                    file_key: if kind == NodeKind::File {
                        Some(raw_key.take(32))
                    } else {
                        None
                    },
                },
            )
        },
    }
}

/// The decodable nodes of a listing, in listing order.
pub open spec fn decoded_nodes(master: Seq<u8>, raws: Seq<RawNodeView>) -> Seq<DecodedView>
    decreases raws.len(),
{
    if raws.len() == 0 {
        Seq::empty()
    } else {
        let rest = decoded_nodes(master, raws.drop_last());
        match decode_raw(master, raws.last()) {
            Some(d) => rest.push(d),
            None => rest,
        }
    }
}

/// The model of a listing.
pub open spec fn raw_view(raws: Seq<RawNode>) -> Seq<RawNodeView> {
    raws.map_values(|n: RawNode| n@)
}

/// Unwrap a node's key and decrypt its name; `None` where the key cannot be
/// unwrapped.
pub fn decode_node(master: &[u8; 16], n: &RawNode) -> (r: Option<Decoded>)
    ensures
        match r {
            Some(d) => decode_raw(master@, n@) == Some(d@),
            None => decode_raw(master@, n@) is None,
        },
{
    let raw_key = match decode_node_key(master, n) {
        Some(k) => k,
        None => return None,
    };
    let kind = if n.t == 0 {
        NodeKind::File
    } else {
        NodeKind::Folder
    };
    // Attributes are decrypted with the 16-byte key: the folded AES key for
    // files, or the folder key directly.
    let mut attr_key = [0u8; 16];
    if n.t == 0 {
        attr_key = unpack_file_key(raw_key.as_slice());
        assert(attr_key@ =~= unpack_spec(raw_key@));
    } else {
        let mut i: usize = 0;
        while i < 16
            invariant
                raw_key@.len() == 16,
                i <= 16,
                forall|m: int| 0 <= m < i ==> attr_key@[m] == raw_key@[m],
            decreases 16 - i,
        {
            attr_key[i] = raw_key[i];
            i = i + 1;
        }
        assert(attr_key@ =~= raw_key@.take(16));
    }
    let name = match &n.a {
        Some(a) => match decrypt_attributes(&attr_key, a.as_str()) {
            Ok(json) => match json_string_member(json.as_str(), "n") {
                Some(nm) => nm,
                None => string_of(chars_of("(undecodable name)").as_slice()),
            },
            Err(_) => string_of(chars_of("(undecodable name)").as_slice()),
        },
        None => string_of(chars_of("(undecodable name)").as_slice()),
    };
    // Files keep the full 32-byte key for native AES-CTR decryption.
    let file_key = if n.t == 0 {
        let mut k = [0u8; 32];
        let mut i: usize = 0;
        while i < 32
            invariant
                raw_key@.len() == 32,
                i <= 32,
                forall|m: int| 0 <= m < i ==> k@[m] == raw_key@[m],
            decreases 32 - i,
        {
            k[i] = raw_key[i];
            i = i + 1;
        }
        assert(k@ =~= raw_key@.take(32));
        Some(k)
    } else {
        None
    };
    let size = match n.s {
        Some(s) => s,
        None => 0,
    };
    Some(Decoded { handle: n.h.clone(), parent: n.p.clone(), kind, name, size, file_key })
}


/// The model of a list of decoded nodes.
pub open spec fn decoded_view(v: Seq<Decoded>) -> Seq<DecodedView> {
    v.map_values(|d: Decoded| d@)
}

/// The sum of the sizes of decoded nodes.
pub open spec fn total_size(d: Seq<DecodedView>) -> int
    decreases d.len(),
{
    if d.len() == 0 {
        0
    } else {
        total_size(d.drop_last()) + d.last().size
    }
}

/// Every running total of the sizes of decoded nodes, taken in order, fits
/// in an `i64`.
pub open spec fn sums_fit(d: Seq<DecodedView>) -> bool {
    forall|k: int| 0 <= k <= d.len() ==> i64::MIN <= #[trigger] total_size(d.take(k)) <= i64::MAX
}

/// The number of decoded nodes of a kind.
pub open spec fn count_kind(d: Seq<DecodedView>, kind: NodeKind) -> nat
    decreases d.len(),
{
    if d.len() == 0 {
        0
    } else {
        count_kind(d.drop_last(), kind) + if d.last().kind == kind {
            1nat
        } else {
            0nat
        }
    }
}

/// Decode every node of a listing that can be decoded, in listing order.
fn decode_listing(master: &[u8; 16], raw: &Vec<RawNode>) -> (r: Vec<Decoded>)
    ensures
        decoded_view(r@) == decoded_nodes(master@, raw_view(raw@)),
{
    let ghost rv = raw_view(raw@);
    let mut decoded: Vec<Decoded> = Vec::new();
    let mut i: usize = 0;
    assert(rv.take(0) =~= Seq::<RawNodeView>::empty());
    assert(decoded_view(decoded@) =~= Seq::<DecodedView>::empty());
    while i < raw.len()
        invariant
            i <= raw.len(),
            rv == raw_view(raw@),
            decoded_view(decoded@) == decoded_nodes(master@, rv.take(i as int)),
        decreases raw.len() - i,
    {
        assert(rv.take(i + 1).drop_last() =~= rv.take(i as int));
        assert(rv.take(i + 1).last() == raw@[i as int]@);
        let ghost before = decoded@;
        match decode_node(master, &raw[i]) {
            Some(d) => {
                decoded.push(d);
                assert(decoded_view(decoded@) =~= decoded_view(before).push(d@));
            },
            None => {},
        }
        i = i + 1;
    }
    assert(rv.take(raw.len() as int) =~= rv);
    decoded
}

/// The last index of a decoded node with handle `h` (later entries of one
/// handle override earlier ones).
pub open spec fn last_with_handle(d: Seq<DecodedView>, h: Seq<char>) -> Option<int>
    decreases d.len(),
{
    if d.len() == 0 {
        None
    } else if d.last().handle == h {
        Some(d.len() - 1)
    } else {
        last_with_handle(d.drop_last(), h)
    }
}

proof fn lemma_last_with_handle(d: Seq<DecodedView>, h: Seq<char>)
    ensures
        last_with_handle(d, h) matches Some(j) ==> 0 <= j < d.len() && d[j].handle == h,
    decreases d.len(),
{
    if d.len() > 0 && d.last().handle != h {
        lemma_last_with_handle(d.drop_last(), h);
    }
}

/// The parent handle recorded for node `i`'s handle: that of the last node
/// listed under the handle.
pub open spec fn sibling_parent(d: Seq<DecodedView>, i: int) -> Seq<char> {
    match last_with_handle(d, d[i].handle) {
        Some(j) => d[j].parent,
        None => d[i].parent,
    }
}

/// Some decoded node has handle `h`.
pub open spec fn handle_listed(d: Seq<DecodedView>, h: Seq<char>) -> bool {
    exists|j: int| 0 <= j < d.len() && d[j].handle == h
}

/// The `(parent, name)` entries whose sibling names are de-duplicated.
pub open spec fn dedup_entries(d: Seq<DecodedView>) -> Seq<(Seq<char>, Seq<char>)> {
    Seq::new(d.len(), |i: int| (sibling_parent(d, i), d[i].name))
}

/// The `(handle, name, parent)` entries of the first `k` decoded nodes that
/// are the last of their handle, with their de-duplicated names.
pub open spec fn canon_info(d: Seq<DecodedView>, names: Seq<Seq<char>>, k: nat) -> Seq<
    (Seq<char>, Seq<char>, Seq<char>),
>
    decreases k,
{
    if k == 0 || k > d.len() {
        Seq::empty()
    } else {
        let rest = canon_info(d, names, (k - 1) as nat);
        let j = k - 1;
        if last_with_handle(d, d[j].handle) == Some(j as int) {
            rest.push((d[j].handle, names[j], d[j].parent))
        } else {
            rest
        }
    }
}

fn last_with_handle_exec(decoded: &Vec<Decoded>, h: &String) -> (r: Option<usize>)
    ensures
        match r {
            Some(j) => last_with_handle(decoded_view(decoded@), h@) == Some(j as int),
            None => last_with_handle(decoded_view(decoded@), h@) is None,
        },
{
    let ghost d = decoded_view(decoded@);
    let mut j = decoded.len();
    assert(d.take(j as int) =~= d);
    while j > 0
        invariant
            j <= decoded.len(),
            d == decoded_view(decoded@),
            last_with_handle(d, h@) == last_with_handle(d.take(j as int), h@),
        decreases j,
    {
        if decoded[j - 1].handle == *h {
            return Some(j - 1);
        }
        assert(d.take(j as int).drop_last() =~= d.take(j - 1));
        j = j - 1;
    }
    None
}

fn handle_listed_exec(decoded: &Vec<Decoded>, h: &String) -> (r: bool)
    ensures
        r == handle_listed(decoded_view(decoded@), h@),
{
    let ghost d = decoded_view(decoded@);
    let mut j: usize = 0;
    while j < decoded.len()
        invariant
            j <= decoded.len(),
            d == decoded_view(decoded@),
            forall|k: int| 0 <= k < j ==> d[k].handle != h@,
        decreases decoded.len() - j,
    {
        if decoded[j].handle == *h {
            assert(d[j as int].handle == h@);
            return true;
        }
        j = j + 1;
    }
    false
}

/// The sibling parent of every decoded node, and whether it is the last
/// node listed under its handle.
fn sibling_parents(decoded: &Vec<Decoded>) -> (r: (Vec<String>, Vec<bool>))
    ensures
        r.0@.len() == decoded@.len(),
        r.1@.len() == decoded@.len(),
        forall|i: int|
            0 <= i < decoded@.len() ==> #[trigger] r.0@[i]@ == sibling_parent(
                decoded_view(decoded@),
                i,
            ),
        forall|i: int|
            0 <= i < decoded@.len() ==> #[trigger] r.1@[i] == (last_with_handle(
                decoded_view(decoded@),
                decoded_view(decoded@)[i].handle,
            ) == Some(i)),
{
    let ghost d = decoded_view(decoded@);
    let mut sp: Vec<String> = Vec::new();
    let mut canon: Vec<bool> = Vec::new();
    let mut i: usize = 0;
    while i < decoded.len()
        invariant
            i <= decoded.len(),
            d == decoded_view(decoded@),
            sp@.len() == i,
            canon@.len() == i,
            forall|k: int| 0 <= k < i ==> #[trigger] sp@[k]@ == sibling_parent(d, k),
            forall|k: int|
                0 <= k < i ==> #[trigger] canon@[k] == (last_with_handle(d, d[k].handle) == Some(
                    k,
                )),
        decreases decoded.len() - i,
    {
        let last = last_with_handle_exec(decoded, &decoded[i].handle);
        proof {
            lemma_last_with_handle(d, d[i as int].handle);
        }
        match last {
            Some(j) => {
                sp.push(decoded[j].parent.clone());
                canon.push(j == i);
            },
            None => {
                sp.push(decoded[i].parent.clone());
                canon.push(false);
            },
        }
        i = i + 1;
    }
    (sp, canon)
}


/// The node placed for decoded node `i`, given the de-duplicated names, the
/// path entries and their paths `f`: its parent is kept only where that
/// parent is itself listed, and its path is the one of its handle.
pub open spec fn placed_node(
    d: Seq<DecodedView>,
    names: Seq<Seq<char>>,
    info: Seq<(Seq<char>, Seq<char>, Seq<char>)>,
    f: Seq<Seq<char>>,
    i: int,
) -> TreeNodeView {
    TreeNodeView {
        handle: d[i].handle,
        parent: if handle_listed(d, sibling_parent(d, i)) {
            Some(sibling_parent(d, i))
        } else {
            None
        },
        kind: d[i].kind,
        name: names[i],
        size: d[i].size,
        rel_path: match handle_index(info, d[i].handle) {
            Some(k) => f[k],
            None => Seq::empty(),
        },
        file_key: d[i].file_key,
    }
}

/// The first decoded node from `k` on whose parent is not listed (and that
/// is a folder, where `folders_only`).
pub open spec fn first_root_from(d: Seq<DecodedView>, k: nat, folders_only: bool) -> Option<int>
    decreases d.len() - k,
{
    if k >= d.len() {
        None
    } else if !handle_listed(d, sibling_parent(d, k as int)) && (!folders_only || d[k as int].kind
        == NodeKind::Folder) {
        Some(k as int)
    } else {
        first_root_from(d, k + 1, folders_only)
    }
}

/// The root: the first node whose parent is not listed, preferring folders.
pub open spec fn root_index(d: Seq<DecodedView>) -> Option<int> {
    match first_root_from(d, 0, true) {
        Some(i) => Some(i),
        None => first_root_from(d, 0, false),
    }
}

/// `tree` is the tree of the decoded nodes `d` with de-duplicated names
/// `names`: totals and root as stated, and its nodes are the placed nodes,
/// with paths consistent along parent links, in a stable order of paths.
pub open spec fn tree_matches(tree: Tree, d: Seq<DecodedView>, names: Seq<Seq<char>>) -> bool {
    let info = canon_info(d, names, d.len());
    &&& tree.total_files == count_kind(d, NodeKind::File)
    &&& tree.total_folders == count_kind(d, NodeKind::Folder)
    &&& tree.total_bytes == total_size(d)
    &&& match root_index(d) {
        Some(i) => tree.root_handle@ == d[i].handle && tree.root_name@ == names[i],
        None => tree.root_handle@ == Seq::<char>::empty() && tree.root_name@ == "(root)"@,
    }
    &&& tree.nodes@.len() == d.len()
    &&& exists|order: Seq<usize>, f: Seq<Seq<char>>|
        #![trigger is_permutation(order, d.len()), paths_consistent(info, f)]
        {
            &&& paths_consistent(info, f)
            &&& is_permutation(order, d.len())
            &&& forall|k: int|
                0 <= k < d.len() ==> #[trigger] tree.nodes@[k]@ == placed_node(
                    d,
                    names,
                    info,
                    f,
                    order[k] as int,
                )
            &&& stably_sorted(
                Seq::new(d.len(), |i: int| placed_node(d, names, info, f, i).rel_path),
                order,
            )
        }
}

fn clone_node(n: &TreeNode) -> (r: TreeNode)
    ensures
        r@ == n@,
{
    TreeNode {
        handle: n.handle.clone(),
        parent: match &n.parent {
            Some(p) => Some(p.clone()),
            None => None,
        },
        kind: n.kind,
        name: n.name.clone(),
        size: n.size,
        rel_path: n.rel_path.clone(),
        file_key: n.file_key,
    }
}

/// Build the path entries: the last node listed under each handle, with its
/// de-duplicated name and parent.
fn canonical_entries(decoded: &Vec<Decoded>, canon: &Vec<bool>, names: &Vec<String>) -> (r: Vec<
    (String, (String, String)),
>)
    requires
        canon@.len() == decoded@.len(),
        names@.len() == decoded@.len(),
        forall|i: int|
            0 <= i < decoded@.len() ==> #[trigger] canon@[i] == (last_with_handle(
                decoded_view(decoded@),
                decoded_view(decoded@)[i].handle,
            ) == Some(i)),
    ensures
        info_view(r@) == canon_info(decoded_view(decoded@), texts_view(names@), decoded@.len() as nat),
{
    let ghost d = decoded_view(decoded@);
    let ghost nv = texts_view(names@);
    let mut info: Vec<(String, (String, String))> = Vec::new();
    let mut j: usize = 0;
    assert(info_view(info@) =~= canon_info(d, nv, 0));
    while j < decoded.len()
        invariant
            j <= decoded.len(),
            d == decoded_view(decoded@),
            nv == texts_view(names@),
            canon@.len() == decoded@.len(),
            names@.len() == decoded@.len(),
            forall|i: int|
                0 <= i < decoded@.len() ==> #[trigger] canon@[i] == (last_with_handle(d, d[i].handle)
                    == Some(i)),
            info_view(info@) == canon_info(d, nv, j as nat),
        decreases decoded.len() - j,
    {
        let ghost before = info@;
        if canon[j] {
            info.push(
                (decoded[j].handle.clone(), (names[j].clone(), decoded[j].parent.clone())),
            );
            assert(info_view(info@) =~= info_view(before).push(
                (d[j as int].handle, nv[j as int], d[j as int].parent),
            ));
        }
        j = j + 1;
    }
    info
}

/// Place every decoded node: de-duplicated name, parent (where listed) and path.
fn place_nodes(
    decoded: &Vec<Decoded>,
    sp: &Vec<String>,
    names: &Vec<String>,
    info: &Vec<(String, (String, String))>,
    paths: &Vec<String>,
) -> (r: Vec<TreeNode>)
    requires
        sp@.len() == decoded@.len(),
        names@.len() == decoded@.len(),
        paths@.len() == info@.len(),
        forall|i: int|
            0 <= i < decoded@.len() ==> #[trigger] sp@[i]@ == sibling_parent(
                decoded_view(decoded@),
                i,
            ),
    ensures
        r@.len() == decoded@.len(),
        forall|i: int|
            0 <= i < decoded@.len() ==> #[trigger] r@[i]@ == placed_node(
                decoded_view(decoded@),
                texts_view(names@),
                info_view(info@),
                texts_view(paths@),
                i,
            ),
{
    let ghost d = decoded_view(decoded@);
    let mut out: Vec<TreeNode> = Vec::new();
    let mut i: usize = 0;
    while i < decoded.len()
        invariant
            i <= decoded.len(),
            d == decoded_view(decoded@),
            sp@.len() == decoded@.len(),
            names@.len() == decoded@.len(),
            paths@.len() == info@.len(),
            forall|k: int| 0 <= k < decoded@.len() ==> #[trigger] sp@[k]@ == sibling_parent(d, k),
            out@.len() == i,
            forall|k: int|
                0 <= k < i ==> #[trigger] out@[k]@ == placed_node(
                    d,
                    texts_view(names@),
                    info_view(info@),
                    texts_view(paths@),
                    k,
                ),
        decreases decoded.len() - i,
    {
        let listed = handle_listed_exec(decoded, &sp[i]);
        let parent = if listed {
            Some(sp[i].clone())
        } else {
            None
        };
        let rel_path = match find_handle(info.as_slice(), &decoded[i].handle) {
            Some(k) => paths[k].clone(),
            None => String::new(),
        };
        let node = TreeNode {
            handle: decoded[i].handle.clone(),
            parent,
            kind: decoded[i].kind,
            name: names[i].clone(),
            size: decoded[i].size,
            rel_path,
            file_key: decoded[i].file_key,
        };
        assert(node@ == placed_node(
            d,
            texts_view(names@),
            info_view(info@),
            texts_view(paths@),
            i as int,
        ));
        out.push(node);
        i = i + 1;
    }
    out
}

/// The index of the root among the placed nodes: the first whose parent is
/// not listed, preferring folders.
fn select_root(decoded: &Vec<Decoded>, nodes: &Vec<TreeNode>, sp: &Vec<String>) -> (r: Option<usize>)
    requires
        nodes@.len() == decoded@.len(),
        sp@.len() == decoded@.len(),
        forall|i: int|
            0 <= i < decoded@.len() ==> (#[trigger] nodes@[i].parent is None <==> !handle_listed(
                decoded_view(decoded@),
                sibling_parent(decoded_view(decoded@), i),
            )),
        forall|i: int| 0 <= i < decoded@.len() ==> #[trigger] nodes@[i].kind == decoded@[i].kind,
    ensures
        match r {
            Some(i) => root_index(decoded_view(decoded@)) == Some(i as int) && i < decoded@.len(),
            None => root_index(decoded_view(decoded@)) is None,
        },
{
    let ghost d = decoded_view(decoded@);
    let mut i: usize = 0;
    while i < nodes.len()
        invariant
            i <= nodes@.len(),
            nodes@.len() == decoded@.len(),
            d == decoded_view(decoded@),
            forall|k: int|
                0 <= k < decoded@.len() ==> (#[trigger] nodes@[k].parent is None <==> !handle_listed(
                    d,
                    sibling_parent(d, k),
                )),
            forall|k: int| 0 <= k < decoded@.len() ==> #[trigger] nodes@[k].kind == decoded@[k].kind,
            first_root_from(d, 0, true) == first_root_from(d, i as nat, true),
        decreases nodes.len() - i,
    {
        if nodes[i].parent.is_none() && nodes[i].kind == NodeKind::Folder {
            assert(d[i as int].kind == NodeKind::Folder);
            assert(!handle_listed(d, sibling_parent(d, i as int)));
            assert(first_root_from(d, i as nat, true) == Some(i as int));
            return Some(i);
        }
        assert(first_root_from(d, i as nat, true) == first_root_from(d, (i + 1) as nat, true));
        i = i + 1;
    }
    let mut i: usize = 0;
    while i < nodes.len()
        invariant
            i <= nodes@.len(),
            nodes@.len() == decoded@.len(),
            d == decoded_view(decoded@),
            forall|k: int|
                0 <= k < decoded@.len() ==> (#[trigger] nodes@[k].parent is None <==> !handle_listed(
                    d,
                    sibling_parent(d, k),
                )),
            forall|k: int| 0 <= k < decoded@.len() ==> #[trigger] nodes@[k].kind == decoded@[k].kind,
            first_root_from(d, 0, true) is None,
            first_root_from(d, 0, false) == first_root_from(d, i as nat, false),
        decreases nodes.len() - i,
    {
        if nodes[i].parent.is_none() {
            assert(!handle_listed(d, sibling_parent(d, i as int)));
            assert(first_root_from(d, i as nat, false) == Some(i as int));
            return Some(i);
        }
        assert(first_root_from(d, i as nat, false) == first_root_from(d, (i + 1) as nat, false));
        i = i + 1;
    }
    None
}

/// The numbers of files and folders and the total size of the decoded nodes.
fn totals(decoded: &Vec<Decoded>) -> (r: (usize, usize, i64))
    requires
        sums_fit(decoded_view(decoded@)),
    ensures
        r.0 == count_kind(decoded_view(decoded@), NodeKind::File),
        r.1 == count_kind(decoded_view(decoded@), NodeKind::Folder),
        r.2 == total_size(decoded_view(decoded@)),
{
    let ghost d = decoded_view(decoded@);
    let mut files: usize = 0;
    let mut folders: usize = 0;
    let mut bytes: i64 = 0;
    let mut k: usize = 0;
    assert(d.take(0) =~= Seq::<DecodedView>::empty());
    while k < decoded.len()
        invariant
            k <= decoded.len(),
            d == decoded_view(decoded@),
            sums_fit(d),
            files == count_kind(d.take(k as int), NodeKind::File),
            folders == count_kind(d.take(k as int), NodeKind::Folder),
            files + folders <= k,
            bytes == total_size(d.take(k as int)),
        decreases decoded.len() - k,
    {
        assert(d.take(k + 1).drop_last() =~= d.take(k as int));
        assert(d.take(k + 1).last() == d[k as int]);
        assert(i64::MIN <= total_size(d.take(k + 1)) <= i64::MAX);
        if decoded[k].kind == NodeKind::File {
            files = files + 1;
        } else {
            folders = folders + 1;
        }
        bytes = bytes + decoded[k].size;
        k = k + 1;
    }
    assert(d.take(decoded.len() as int) =~= d);
    (files, folders, bytes)
}


/// Decrypt every node and assemble them into a tree with relative paths.
///
/// Nodes whose key cannot be unwrapped are left out. Sibling names that would
/// collide on disk are de-duplicated; each node's parent is kept where it is
/// listed; paths follow parent links; the root is the first node whose parent
/// is not listed, preferring folders; nodes come out sorted by path.
///
/// The sizes are summed in an `i64`, so every running total of the kept
/// nodes' sizes must fit in one; [`build_tree_checked`] tests that first.
pub fn build_tree(master: &[u8; 16], raw: Vec<RawNode>) -> (r: Result<Tree, Error>)
    requires
        sums_fit(decoded_nodes(master@, raw_view(raw@))),
    ensures
        tree_result(r, decoded_nodes(master@, raw_view(raw@))),
{
    let decoded = decode_listing(master, &raw);
    assemble_tree(decoded)
}

/// What [`build_tree`] returns for the decoded nodes `d`: the error where no
/// free name is left for a duplicate sibling, else the tree of `d` with its
/// names de-duplicated.
pub open spec fn tree_result(r: Result<Tree, Error>, d: Seq<DecodedView>) -> bool {
    match dedup_all(dedup_entries(d)) {
        None => r matches Err(e) && e@ == ErrorView::Other("no free name for a duplicate sibling"@),
        Some(p) => r matches Ok(tree) && tree_matches(tree, d, p.0),
    }
}

/// [`build_tree`] returns a tree, not an error, wherever each group of
/// siblings has fewer than `u32::MAX - 1` nodes and, for each node's name,
/// different rename counters give different collision keys.
pub proof fn lemma_build_tree_ok(r: Result<Tree, Error>, d: Seq<DecodedView>)
    requires
        tree_result(r, d),
        forall|i: int| 0 <= i < d.len() ==> counters_separate(#[trigger] d[i].name),
        forall|i: int|
            0 <= i < d.len() ==> group_size(dedup_entries(d), #[trigger] sibling_parent(d, i))
                < u32::MAX - 1,
    ensures
        r is Ok,
{
    let e = dedup_entries(d);
    assert forall|i: int| 0 <= i < e.len() implies counters_separate(#[trigger] e[i].1) by {
        assert(e[i].1 == d[i].name);
    }
    assert forall|i: int| 0 <= i < e.len() implies #[trigger] group_size(e, e[i].0) < u32::MAX
        - 1 by {
        assert(e[i].0 == sibling_parent(d, i));
    }
    lemma_dedup_all_succeeds(e);
}

/// [`build_tree`] where the sizes of the kept nodes can be summed in an `i64`,
/// `None` where a running total would leave it.
pub fn build_tree_checked(master: &[u8; 16], raw: Vec<RawNode>) -> (r: Option<Result<Tree, Error>>)
    ensures
        r is None <==> !sums_fit(decoded_nodes(master@, raw_view(raw@))),
        r matches Some(t) ==> tree_result(t, decoded_nodes(master@, raw_view(raw@))),
{
    let decoded = decode_listing(master, &raw);
    let ghost d = decoded_view(decoded@);
    let mut sum: i64 = 0;
    let mut k: usize = 0;
    assert(d.take(0) =~= Seq::<DecodedView>::empty());
    while k < decoded.len()
        invariant
            k <= decoded.len(),
            d == decoded_view(decoded@),
            d == decoded_nodes(master@, raw_view(raw@)),
            sum == total_size(d.take(k as int)),
            forall|j: int| 0 <= j <= k ==> i64::MIN <= #[trigger] total_size(d.take(j)) <= i64::MAX,
        decreases decoded.len() - k,
    {
        assert(d.take(k + 1).drop_last() =~= d.take(k as int));
        assert(d.take(k + 1).last() == d[k as int]);
        match sum.checked_add(decoded[k].size) {
            Some(next) => {
                sum = next;
            },
            None => {
                assert(!(i64::MIN <= total_size(d.take(k + 1)) <= i64::MAX));
                assert(!sums_fit(d));
                return None;
            },
        }
        k = k + 1;
    }
    assert(d.take(decoded.len() as int) =~= d);
    Some(assemble_tree(decoded))
}

/// The tree of decoded nodes, as [`build_tree`] assembles it.
fn assemble_tree(decoded: Vec<Decoded>) -> (r: Result<Tree, Error>)
    requires
        sums_fit(decoded_view(decoded@)),
    ensures
        tree_result(r, decoded_view(decoded@)),
{
    let ghost d = decoded_view(decoded@);
    let (sp, canon) = sibling_parents(&decoded);

    // De-duplicate sibling names that would collide on disk.
    let mut entries: Vec<(String, String)> = Vec::new();
    let mut i: usize = 0;
    while i < decoded.len()
        invariant
            i <= decoded.len(),
            d == decoded_view(decoded@),
            sp@.len() == decoded@.len(),
            forall|k: int| 0 <= k < decoded@.len() ==> #[trigger] sp@[k]@ == sibling_parent(d, k),
            entries@.len() == i,
            forall|k: int|
                0 <= k < i ==> #[trigger] pair_view(entries@)[k] == dedup_entries(d)[k],
        decreases decoded.len() - i,
    {
        let ghost before = entries@;
        entries.push((sp[i].clone(), decoded[i].name.clone()));
        assert forall|k: int| 0 <= k <= i implies #[trigger] pair_view(entries@)[k] == dedup_entries(
            d,
        )[k] by {
            if k < i {
                assert(entries@[k] == before[k]);
                assert(pair_view(before)[k] == dedup_entries(d)[k]);
            }
        }
        i = i + 1;
    }
    assert(pair_view(entries@) =~= dedup_entries(d));
    let names = match dedup_sibling_names(&entries) {
        Some(n) => n,
        None => {
            let msg = chars_of("no free name for a duplicate sibling");
            return Err(Error::Other(string_of(msg.as_slice())));
        },
    };
    let ghost nv = texts_view(names@);
    assert(names@.len() == decoded@.len()) by {
        lemma_dedup_len(dedup_entries(d));
    }

    // Resolve parents and relative paths.
    let info = canonical_entries(&decoded, &canon, &names);
    let paths = compute_paths(info.as_slice());
    let ghost iv = info_view(info@);
    let ghost f = texts_view(paths@);
    assert(f == paths@.map_values(|s: String| s@));
    let placed = place_nodes(&decoded, &sp, &names, &info, &paths);

    // The root is the node whose parent isn't in the listing, preferring a folder.
    assert forall|m: int| 0 <= m < decoded@.len() implies (#[trigger] placed@[m].parent is None
        <==> !handle_listed(d, sibling_parent(d, m))) by {
        assert(placed@[m]@ == placed_node(d, nv, iv, f, m));
        if placed@[m].parent is Some {
            assert(placed@[m]@.parent is Some);
        }
    }
    assert forall|m: int| 0 <= m < decoded@.len() implies #[trigger] placed@[m].kind
        == decoded@[m].kind by {
        assert(placed@[m]@ == placed_node(d, nv, iv, f, m));
    }
    let root = select_root(&decoded, &placed, &sp);
    let (root_handle, root_name) = match root {
        Some(k) => {
            assert(placed@[k as int]@ == placed_node(d, nv, iv, f, k as int));
            (placed[k].handle.clone(), placed[k].name.clone())
        },
        None => (String::new(), string_of(chars_of("(root)").as_slice())),
    };
    let (total_files, total_folders, total_bytes) = totals(&decoded);

    // Sort by path, keeping equal paths in listing order.
    let mut keys: Vec<Vec<char>> = Vec::new();
    let mut k: usize = 0;
    while k < placed.len()
        invariant
            k <= placed@.len(),
            keys@.len() == k,
            forall|m: int| 0 <= m < k ==> #[trigger] keys@[m]@ == placed@[m]@.rel_path,
        decreases placed.len() - k,
    {
        keys.push(chars_of(placed[k].rel_path.as_str()));
        k = k + 1;
    }
    let order = stable_order(&keys);
    let ghost kv = Seq::new(d.len(), |m: int| placed_node(d, nv, iv, f, m).rel_path);
    assert(keys@.map_values(|key: Vec<char>| key@) =~= kv);
    let mut nodes: Vec<TreeNode> = Vec::new();
    let mut k: usize = 0;
    while k < order.len()
        invariant
            k <= order@.len(),
            order@.len() == placed@.len(),
            placed@.len() == d.len(),
            is_permutation(order@, d.len()),
            nodes@.len() == k,
            forall|m: int|
                0 <= m < placed@.len() ==> #[trigger] placed@[m]@ == placed_node(d, nv, iv, f, m),
            forall|m: int|
                0 <= m < k ==> #[trigger] nodes@[m]@ == placed_node(d, nv, iv, f, order@[m] as int),
        decreases order.len() - k,
    {
        nodes.push(clone_node(&placed[order[k]]));
        k = k + 1;
    }
    let tree = Tree { root_handle, root_name, total_files, total_folders, total_bytes, nodes };
    assert(tree_matches(tree, d, nv)) by {
        assert(iv == canon_info(d, nv, d.len()));
        assert(paths_consistent(iv, f));
        assert(is_permutation(order@, d.len()));
        assert(stably_sorted(kv, order@));
        assert(tree.nodes@.len() == d.len());
        assert(tree.total_files == count_kind(d, NodeKind::File));
        assert(tree.total_bytes == total_size(d));
        match root_index(d) {
            Some(i) => {
                assert(tree.root_handle@ == d[i].handle);
                assert(tree.root_name@ == nv[i]);
            },
            None => {},
        }
    }
    Ok(tree)
}

proof fn lemma_dedup_len(entries: Seq<(Seq<char>, Seq<char>)>)
    ensures
        dedup_all(entries) matches Some(p) ==> p.0.len() == entries.len(),
    decreases entries.len(),
{
    if entries.len() > 0 {
        lemma_dedup_len(entries.drop_last());
    }
}


/// In a built tree, no two nodes under the same parent have names that would
/// collide on disk (same name after sanitizing and lowercasing), so no file
/// overwrites another.
pub proof fn lemma_tree_siblings_never_collide(
    tree: Tree,
    d: Seq<DecodedView>,
    names: Seq<Seq<char>>,
    used: Set<(Seq<char>, Seq<char>)>,
)
    requires
        dedup_all(dedup_entries(d)) == Some((names, used)),
        tree_matches(tree, d, names),
    ensures
        forall|a: int, b: int|
            0 <= a < tree.nodes@.len() && 0 <= b < tree.nodes@.len() && a != b && (
            #[trigger] tree.nodes@[a])@.parent is Some && tree.nodes@[a]@.parent == (
            #[trigger] tree.nodes@[b])@.parent ==> collision_key(tree.nodes@[a]@.name)
                != collision_key(tree.nodes@[b]@.name),
{
    let e = dedup_entries(d);
    lemma_dedup_keys_distinct(e);
    let info = canon_info(d, names, d.len());
    let (order, f) = choose|order: Seq<usize>, f: Seq<Seq<char>>|
        {
            &&& paths_consistent(info, f)
            &&& is_permutation(order, d.len())
            &&& forall|k: int|
                0 <= k < d.len() ==> #[trigger] tree.nodes@[k]@ == placed_node(
                    d,
                    names,
                    info,
                    f,
                    order[k] as int,
                )
            &&& stably_sorted(
                Seq::new(d.len(), |i: int| placed_node(d, names, info, f, i).rel_path),
                order,
            )
        };
    assert forall|a: int, b: int|
        0 <= a < tree.nodes@.len() && 0 <= b < tree.nodes@.len() && a != b && (
        #[trigger] tree.nodes@[a])@.parent is Some && tree.nodes@[a]@.parent == (
        #[trigger] tree.nodes@[b])@.parent implies collision_key(tree.nodes@[a]@.name)
            != collision_key(tree.nodes@[b]@.name) by {
        let i = order[a] as int;
        let j = order[b] as int;
        assert(tree.nodes@[a]@ == placed_node(d, names, info, f, i));
        assert(tree.nodes@[b]@ == placed_node(d, names, info, f, j));
        assert(i != j);
        assert(sibling_parent(d, i) == sibling_parent(d, j));
        assert(e[i].0 == e[j].0);
        if i < j {
        } else {
        }
    }
}

proof fn lemma_find_handle_present(
    info: Seq<(Seq<char>, Seq<char>, Seq<char>)>,
    h: Seq<char>,
    k: int,
    m: nat,
)
    requires
        m <= k < info.len(),
        info[k].0 == h,
    ensures
        find_handle_from(info, h, m) is Some,
    decreases k - m,
{
    if info[m as int].0 != h {
        lemma_find_handle_present(info, h, k, m + 1);
    }
}

proof fn lemma_canon_info_has(d: Seq<DecodedView>, names: Seq<Seq<char>>, c: int, n: nat)
    requires
        0 <= c < n <= d.len(),
        last_with_handle(d, d[c].handle) == Some(c),
    ensures
        exists|k: int|
            0 <= k < canon_info(d, names, n).len() && (#[trigger] canon_info(d, names, n)[k]).0
                == d[c].handle,
    decreases n,
{
    let rest = canon_info(d, names, (n - 1) as nat);
    let j = n - 1;
    if j == c {
        assert(canon_info(d, names, n) == rest.push((d[j].handle, names[j], d[j].parent)));
        assert(canon_info(d, names, n)[rest.len() as int].0 == d[c].handle);
    } else {
        lemma_canon_info_has(d, names, c, (n - 1) as nat);
        let k = choose|k: int| 0 <= k < rest.len() && (#[trigger] rest[k]).0 == d[c].handle;
        if last_with_handle(d, d[j].handle) == Some(j as int) {
            assert(canon_info(d, names, n) == rest.push((d[j].handle, names[j], d[j].parent)));
            assert(canon_info(d, names, n)[k] == rest[k]);
        } else {
            assert(canon_info(d, names, n) == rest);
        }
        assert(canon_info(d, names, n)[k].0 == d[c].handle);
    }
}

/// Every decoded node has a path: its handle has an entry among the path
/// entries of the tree.
pub proof fn lemma_every_node_has_path(d: Seq<DecodedView>, names: Seq<Seq<char>>, i: int)
    requires
        0 <= i < d.len(),
    ensures
        handle_index(canon_info(d, names, d.len()), d[i].handle) is Some,
{
    lemma_last_with_handle_exists(d, i);
    let c = last_with_handle(d, d[i].handle)->0;
    lemma_last_with_handle(d, d[i].handle);
    assert(last_with_handle(d, d[c].handle) == Some(c));
    lemma_canon_info_has(d, names, c, d.len());
    let info = canon_info(d, names, d.len());
    let k = choose|k: int| 0 <= k < info.len() && (#[trigger] info[k]).0 == d[c].handle;
    lemma_find_handle_present(info, d[i].handle, k, 0);
}

proof fn lemma_last_with_handle_exists(d: Seq<DecodedView>, i: int)
    requires
        0 <= i < d.len(),
    ensures
        last_with_handle(d, d[i].handle) matches Some(c) && i <= c,
    decreases d.len(),
{
    if d.last().handle != d[i].handle {
        assert(i < d.len() - 1);
        assert(d.drop_last()[i] == d[i]);
        lemma_last_with_handle_exists(d.drop_last(), i);
    }
}

/// Every node of a built tree is a file or a folder, and both totals count them.
pub proof fn lemma_tree_totals_cover_nodes(tree: Tree, d: Seq<DecodedView>, names: Seq<Seq<char>>)
    requires
        tree_matches(tree, d, names),
    ensures
        tree.total_files + tree.total_folders == tree.nodes@.len(),
{
    lemma_count_kinds(d);
}

/// The views of a tree's nodes, in the tree's order.
pub open spec fn tree_nodes(tree: Tree) -> Seq<TreeNodeView> {
    tree.nodes@.map_values(|n: TreeNode| n@)
}

/// The number of tree nodes of a kind.
pub open spec fn nodes_of_kind(nodes: Seq<TreeNodeView>, kind: NodeKind) -> nat
    decreases nodes.len(),
{
    if nodes.len() == 0 {
        0
    } else {
        nodes_of_kind(nodes.drop_last(), kind) + if nodes.last().kind == kind {
            1nat
        } else {
            0nat
        }
    }
}

/// The sum of the sizes of tree nodes.
pub open spec fn nodes_size(nodes: Seq<TreeNodeView>) -> int
    decreases nodes.len(),
{
    if nodes.len() == 0 {
        0
    } else {
        nodes_size(nodes.drop_last()) + nodes.last().size
    }
}

/// The totals of a built tree count the nodes it holds: the files among them,
/// the folders among them, and the sum of their sizes.
pub proof fn lemma_tree_totals_count_nodes(tree: Tree, d: Seq<DecodedView>, names: Seq<Seq<char>>)
    requires
        tree_matches(tree, d, names),
    ensures
        tree.total_files == nodes_of_kind(tree_nodes(tree), NodeKind::File),
        tree.total_folders == nodes_of_kind(tree_nodes(tree), NodeKind::Folder),
        tree.total_bytes == nodes_size(tree_nodes(tree)),
{
    let info = canon_info(d, names, d.len());
    let (order, f) = lemma_tree_order(tree, d, names);
    let nv = tree_nodes(tree);
    assert forall|k: int| 0 <= k < nv.len() implies #[trigger] nv[k].kind == d[order[k] as int].kind
        && nv[k].size == d[order[k] as int].size by {
        assert(tree.nodes@[k]@ == placed_node(d, names, info, f, order[k] as int));
    }
    let files = |i: int| if d[i].kind == NodeKind::File { 1int } else { 0int };
    let folders = |i: int| if d[i].kind == NodeKind::Folder { 1int } else { 0int };
    let sizes = |i: int| d[i].size as int;
    lemma_count_as_sum(d, NodeKind::File, files, d.len() as int);
    lemma_count_as_sum(d, NodeKind::Folder, folders, d.len() as int);
    lemma_size_as_sum(d, sizes, d.len() as int);
    lemma_nodes_as_sums(nv, d, order, files, folders, sizes, nv.len() as int);
    lemma_permutation_sum(order, d.len(), files);
    lemma_permutation_sum(order, d.len(), folders);
    lemma_permutation_sum(order, d.len(), sizes);
    assert(d.take(d.len() as int) =~= d);
    assert(nv.take(nv.len() as int) =~= nv);
    assert(order.take(order.len() as int) =~= order);
}

/// The order and the paths that `tree_matches` speaks of.
proof fn lemma_tree_order(tree: Tree, d: Seq<DecodedView>, names: Seq<Seq<char>>) -> (of: (
    Seq<usize>,
    Seq<Seq<char>>,
))
    requires
        tree_matches(tree, d, names),
    ensures
        paths_consistent(canon_info(d, names, d.len()), of.1),
        is_permutation(of.0, d.len()),
        tree.nodes@.len() == d.len(),
        forall|k: int|
            0 <= k < d.len() ==> #[trigger] tree.nodes@[k]@ == placed_node(
                d,
                names,
                canon_info(d, names, d.len()),
                of.1,
                of.0[k] as int,
            ),
        stably_sorted(
            Seq::new(
                d.len(),
                |i: int| placed_node(d, names, canon_info(d, names, d.len()), of.1, i).rel_path,
            ),
            of.0,
        ),
{
    let info = canon_info(d, names, d.len());
    choose|order: Seq<usize>, f: Seq<Seq<char>>|
        #![trigger is_permutation(order, d.len()), paths_consistent(info, f)]
        {
            &&& paths_consistent(info, f)
            &&& is_permutation(order, d.len())
            &&& forall|k: int|
                0 <= k < d.len() ==> #[trigger] tree.nodes@[k]@ == placed_node(
                    d,
                    names,
                    info,
                    f,
                    order[k] as int,
                )
            &&& stably_sorted(
                Seq::new(d.len(), |i: int| placed_node(d, names, info, f, i).rel_path),
                order,
            )
        }
}

/// A built tree lists its nodes in order of their paths.
pub proof fn lemma_tree_sorted_by_path(tree: Tree, d: Seq<DecodedView>, names: Seq<Seq<char>>)
    requires
        tree_matches(tree, d, names),
    ensures
        forall|a: int, b: int|
            0 <= a < b < tree_nodes(tree).len() ==> lex_le(
                #[trigger] tree_nodes(tree)[a].rel_path,
                #[trigger] tree_nodes(tree)[b].rel_path,
            ),
{
    let info = canon_info(d, names, d.len());
    let (order, f) = lemma_tree_order(tree, d, names);
    let kv = Seq::new(d.len(), |i: int| placed_node(d, names, info, f, i).rel_path);
    assert forall|a: int, b: int| 0 <= a < b < tree_nodes(tree).len() implies lex_le(
        #[trigger] tree_nodes(tree)[a].rel_path,
        #[trigger] tree_nodes(tree)[b].rel_path,
    ) by {
        assert(tree.nodes@[a]@ == placed_node(d, names, info, f, order[a] as int));
        assert(tree.nodes@[b]@ == placed_node(d, names, info, f, order[b] as int));
        assert(kv[order[a] as int] == tree_nodes(tree)[a].rel_path);
        assert(kv[order[b] as int] == tree_nodes(tree)[b].rel_path);
    }
}

/// A built tree holds every decoded node, and each parent link it keeps
/// points at a node of the tree.
pub proof fn lemma_tree_holds_every_node(tree: Tree, d: Seq<DecodedView>, names: Seq<Seq<char>>)
    requires
        tree_matches(tree, d, names),
    ensures
        forall|i: int|
            0 <= i < d.len() ==> exists|k: int|
                0 <= k < tree_nodes(tree).len() && #[trigger] tree_nodes(tree)[k].handle
                    == (#[trigger] d[i]).handle,
        forall|a: int|
            0 <= a < tree_nodes(tree).len() && (#[trigger] tree_nodes(tree)[a]).parent is Some
                ==> exists|b: int|
                0 <= b < tree_nodes(tree).len() && tree_nodes(tree)[b].handle == tree_nodes(
                    tree,
                )[a].parent->0,
{
    let info = canon_info(d, names, d.len());
    let (order, f) = lemma_tree_order(tree, d, names);
    let nv = tree_nodes(tree);
    assert forall|i: int| 0 <= i < d.len() implies exists|k: int|
        0 <= k < nv.len() && #[trigger] nv[k].handle == (#[trigger] d[i]).handle by {
        let k = lemma_permutation_onto(order, d.len(), i);
        assert(tree.nodes@[k]@ == placed_node(d, names, info, f, order[k] as int));
        assert(nv[k].handle == d[i].handle);
    }
    assert forall|a: int| 0 <= a < nv.len() && (#[trigger] nv[a]).parent is Some implies exists|b: int|
        0 <= b < nv.len() && nv[b].handle == nv[a].parent->0 by {
        assert(tree.nodes@[a]@ == placed_node(d, names, info, f, order[a] as int));
        let p = sibling_parent(d, order[a] as int);
        assert(handle_listed(d, p));
        let j = choose|j: int| 0 <= j < d.len() && d[j].handle == p;
        let k = lemma_permutation_onto(order, d.len(), j);
        assert(tree.nodes@[k]@ == placed_node(d, names, info, f, order[k] as int));
        assert(nv[k].handle == p);
    }
}

/// Tree node `n` is what listed node `r` decodes to: its key unwraps, and the
/// handle, the kind (a file where `t` is 0), the size (0 where none is given)
/// and, for a file, the whole unwrapped key are those of `r`.
pub open spec fn node_from_raw(n: TreeNodeView, master: Seq<u8>, r: RawNodeView) -> bool {
    &&& node_key_spec(master, r.k, r.t) is Some
    &&& n.handle == r.h
    &&& (n.kind == NodeKind::File) == (r.t == 0)
    &&& n.size == match r.s {
        Some(s) => s,
        None => 0,
    }
    &&& n.file_key == if r.t == 0 {
        node_key_spec(master, r.k, r.t)
    } else {
        None
    }
}

proof fn lemma_decoded_from_raw(master: Seq<u8>, raws: Seq<RawNodeView>)
    ensures
        forall|i: int|
            0 <= i < decoded_nodes(master, raws).len() ==> exists|j: int|
                0 <= j < raws.len() && decode_raw(master, raws[j]) == Some(
                    #[trigger] decoded_nodes(master, raws)[i],
                ),
        forall|j: int|
            0 <= j < raws.len() && (#[trigger] decode_raw(master, raws[j])) is Some ==> exists|i: int|
                0 <= i < decoded_nodes(master, raws).len() && decode_raw(master, raws[j]) == Some(
                    decoded_nodes(master, raws)[i],
                ),
    decreases raws.len(),
{
    if raws.len() > 0 {
        let front = raws.drop_last();
        lemma_decoded_from_raw(master, front);
        let rest = decoded_nodes(master, front);
        let d = decoded_nodes(master, raws);
        assert forall|i: int| 0 <= i < d.len() implies exists|j: int|
            0 <= j < raws.len() && decode_raw(master, raws[j]) == Some(#[trigger] d[i]) by {
            if i < rest.len() {
                assert(d[i] == rest[i]);
                let j = choose|j: int| 0 <= j < front.len() && decode_raw(master, front[j]) == Some(
                    rest[i],
                );
                assert(raws[j] == front[j]);
            } else {
                assert(decode_raw(master, raws[raws.len() - 1]) == Some(d[i]));
            }
        }
        assert forall|j: int| 0 <= j < raws.len() && (#[trigger] decode_raw(master, raws[j])) is Some
            implies exists|i: int| 0 <= i < d.len() && decode_raw(master, raws[j]) == Some(d[i]) by {
            if j < front.len() {
                assert(raws[j] == front[j]);
                assert(decode_raw(master, front[j]) is Some);
                let i = choose|i: int| 0 <= i < rest.len() && decode_raw(master, front[j]) == Some(
                    rest[i],
                );
                assert(d[i] == rest[i]);
            } else {
                assert(d[rest.len() as int] == decode_raw(master, raws.last())->0);
            }
        }
    }
}

/// The nodes of a tree built from a listing are exactly its nodes whose key
/// unwraps: each tree node is what some listed node decodes to, and each
/// listed node whose key unwraps has its handle in the tree.
pub proof fn lemma_tree_nodes_from_listing(
    tree: Tree,
    master: Seq<u8>,
    raws: Seq<RawNodeView>,
    names: Seq<Seq<char>>,
)
    requires
        tree_matches(tree, decoded_nodes(master, raws), names),
    ensures
        forall|k: int|
            0 <= k < tree_nodes(tree).len() ==> exists|j: int|
                0 <= j < raws.len() && node_from_raw(#[trigger] tree_nodes(tree)[k], master, raws[j]),
        forall|j: int|
            0 <= j < raws.len() && (#[trigger] node_key_spec(master, raws[j].k, raws[j].t)) is Some
                ==> exists|k: int|
                0 <= k < tree_nodes(tree).len() && tree_nodes(tree)[k].handle == raws[j].h,
{
    let d = decoded_nodes(master, raws);
    let info = canon_info(d, names, d.len());
    let (order, f) = lemma_tree_order(tree, d, names);
    let nv = tree_nodes(tree);
    assert forall|k: int| 0 <= k < nv.len() implies exists|j: int|
        0 <= j < raws.len() && node_from_raw(#[trigger] nv[k], master, raws[j]) by {
        lemma_decoded_from_raw(master, raws);
        assert(tree.nodes@[k]@ == placed_node(d, names, info, f, order[k] as int));
        let i = order[k] as int;
        let j = choose|j: int| 0 <= j < raws.len() && decode_raw(master, raws[j]) == Some(d[i]);
        lemma_node_from_decoded(nv[k], d[i], master, raws[j]);
    }
    assert forall|j: int|
        0 <= j < raws.len() && (#[trigger] node_key_spec(master, raws[j].k, raws[j].t)) is Some
        implies exists|k: int| 0 <= k < nv.len() && nv[k].handle == raws[j].h by {
        lemma_decoded_from_raw(master, raws);
        lemma_tree_holds_every_node(tree, d, names);
        assert(decode_raw(master, raws[j]) is Some);
        let i = choose|i: int| 0 <= i < d.len() && decode_raw(master, raws[j]) == Some(d[i]);
        assert(d[i].handle == raws[j].h);
        assert(exists|k: int| 0 <= k < nv.len() && #[trigger] nv[k].handle == d[i].handle);
    }
}

proof fn lemma_node_from_decoded(n: TreeNodeView, dv: DecodedView, master: Seq<u8>, r: RawNodeView)
    requires
        decode_raw(master, r) == Some(dv),
        n.handle == dv.handle,
        n.kind == dv.kind,
        n.size == dv.size,
        n.file_key == dv.file_key,
    ensures
        node_from_raw(n, master, r),
{
    let key = node_key_spec(master, r.k, r.t)->0;
    if r.t == 0 {
        assert(key.take(32) =~= key);
    }
}

/// No two decoded nodes share a handle.
pub open spec fn handles_distinct(d: Seq<DecodedView>) -> bool {
    forall|i: int, j: int| 0 <= i < j < d.len() ==> d[i].handle != d[j].handle
}

/// No two listed nodes share a handle.
pub open spec fn raw_handles_distinct(raws: Seq<RawNodeView>) -> bool {
    forall|i: int, j: int| 0 <= i < j < raws.len() ==> raws[i].h != raws[j].h
}

/// Where no two listed nodes share a handle, neither do the decoded nodes, so
/// the laws stated for distinct handles apply to a tree built from such a
/// listing.
pub proof fn lemma_distinct_listing(master: Seq<u8>, raws: Seq<RawNodeView>)
    requires
        raw_handles_distinct(raws),
    ensures
        handles_distinct(decoded_nodes(master, raws)),
    decreases raws.len(),
{
    if raws.len() > 0 {
        let front = raws.drop_last();
        lemma_distinct_listing(master, front);
        lemma_decoded_from_raw(master, front);
        let rest = decoded_nodes(master, front);
        match decode_raw(master, raws.last()) {
            Some(dl) => {
                let d = rest.push(dl);
                assert forall|i: int, j: int| 0 <= i < j < d.len() implies d[i].handle
                    != d[j].handle by {
                    if j == rest.len() {
                        let k = choose|k: int| 0 <= k < front.len() && decode_raw(master, front[k])
                            == Some(#[trigger] rest[i]);
                        assert(raws[k] == front[k]);
                        assert(rest[i].handle == raws[k].h);
                        assert(dl.handle == raws[raws.len() - 1].h);
                    } else {
                        assert(d[i] == rest[i] && d[j] == rest[j]);
                    }
                }
            },
            None => {},
        }
    }
}

proof fn lemma_distinct_last(d: Seq<DecodedView>, i: int)
    requires
        handles_distinct(d),
        0 <= i < d.len(),
    ensures
        last_with_handle(d, d[i].handle) == Some(i),
{
    lemma_last_with_handle_exists(d, i);
    lemma_last_with_handle(d, d[i].handle);
}

proof fn lemma_distinct_canon(d: Seq<DecodedView>, names: Seq<Seq<char>>, n: nat)
    requires
        handles_distinct(d),
        n <= d.len(),
    ensures
        canon_info(d, names, n) == Seq::new(n, |i: int| (d[i].handle, names[i], d[i].parent)),
    decreases n,
{
    if n > 0 {
        lemma_distinct_canon(d, names, (n - 1) as nat);
        lemma_distinct_last(d, n - 1);
        assert(canon_info(d, names, n) =~= Seq::new(
            n,
            |i: int| (d[i].handle, names[i], d[i].parent),
        ));
    }
}

proof fn lemma_distinct_find(
    info: Seq<(Seq<char>, Seq<char>, Seq<char>)>,
    h: Seq<char>,
    i: int,
    m: nat,
)
    requires
        m <= i < info.len(),
        info[i].0 == h,
        forall|k: int| 0 <= k < info.len() && k != i ==> info[k].0 != h,
    ensures
        find_handle_from(info, h, m) == Some(i),
    decreases i - m,
{
    if m < i {
        lemma_distinct_find(info, h, i, m + 1);
    }
}

proof fn lemma_distinct_find_none(info: Seq<(Seq<char>, Seq<char>, Seq<char>)>, h: Seq<char>, m: nat)
    requires
        forall|k: int| 0 <= k < info.len() ==> info[k].0 != h,
    ensures
        find_handle_from(info, h, m) is None,
    decreases info.len() - m,
{
    if m < info.len() {
        lemma_distinct_find_none(info, h, m + 1);
    }
}

/// Where no two listed nodes share a handle, the path of each node of a built
/// tree follows its parent link: a node without a parent in the tree has its
/// name as its path, and a node under a parent has the parent's path joined
/// with its name, unless it is where a loop of parent links was cut, where
/// its path is its name.
pub proof fn lemma_tree_paths_follow_parents(
    tree: Tree,
    d: Seq<DecodedView>,
    names: Seq<Seq<char>>,
)
    requires
        tree_matches(tree, d, names),
        handles_distinct(d),
    ensures
        forall|a: int|
            0 <= a < tree_nodes(tree).len() && (#[trigger] tree_nodes(tree)[a]).parent is None
                ==> tree_nodes(tree)[a].rel_path == tree_nodes(tree)[a].name,
        forall|a: int, b: int|
            0 <= a < tree_nodes(tree).len() && 0 <= b < tree_nodes(tree).len() && (
            #[trigger] tree_nodes(tree)[a]).parent == Some((#[trigger] tree_nodes(tree)[b]).handle)
                ==> tree_nodes(tree)[a].rel_path == join_path(
                tree_nodes(tree)[b].rel_path,
                tree_nodes(tree)[a].name,
            ) || (tree_nodes(tree)[a].rel_path == tree_nodes(tree)[a].name && on_parent_cycle(
                canon_info(d, names, d.len()),
                listed_index(d, tree_nodes(tree)[a].handle),
            )),
{
    let info = canon_info(d, names, d.len());
    let (order, f) = lemma_tree_order(tree, d, names);
    let nv = tree_nodes(tree);
    lemma_distinct_canon(d, names, d.len());
    assert forall|i: int| 0 <= i < d.len() implies #[trigger] handle_index(info, d[i].handle)
        == Some(i) && listed_index(d, d[i].handle) == i by {
        lemma_distinct_find(info, d[i].handle, i, 0);
        lemma_distinct_last(d, i);
    }
    assert forall|a: int| 0 <= a < nv.len() && (#[trigger] nv[a]).parent is None implies nv[a].rel_path
        == nv[a].name by {
        assert(tree.nodes@[a]@ == placed_node(d, names, info, f, order[a] as int));
        let i = order[a] as int;
        lemma_distinct_last(d, i);
        assert(handle_index(info, d[i].handle) == Some(i));
        assert(!handle_listed(d, d[i].parent));
        lemma_distinct_find_none(info, d[i].parent, 0);
        assert(path_consistent(info, f, i));
    }
    assert forall|a: int, b: int|
        0 <= a < nv.len() && 0 <= b < nv.len() && (#[trigger] nv[a]).parent == Some(
            (#[trigger] nv[b]).handle,
        ) implies nv[a].rel_path == join_path(nv[b].rel_path, nv[a].name) || (nv[a].rel_path
        == nv[a].name && on_parent_cycle(info, listed_index(d, nv[a].handle))) by {
        assert(tree.nodes@[a]@ == placed_node(d, names, info, f, order[a] as int));
        assert(tree.nodes@[b]@ == placed_node(d, names, info, f, order[b] as int));
        let i = order[a] as int;
        let j = order[b] as int;
        lemma_distinct_last(d, i);
        assert(handle_index(info, d[i].handle) == Some(i));
        assert(handle_index(info, d[j].handle) == Some(j));
        assert(d[i].parent == d[j].handle);
        assert(parent_index(info, i) == Some(j));
        assert(path_consistent(info, f, i));
    }
}

/// The index of the last decoded node with handle `h` (0 where none has it).
pub open spec fn listed_index(d: Seq<DecodedView>, h: Seq<char>) -> int {
    match last_with_handle(d, h) {
        Some(i) => i,
        None => 0,
    }
}

proof fn lemma_count_as_sum(d: Seq<DecodedView>, kind: NodeKind, w: spec_fn(int) -> int, m: int)
    requires
        0 <= m <= d.len(),
        forall|i: int| 0 <= i < d.len() ==> #[trigger] w(i) == if d[i].kind == kind { 1int } else { 0int },
    ensures
        count_kind(d.take(m), kind) == sum_below(m as nat, w),
    decreases m,
{
    if m > 0 {
        lemma_count_as_sum(d, kind, w, m - 1);
        assert(d.take(m).drop_last() =~= d.take(m - 1));
        assert(d.take(m).last() == d[m - 1]);
        assert(w(m - 1) == if d[m - 1].kind == kind { 1int } else { 0int });
    }
}

proof fn lemma_size_as_sum(d: Seq<DecodedView>, w: spec_fn(int) -> int, m: int)
    requires
        0 <= m <= d.len(),
        forall|i: int| 0 <= i < d.len() ==> #[trigger] w(i) == d[i].size as int,
    ensures
        total_size(d.take(m)) == sum_below(m as nat, w),
    decreases m,
{
    if m > 0 {
        lemma_size_as_sum(d, w, m - 1);
        assert(d.take(m).drop_last() =~= d.take(m - 1));
        assert(d.take(m).last() == d[m - 1]);
        assert(w(m - 1) == d[m - 1].size as int);
    }
}

proof fn lemma_nodes_as_sums(
    nv: Seq<TreeNodeView>,
    d: Seq<DecodedView>,
    order: Seq<usize>,
    files: spec_fn(int) -> int,
    folders: spec_fn(int) -> int,
    sizes: spec_fn(int) -> int,
    m: int,
)
    requires
        0 <= m <= nv.len(),
        nv.len() == order.len(),
        forall|k: int| 0 <= k < nv.len() ==> #[trigger] nv[k].kind == d[order[k] as int].kind
            && nv[k].size == d[order[k] as int].size,
        forall|i: int| #[trigger] files(i) == if d[i].kind == NodeKind::File { 1int } else { 0int },
        forall|i: int| #[trigger] folders(i) == if d[i].kind == NodeKind::Folder { 1int } else { 0int },
        forall|i: int| #[trigger] sizes(i) == d[i].size as int,
    ensures
        nodes_of_kind(nv.take(m), NodeKind::File) == sum_over(order.take(m), files),
        nodes_of_kind(nv.take(m), NodeKind::Folder) == sum_over(order.take(m), folders),
        nodes_size(nv.take(m)) == sum_over(order.take(m), sizes),
    decreases m,
{
    if m > 0 {
        lemma_nodes_as_sums(nv, d, order, files, folders, sizes, m - 1);
        assert(nv.take(m).drop_last() =~= nv.take(m - 1));
        assert(nv.take(m).last() == nv[m - 1]);
        assert(order.take(m).drop_last() =~= order.take(m - 1));
        assert(order.take(m).last() == order[m - 1]);
        assert(files(order[m - 1] as int) == if d[order[m - 1] as int].kind == NodeKind::File { 1int } else { 0int });
        assert(folders(order[m - 1] as int) == if d[order[m - 1] as int].kind == NodeKind::Folder { 1int } else { 0int });
        assert(sizes(order[m - 1] as int) == d[order[m - 1] as int].size as int);
    }
}

proof fn lemma_count_kinds(d: Seq<DecodedView>)
    ensures
        count_kind(d, NodeKind::File) + count_kind(d, NodeKind::Folder) == d.len(),
    decreases d.len(),
{
    if d.len() > 0 {
        lemma_count_kinds(d.drop_last());
    }
}


/// The folder id to list and the master key that unwraps the listed node
/// keys, for a folder link.
pub fn folder_source(link: &MegaLink) -> (r: Result<(String, [u8; 16]), Error>)
    ensures
        match link@ {
            crate::mega::link::LinkView::Folder { id, key, file } => match b64url_decoding(
                trim_ws(key),
            ) {
                None => r matches Err(Error::Other(m)) && m@ == "base64 decode: "@
                    + b64url_error(trim_ws(key)),
                Some(b) => if b.len() < 16 {
                    r matches Err(e) && e@ == ErrorView::InvalidLink("folder key too short"@)
                } else {
                    r matches Ok((i, k)) && i@ == id && k@ == b.take(16)
                },
            },
            crate::mega::link::LinkView::File { .. } => r matches Err(e) && e@ == ErrorView::Other(
                "standalone file links are not supported in Phase 1 (folders only)"@,
            ),
        },
{
    match link {
        MegaLink::Folder { id, key, .. } => {
            let master = match master_key(key.as_str()) {
                Ok(m) => m,
                Err(e) => return Err(e),
            };
            Ok((id.clone(), master))
        },
        MegaLink::File { .. } => {
            let msg = chars_of("standalone file links are not supported in Phase 1 (folders only)");
            Err(Error::Other(string_of(msg.as_slice())))
        },
    }
}

/// The reply of the listing call, as far as the engine reads it.
pub enum ListingReply {
    /// The reply is not a JSON array; its text.
    NotArray(String),
    /// The array starts with an integer: a MEGA error code.
    ErrorCode(i64),
    /// The array's first element has no `f` array of nodes.
    MissingNodes,
    /// The nodes of the `f` array.
    Nodes(Vec<RawNode>),
    /// The `f` array does not hold nodes; why.
    BadNodes(String),
}

/// The text of an `Other` error: `prefix` then `tail`.
fn other_error(prefix: &str, tail: &Vec<char>) -> (e: Error)
    ensures
        e@ == ErrorView::Other(prefix@ + tail@),
{
    let msg = concat_chars(&chars_of(prefix), tail);
    Error::Other(string_of(msg.as_slice()))
}

/// The nodes of a listing reply, or the error it reports.
pub fn listing_nodes(reply: ListingReply) -> (r: Result<Vec<RawNode>, Error>)
    ensures
        match reply {
            ListingReply::NotArray(text) => r matches Err(e) && e@ == ErrorView::Other(
                "unexpected MEGA response: "@ + text@,
            ),
            ListingReply::ErrorCode(code) => r matches Err(e) && e@ == ErrorView::Other(
                "MEGA API error "@ + signed_decimal(code as int)
                    + " (e.g. -9 = not found, -16 = blocked/taken down)"@,
            ),
            ListingReply::MissingNodes => r matches Err(e) && e@ == ErrorView::Other(
                "MEGA response missing node list"@,
            ),
            ListingReply::Nodes(nodes) => r matches Ok(v) && v@ == nodes@,
            ListingReply::BadNodes(why) => r matches Err(e) && e@ == ErrorView::Other(
                "failed to parse nodes: "@ + why@,
            ),
        },
{
    match reply {
        ListingReply::NotArray(text) => Err(other_error("unexpected MEGA response: ", &chars_of(text.as_str()))),
        ListingReply::ErrorCode(code) => {
            let tail = concat_chars(
                &signed_decimal_chars(code),
                &chars_of(" (e.g. -9 = not found, -16 = blocked/taken down)"),
            );
            let e = other_error("MEGA API error ", &tail);
            assert(e@ == ErrorView::Other(
                "MEGA API error "@ + signed_decimal(code as int)
                    + " (e.g. -9 = not found, -16 = blocked/taken down)"@,
            )) by {
                assert("MEGA API error "@ + tail@ =~= "MEGA API error "@ + signed_decimal(code as int)
                    + " (e.g. -9 = not found, -16 = blocked/taken down)"@);
            }
            Err(e)
        },
        ListingReply::MissingNodes => {
            let msg = chars_of("MEGA response missing node list");
            Err(Error::Other(string_of(msg.as_slice())))
        },
        ListingReply::Nodes(nodes) => Ok(nodes),
        ListingReply::BadNodes(why) => Err(other_error("failed to parse nodes: ", &chars_of(why.as_str()))),
    }
}

/// The `g` member of a download reply.
pub enum DownloadField {
    /// A download URL.
    Url(String),
    /// A number: a MEGA error code; its text.
    Number(String),
    /// Anything else, or no `g` at all.
    Missing,
}

/// The reply of the download-URL call, as far as the engine reads it.
pub enum DownloadReply {
    /// The reply is not a non-empty JSON array; its text.
    Unexpected(String),
    /// The first element is an integer: a MEGA error code.
    ErrorCode(i64),
    /// The first element's integer `s` member, if any, and its `g` member.
    Target { size: Option<i64>, g: DownloadField },
}

/// The download URL and size from a download reply, or the error it reports.
pub fn download_target(reply: DownloadReply) -> (r: Result<(String, i64), Error>)
    ensures
        match reply {
            DownloadReply::Unexpected(text) => r matches Err(e) && e@ == ErrorView::Other(
                "unexpected MEGA response: "@ + text@,
            ),
            DownloadReply::ErrorCode(code) => r matches Err(e) && e@ == ErrorView::Other(
                "MEGA API error "@ + signed_decimal(code as int),
            ),
            DownloadReply::Target { size, g } => match g {
                DownloadField::Url(url) => r matches Ok((u, s)) && u@ == url@ && s == match size {
                    Some(n) => n,
                    None => 0,
                },
                DownloadField::Number(n) => r matches Err(e) && e@ == ErrorView::Other(
                    "MEGA download error "@ + n@ + " (e.g. -17 = bandwidth quota exceeded)"@,
                ),
                DownloadField::Missing => r matches Err(e) && e@ == ErrorView::Other(
                    "MEGA response missing download url"@,
                ),
            },
        },
{
    match reply {
        DownloadReply::Unexpected(text) => Err(other_error("unexpected MEGA response: ", &chars_of(text.as_str()))),
        DownloadReply::ErrorCode(code) => Err(other_error("MEGA API error ", &signed_decimal_chars(code))),
        DownloadReply::Target { size, g } => {
            let size = match size {
                Some(n) => n,
                None => 0,
            };
            match g {
                DownloadField::Url(url) => Ok((url, size)),
                DownloadField::Number(n) => {
                    let tail = concat_chars(
                        &chars_of(n.as_str()),
                        &chars_of(" (e.g. -17 = bandwidth quota exceeded)"),
                    );
                    let e = other_error("MEGA download error ", &tail);
                    assert(e@ == ErrorView::Other(
                        "MEGA download error "@ + n@ + " (e.g. -17 = bandwidth quota exceeded)"@,
                    )) by {
                        assert("MEGA download error "@ + tail@ =~= "MEGA download error "@ + n@
                            + " (e.g. -17 = bandwidth quota exceeded)"@);
                    }
                    Err(e)
                },
                DownloadField::Missing => {
                    let msg = chars_of("MEGA response missing download url");
                    Err(Error::Other(string_of(msg.as_slice())))
                },
            }
        },
    }
}

} // verus!
