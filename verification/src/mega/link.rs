//! Parsing of MEGA share links.
//!
//! Supported forms (new-style `mega.nz` links):
//!   - Folder:        `https://mega.nz/folder/<id>#<key>`
//!   - File:          `https://mega.nz/file/<id>#<key>`
//!   - File-in-folder:`https://mega.nz/folder/<id>#<key>/file/<handle>`
//!
//! The fragment after `#` is the base64 decryption key embedded in the link.

use vstd::prelude::*;

use crate::error::{Error, ErrorView};
use crate::text::{
    all_white_space, lemma_trim_ws_surrounded, lemma_white_space_chars,
    find_first, is_white_space, lemma_find_first_is, lemma_find_first_none, lemma_find_first_occurs,
    lemma_trim_char_noop, lemma_trim_char_part,
    lemma_trim_ws_noop, occurs_at, chars_of, concat_chars, slice_chars, split_once, split_once_exec, starts_with, starts_with_exec,
    string_of, trim_char, trim_char_exec, trim_start_char, trim_start_char_exec, trim_ws, trim_ws_exec,
};

verus! {

/// A parsed MEGA share link.
#[derive(Debug, Clone, PartialEq, Eq)]
pub enum MegaLink {
    /// A shared folder, optionally pointing at a single file within it.
    Folder {
        id: String,
        key: String,
        /// Handle of a specific file inside the folder, if the link targets one.
        file: Option<String>,
    },
    /// A standalone shared file.
    File { id: String, key: String },
}

/// The mathematical model of a [`MegaLink`].
pub enum LinkView {
    Folder { id: Seq<char>, key: Seq<char>, file: Option<Seq<char>> },
    File { id: Seq<char>, key: Seq<char> },
}

impl View for MegaLink {
    type V = LinkView;

    open spec fn view(&self) -> LinkView {
        match self {
            MegaLink::Folder { id, key, file } => LinkView::Folder {
                id: id@,
                key: key@,
                file: match file {
                    Some(h) => Some(h@),
                    None => None,
                },
            },
            MegaLink::File { id, key } => LinkView::File { id: id@, key: key@ },
        }
    }
}

/// What [`finish`] makes of an id and a key taken from a link: both without
/// surrounding slashes, and an error when either is then empty.
pub open spec fn finish_spec(id: Seq<char>, key: Seq<char>) -> Result<
    (Seq<char>, Seq<char>),
    ErrorView,
> {
    let id = trim_char(id, '/');
    let key = trim_char(key, '/');
    if id.len() == 0 || key.len() == 0 {
        Err(ErrorView::InvalidLink("empty id or key"@))
    } else {
        Ok((id, key))
    }
}

/// The path and fragment of a link: the text after the first `mega.nz/`
/// (else after the first `mega.co.nz/`, else all of it) without leading
/// slashes.
pub open spec fn link_rest(s: Seq<char>) -> Seq<char> {
    let rest = match split_once(s, "mega.nz/"@) {
        Some(p) => p.1,
        None => match split_once(s, "mega.co.nz/"@) {
            Some(p) => p.1,
            None => s,
        },
    };
    trim_start_char(rest, '/')
}

/// What [`parse`] returns for a link text.
pub open spec fn parse_spec(input: Seq<char>) -> Result<LinkView, ErrorView> {
    let rest = link_rest(trim_ws(input));
    match split_once(rest, "#"@) {
        None => Err(ErrorView::InvalidLink("missing '#' key: "@ + input)),
        Some((path, fragment)) => if starts_with(path, "folder/"@) {
            let id = path.skip("folder/"@.len() as int);
            let (key, file) = match split_once(fragment, "/file/"@) {
                Some((k, h)) => (k, Some(h)),
                None => (fragment, None),
            };
            match finish_spec(id, key) {
                Ok((id, key)) => Ok(LinkView::Folder { id, key, file }),
                Err(e) => Err(e),
            }
        } else if starts_with(path, "file/"@) {
            let id = path.skip("file/"@.len() as int);
            match finish_spec(id, fragment) {
                Ok((id, key)) => Ok(LinkView::File { id, key }),
                Err(e) => Err(e),
            }
        } else {
            Err(ErrorView::InvalidLink("unrecognized path: "@ + input))
        },
    }
}

/// The model of a parse result.
pub open spec fn parse_result_view(r: Result<MegaLink, Error>) -> Result<LinkView, ErrorView> {
    match r {
        Ok(l) => Ok(l@),
        Err(e) => Err(e@),
    }
}

/// An `InvalidLink` error whose text is `prefix` followed by `tail`.
fn invalid_link(prefix: &str, tail: &str) -> (e: Error)
    ensures
        e@ == ErrorView::InvalidLink(prefix@ + tail@),
{
    let msg = concat_chars(&chars_of(prefix), &chars_of(tail));
    Error::InvalidLink(string_of(msg.as_slice()))
}

/// Parse a MEGA share link into its identifier(s) and decryption key.
pub fn parse(input: &str) -> (r: Result<MegaLink, Error>)
    ensures
        parse_result_view(r) == parse_spec(input@),
{
    let all = chars_of(input);
    let s = trim_ws_exec(&all);
    let rest0 = match split_once_exec(&s, &chars_of("mega.nz/")) {
        Some((_, r)) => r,
        None => match split_once_exec(&s, &chars_of("mega.co.nz/")) {
            Some((_, r)) => r,
            None => s,
        },
    };
    let rest = trim_start_char_exec(&rest0, '/');
    let (path, fragment) = match split_once_exec(&rest, &chars_of("#")) {
        Some(p) => p,
        None => {
            return Err(invalid_link("missing '#' key: ", input));
        },
    };
    let folder = chars_of("folder/");
    if starts_with_exec(&path, &folder) {
        let id = slice_chars(&path, folder.len(), path.len());
        assert(id@ =~= path@.skip("folder/"@.len() as int));
        let (key, file) = match split_once_exec(&fragment, &chars_of("/file/")) {
            Some((k, h)) => (k, Some(string_of(h.as_slice()))),
            None => (fragment, None),
        };
        let id_s = string_of(id.as_slice());
        let key_s = string_of(key.as_slice());
        return match finish(id_s.as_str(), key_s.as_str()) {
            Ok((id, key)) => Ok(MegaLink::Folder { id, key, file }),
            Err(e) => Err(e),
        };
    }
    let file = chars_of("file/");
    if starts_with_exec(&path, &file) {
        let id = slice_chars(&path, file.len(), path.len());
        assert(id@ =~= path@.skip("file/"@.len() as int));
        let id_s = string_of(id.as_slice());
        let key_s = string_of(fragment.as_slice());
        return match finish(id_s.as_str(), key_s.as_str()) {
            Ok((id, key)) => Ok(MegaLink::File { id, key }),
            Err(e) => Err(e),
        };
    }
    Err(invalid_link("unrecognized path: ", input))
}

/// Validate and normalize the id/key pair extracted from a link.
pub fn finish(id: &str, key: &str) -> (r: Result<(String, String), Error>)
    ensures
        match r {
            Ok((i, k)) => finish_spec(id@, key@) == Ok::<_, ErrorView>((i@, k@)),
            Err(e) => finish_spec(id@, key@) == Err::<(Seq<char>, Seq<char>), _>(e@),
        },
{
    let id = trim_char_exec(&chars_of(id), '/');
    let key = trim_char_exec(&chars_of(key), '/');
    if id.len() == 0 || key.len() == 0 {
        let msg = chars_of("empty id or key");
        return Err(Error::InvalidLink(string_of(msg.as_slice())));
    }
    Ok((string_of(id.as_slice()), string_of(key.as_slice())))
}


proof fn lemma_no_char_no_occurrence(s: Seq<char>, c: char)
    requires
        forall|i: int| 0 <= i < s.len() ==> s[i] != c,
    ensures
        forall|k: int| 0 <= k <= s.len() ==> !occurs_at(s, seq![c], k),
{
    assert forall|k: int| 0 <= k <= s.len() implies !occurs_at(s, seq![c], k) by {
        if occurs_at(s, seq![c], k) {
            assert(s.subrange(k, k + 1)[0] == s[k]);
        }
    }
}

/// The host prefix of a link is stripped: what follows `https://mega.nz/`
/// is the path and fragment.
proof fn lemma_link_rest(tail: Seq<char>)
    requires
        tail.len() > 0,
        tail[0] != '/',
    ensures
        link_rest("https://mega.nz/"@ + tail) == tail,
{
    reveal_strlit("https://mega.nz/");
    reveal_strlit("mega.nz/");
    let s = "https://mega.nz/"@ + tail;
    let pat = "mega.nz/"@;
    assert(s.subrange(8, 16) =~= pat);
    assert forall|k: int| 0 <= k < 8 implies !occurs_at(s, pat, k) by {
        assert(s.subrange(k, k + 8)[0] == s[k]);
    }
    lemma_find_first_is(s, pat, 8);
    assert(s.skip(16) =~= tail);
}

/// The first `#` splits a link body into path and fragment.
proof fn lemma_split_hash(path: Seq<char>, fragment: Seq<char>)
    requires
        forall|i: int| 0 <= i < path.len() ==> path[i] != '#',
    ensures
        split_once(path + "#"@ + fragment, "#"@) == Some((path, fragment)),
{
    reveal_strlit("#");
    let s = path + "#"@ + fragment;
    let pat = "#"@;
    assert(pat =~= seq!['#']);
    assert(s.subrange(path.len() as int, path.len() + 1int) =~= pat);
    assert forall|k: int| 0 <= k < path.len() implies !occurs_at(s, pat, k) by {
        assert(s.subrange(k, k + 1)[0] == s[k]);
        assert(s[k] == path[k]);
    }
    lemma_find_first_is(s, pat, path.len() as int);
    assert(s.take(path.len() as int) =~= path);
    assert(s.skip(path.len() + 1int) =~= fragment);
}

/// A usable link part: not empty, and free of `/`, `#` and white space.
pub open spec fn plain_part(s: Seq<char>) -> bool {
    &&& s.len() > 0
    &&& forall|i: int|
        0 <= i < s.len() ==> #[trigger] s[i] != '/' && s[i] != '#' && !is_white_space(s[i])
}

/// A folder link `https://mega.nz/folder/<id>#<key>` parses to that folder.
pub proof fn lemma_parse_folder_link(id: Seq<char>, key: Seq<char>)
    requires
        plain_part(id),
        plain_part(key),
    ensures
        parse_spec("https://mega.nz/folder/"@ + id + "#"@ + key) == Ok::<LinkView, ErrorView>(
            LinkView::Folder { id, key, file: None },
        ),
{
    reveal_strlit("https://mega.nz/folder/");
    reveal_strlit("https://mega.nz/");
    reveal_strlit("folder/");
    reveal_strlit("#");
    reveal_strlit("/file/");
    let input = "https://mega.nz/folder/"@ + id + "#"@ + key;
    assert(input[0] == 'h');
    assert(input.last() == key.last());
    lemma_trim_ws_noop(input);
    let path = "folder/"@ + id;
    let tail = path + "#"@ + key;
    assert(input =~= "https://mega.nz/"@ + tail);
    lemma_link_rest(tail);
    assert forall|i: int| 0 <= i < path.len() implies path[i] != '#' by {
        if i >= 7 {
            assert(path[i] == id[i - 7]);
        }
    }
    lemma_split_hash(path, key);
    assert(path.take(7) =~= "folder/"@);
    assert(path.skip(7) =~= id);
    lemma_no_char_no_occurrence(key, '/');
    assert forall|k: int| 0 <= k <= key.len() implies !occurs_at(key, "/file/"@, k) by {
        if occurs_at(key, "/file/"@, k) {
            assert(key.subrange(k, k + 6)[0] == key[k]);
        }
    }
    lemma_find_first_none(key, "/file/"@);
    lemma_trim_char_noop(id, '/');
    lemma_trim_char_noop(key, '/');
}

/// A per-file folder link `https://mega.nz/folder/<id>#<key>/file/<handle>`
/// parses to the folder with that file handle.
pub proof fn lemma_parse_file_in_folder_link(id: Seq<char>, key: Seq<char>, handle: Seq<char>)
    requires
        plain_part(id),
        plain_part(key),
        plain_part(handle),
    ensures
        parse_spec("https://mega.nz/folder/"@ + id + "#"@ + key + "/file/"@ + handle) == Ok::<
            LinkView,
            ErrorView,
        >(LinkView::Folder { id, key, file: Some(handle) }),
{
    reveal_strlit("https://mega.nz/folder/");
    reveal_strlit("https://mega.nz/");
    reveal_strlit("folder/");
    reveal_strlit("#");
    reveal_strlit("/file/");
    let fragment = key + "/file/"@ + handle;
    let input = "https://mega.nz/folder/"@ + id + "#"@ + fragment;
    assert(input =~= "https://mega.nz/folder/"@ + id + "#"@ + key + "/file/"@ + handle);
    assert(input[0] == 'h');
    assert(input.last() == handle.last());
    lemma_trim_ws_noop(input);
    let path = "folder/"@ + id;
    let tail = path + "#"@ + fragment;
    assert(input =~= "https://mega.nz/"@ + tail);
    lemma_link_rest(tail);
    assert forall|i: int| 0 <= i < path.len() implies path[i] != '#' by {
        if i >= 7 {
            assert(path[i] == id[i - 7]);
        }
    }
    lemma_split_hash(path, fragment);
    assert(path.take(7) =~= "folder/"@);
    assert(path.skip(7) =~= id);
    let pat = "/file/"@;
    assert(fragment.subrange(key.len() as int, key.len() + 6int) =~= pat);
    assert forall|k: int| 0 <= k < key.len() implies !occurs_at(fragment, pat, k) by {
        assert(fragment.subrange(k, k + 6)[0] == fragment[k]);
        assert(fragment[k] == key[k]);
    }
    lemma_find_first_is(fragment, pat, key.len() as int);
    assert(fragment.take(key.len() as int) =~= key);
    assert(fragment.skip(key.len() + 6int) =~= handle);
    lemma_trim_char_noop(id, '/');
    lemma_trim_char_noop(key, '/');
}

/// A file link `https://mega.nz/file/<id>#<key>` parses to that file.
pub proof fn lemma_parse_file_link(id: Seq<char>, key: Seq<char>)
    requires
        plain_part(id),
        plain_part(key),
    ensures
        parse_spec("https://mega.nz/file/"@ + id + "#"@ + key) == Ok::<LinkView, ErrorView>(
            LinkView::File { id, key },
        ),
{
    reveal_strlit("https://mega.nz/file/");
    reveal_strlit("https://mega.nz/");
    reveal_strlit("folder/");
    reveal_strlit("file/");
    reveal_strlit("#");
    let input = "https://mega.nz/file/"@ + id + "#"@ + key;
    assert(input[0] == 'h');
    assert(input.last() == key.last());
    lemma_trim_ws_noop(input);
    let path = "file/"@ + id;
    let tail = path + "#"@ + key;
    assert(input =~= "https://mega.nz/"@ + tail);
    lemma_link_rest(tail);
    assert forall|i: int| 0 <= i < path.len() implies path[i] != '#' by {
        if i >= 5 {
            assert(path[i] == id[i - 5]);
        }
    }
    lemma_split_hash(path, key);
    assert(!starts_with(path, "folder/"@)) by {
        if path.len() >= 7 {
            assert(path.take(7)[1] == 'i');
        }
    }
    assert(path.take(5) =~= "file/"@);
    assert(path.skip(5) =~= id);
    lemma_trim_char_noop(id, '/');
    lemma_trim_char_noop(key, '/');
}

/// A part of a parsed link: not empty, and neither starting nor ending with `/`.
pub open spec fn link_part(s: Seq<char>) -> bool {
    &&& s.len() > 0
    &&& s[0] != '/'
    &&& s.last() != '/'
}

/// `s` holds no `c`.
pub open spec fn lacks_char(s: Seq<char>, c: char) -> bool {
    forall|i: int| 0 <= i < s.len() ==> s[i] != c
}

/// `s` holds no `/file/`.
pub open spec fn lacks_file_marker(s: Seq<char>) -> bool {
    forall|k: int| !occurs_at(s, "/file/"@, k)
}

/// What parsing a link keeps of its parts: its id and key are never empty and
/// never start or end with `/`; the id holds no `#`; and a folder's key holds
/// no `/file/` (that part names the file inside the folder).
pub proof fn lemma_parse_parts(input: Seq<char>)
    ensures
        parse_spec(input) matches Ok(LinkView::Folder { id, key, file }) ==> link_part(id)
            && link_part(key) && lacks_char(id, '#') && lacks_file_marker(key),
        parse_spec(input) matches Ok(LinkView::File { id, key }) ==> link_part(id) && link_part(
            key,
        ) && lacks_char(id, '#'),
{
    reveal_strlit("#");
    reveal_strlit("/file/");
    reveal_strlit("folder/");
    reveal_strlit("file/");
    let rest = link_rest(trim_ws(input));
    lemma_find_first_occurs(rest, "#"@);
    if let Some((path, fragment)) = split_once(rest, "#"@) {
        let i = find_first(rest, "#"@)->0;
        assert(path == rest.take(i));
        assert(lacks_char(path, '#')) by {
            assert forall|k: int| 0 <= k < path.len() implies path[k] != '#' by {
                if path[k] == '#' {
                    assert(rest[k] == path[k]);
                    assert(rest.subrange(k, k + 1) =~= "#"@);
                    assert(occurs_at(rest, "#"@, k));
                }
            }
        }
        let skip = if starts_with(path, "folder/"@) { 7int } else { 5int };
        let id0 = path.skip(skip);
        let key0 = if starts_with(path, "folder/"@) {
            match split_once(fragment, "/file/"@) {
                Some((k, h)) => k,
                None => fragment,
            }
        } else {
            fragment
        };
        let (a, b) = lemma_trim_char_part(id0, '/');
        let (c, d) = lemma_trim_char_part(key0, '/');
        let id = trim_char(id0, '/');
        let key = trim_char(key0, '/');
        if starts_with(path, "folder/"@) || starts_with(path, "file/"@) {
            assert(lacks_char(id, '#')) by {
                assert forall|k: int| 0 <= k < id.len() implies id[k] != '#' by {
                    assert(id[k] == path[skip + a + k]);
                }
            }
        }
        if starts_with(path, "folder/"@) {
            lemma_find_first_occurs(fragment, "/file/"@);
            assert(lacks_file_marker(key)) by {
                assert forall|k: int| !occurs_at(key, "/file/"@, k) by {
                    if occurs_at(key, "/file/"@, k) {
                        assert(fragment.subrange(c + k, c + k + 6) =~= key.subrange(k, k + 6));
                        assert(occurs_at(fragment, "/file/"@, c + k));
                    }
                }
            }
        }
    }
}

/// Spaces, tabs and line ends.
pub open spec fn is_line_space(c: char) -> bool {
    c == ' ' || c == '\t' || c == '\n' || c == '\r'
}

/// A link keeps its meaning with spaces, tabs and line ends (`\r`, `\n`)
/// around it, as when pasted from another program: it is accepted exactly
/// when the bare link is, and then parses to the same link.
pub proof fn lemma_parse_ignores_surrounding_line_space(
    before: Seq<char>,
    input: Seq<char>,
    after: Seq<char>,
)
    requires
        forall|i: int| 0 <= i < before.len() ==> is_line_space(#[trigger] before[i]),
        forall|i: int| 0 <= i < after.len() ==> is_line_space(#[trigger] after[i]),
    ensures
        parse_spec(before + input + after) is Ok <==> parse_spec(input) is Ok,
        parse_spec(input) is Ok ==> parse_spec(before + input + after) == parse_spec(input),
{
    assert forall|i: int| 0 <= i < before.len() implies is_white_space(#[trigger] before[i]) by {
        lemma_white_space_chars(before[i]);
    }
    assert forall|i: int| 0 <= i < after.len() implies is_white_space(#[trigger] after[i]) by {
        lemma_white_space_chars(after[i]);
    }
    assert(all_white_space(before));
    assert(all_white_space(after));
    lemma_trim_ws_surrounded(before, input, after);
}

} // verus!
