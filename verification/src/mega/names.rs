//! Names of nodes on disk: collision keys of sibling names and the renaming
//! that keeps siblings from overwriting each other.

use vstd::prelude::*;

use crate::text::{
    chars_of, concat_chars, decimal, decimal_chars, last_index_of, last_index_of_exec,
    lemma_decimal_injective, lemma_last_index_of, slice_chars, string_of,
};

verus! {

/// `" ("`.
pub open spec fn open_paren() -> Seq<char> {
    seq![' ', '(']
}

/// `"name.ext"` → `"name (n).ext"` (or `"name (n)"` without an extension; a
/// leading dot does not start an extension).
pub open spec fn dedup_name_spec(name: Seq<char>, n: u32) -> Seq<char> {
    match last_index_of(name, '.') {
        Some(i) => if i > 0 {
            name.take(i) + open_paren() + decimal(n as nat) + seq![')'] + name.skip(i)
        } else {
            name + open_paren() + decimal(n as nat) + seq![')']
        },
        None => name + open_paren() + decimal(n as nat) + seq![')'],
    }
}

/// Distinct counters give distinct candidate names, and no candidate is the
/// name it was made from.
pub proof fn lemma_dedup_name_distinct(name: Seq<char>, n1: u32, n2: u32)
    ensures
        n1 != n2 ==> dedup_name_spec(name, n1) != dedup_name_spec(name, n2),
        dedup_name_spec(name, n1) != name,
{
    let (a, b) = match last_index_of(name, '.') {
        Some(i) => if i > 0 {
            (name.take(i), name.skip(i))
        } else {
            (name, Seq::<char>::empty())
        },
        None => (name, Seq::<char>::empty()),
    };
    lemma_last_index_of(name, '.');
    let d1 = decimal(n1 as nat);
    let d2 = decimal(n2 as nat);
    let r1 = a + open_paren() + d1 + seq![')'] + b;
    let r2 = a + open_paren() + d2 + seq![')'] + b;
    assert(dedup_name_spec(name, n1) =~= r1);
    assert(dedup_name_spec(name, n2) =~= r2);
    assert(a.len() + b.len() == name.len());
    if n1 != n2 && r1 == r2 {
        assert(d1.len() == d2.len());
        let lo: int = a.len() as int + 2;
        assert(r1.subrange(lo, lo + d1.len() as int) =~= d1);
        assert(r2.subrange(lo, lo + d2.len() as int) =~= d2);
        lemma_decimal_injective(n1 as nat, n2 as nat);
    }
}

/// `"name.ext"` → `"name (n).ext"` (or `"name (n)"` without an extension).
pub fn dedup_name(name: &str, n: u32) -> (r: String)
    ensures
        r@ == dedup_name_spec(name@, n),
{
    let chars = chars_of(name);
    let num = decimal_chars(n as u64);
    let open = vec![' ', '('];
    let tail = concat_chars(&concat_chars(&open, &num), &vec![')']);
    assert(tail@ =~= open_paren() + decimal(n as nat) + seq![')']);
    let r = match last_index_of_exec(&chars, '.') {
        Some(i) => if i > 0 {
            proof {
                lemma_last_index_of(chars@, '.');
            }
            let stem = slice_chars(&chars, 0, i);
            let ext = slice_chars(&chars, i, chars.len());
            let r = concat_chars(&concat_chars(&stem, &tail), &ext);
            assert(r@ =~= name@.take(i as int) + open_paren() + decimal(n as nat) + seq![')']
                + name@.skip(i as int));
            r
        } else {
            let r = concat_chars(&chars, &tail);
            assert(r@ =~= name@ + open_paren() + decimal(n as nat) + seq![')']);
            r
        },
        None => {
            let r = concat_chars(&chars, &tail);
            assert(r@ =~= name@ + open_paren() + decimal(n as nat) + seq![')']);
            r
        },
    };
    string_of(r.as_slice())
}

/// The text `str::to_lowercase` gives for `s`.
pub uninterp spec fn lowercase(s: Seq<char>) -> Seq<char>;

/// Trusted: calls `str::to_lowercase`. Claims only that the result is the
/// lowercase form of `s`, which depends on `s` alone.
#[verifier::external_body]
fn to_lowercase(s: &str) -> (r: String)
    ensures
        r@ == lowercase(s@),
{
    s.to_lowercase()
}

/// Characters that cannot stand in a file name on common file systems:
/// `< > : " / \ | ? *` and control characters.
pub open spec fn is_reserved_char(c: char) -> bool {
    ||| c == '<'
    ||| c == '>'
    ||| c == ':'
    ||| c == '"'
    ||| c == '/'
    ||| c == '\\'
    ||| c == '|'
    ||| c == '?'
    ||| c == '*'
    ||| (c as int) < 0x20
}

/// A name made safe as one path segment: reserved characters become `_`.
pub open spec fn sanitize_spec(s: Seq<char>) -> Seq<char> {
    Seq::new(
        s.len(),
        |i: int|
            if is_reserved_char(s[i]) {
                '_'
            } else {
                s[i]
            },
    )
}

/// Sanitizing changes only reserved characters: each of `< > : " / \ | ? *`
/// and each control character below U+0020 becomes `_`, and every other
/// character (letters of any script, digits, spaces, other punctuation) is
/// kept where it stands; the length is kept.
pub proof fn lemma_sanitize_changes_only_reserved(name: Seq<char>)
    ensures
        sanitize_spec(name).len() == name.len(),
        forall|i: int|
            0 <= i < name.len() ==> #[trigger] sanitize_spec(name)[i] == if name[i] == '<'
                || name[i] == '>' || name[i] == ':' || name[i] == '"' || name[i] == '/' || name[i]
                == '\\' || name[i] == '|' || name[i] == '?' || name[i] == '*' || (name[i] as int)
                < 32 {
                '_'
            } else {
                name[i]
            },
{
}

/// Make a name safe as one path segment: reserved characters become `_`.
pub fn sanitize_segment(name: &str) -> (r: String)
    ensures
        r@ == sanitize_spec(name@),
{
    let chars = chars_of(name);
    let mut out: Vec<char> = Vec::new();
    let mut i: usize = 0;
    while i < chars.len()
        invariant
            i <= chars.len(),
            out@ == sanitize_spec(chars@).take(i as int),
        decreases chars.len() - i,
    {
        let c = chars[i];
        let reserved = c == '<' || c == '>' || c == ':' || c == '"' || c == '/' || c == '\\' || c
            == '|' || c == '?' || c == '*' || c < '\u{20}';
        out.push(if reserved { '_' } else { c });
        i = i + 1;
        assert(out@ =~= sanitize_spec(chars@).take(i as int));
    }
    assert(sanitize_spec(chars@).take(chars.len() as int) =~= sanitize_spec(chars@));
    string_of(out.as_slice())
}

/// The key under which two sibling names collide on disk: the sanitized name
/// in lowercase (file systems that ignore case).
pub open spec fn collision_key(name: Seq<char>) -> Seq<char> {
    lowercase(sanitize_spec(name))
}

/// The collision key of a name.
pub fn collision_key_exec(name: &str) -> (r: Vec<char>)
    ensures
        r@ == collision_key(name@),
{
    let s = sanitize_segment(name);
    let l = to_lowercase(s.as_str());
    chars_of(l.as_str())
}

/// The set of `(parent, key)` pairs held in `v`.
pub open spec fn key_pairs(v: Seq<(Vec<char>, Vec<char>)>) -> Set<(Seq<char>, Seq<char>)> {
    Set::new(
        |p: (Seq<char>, Seq<char>)|
            exists|i: int| 0 <= i < v.len() && #[trigger] v[i].0@ == p.0 && v[i].1@ == p.1,
    )
}

/// Whether two character vectors are equal.
pub fn chars_eq(a: &Vec<char>, b: &Vec<char>) -> (r: bool)
    ensures
        r == (a@ == b@),
{
    if a.len() != b.len() {
        return false;
    }
    let mut i: usize = 0;
    while i < a.len()
        invariant
            a.len() == b.len(),
            i <= a.len(),
            forall|k: int| 0 <= k < i ==> a@[k] == b@[k],
        decreases a.len() - i,
    {
        if a[i] != b[i] {
            return false;
        }
        i = i + 1;
    }
    assert(a@ =~= b@);
    true
}

fn contains_pair(used: &Vec<(Vec<char>, Vec<char>)>, parent: &Vec<char>, key: &Vec<char>) -> (r:
    bool)
    ensures
        r == key_pairs(used@).contains((parent@, key@)),
{
    let mut i: usize = 0;
    while i < used.len()
        invariant
            i <= used.len(),
            forall|k: int| 0 <= k < i ==> !(used@[k].0@ == parent@ && used@[k].1@ == key@),
        decreases used.len() - i,
    {
        if chars_eq(&used[i].0, parent) && chars_eq(&used[i].1, key) {
            return true;
        }
        i = i + 1;
    }
    false
}

/// The least `n` from `n` on (up to `u32::MAX`) whose renamed `name` does not
/// collide with `used` under `parent`.
pub open spec fn first_free(
    used: Set<(Seq<char>, Seq<char>)>,
    parent: Seq<char>,
    name: Seq<char>,
    n: nat,
) -> Option<u32>
    decreases u32::MAX + 1 - n,
{
    if n > u32::MAX {
        None
    } else if !used.contains((parent, collision_key(dedup_name_spec(name, n as u32)))) {
        Some(n as u32)
    } else {
        first_free(used, parent, name, n + 1)
    }
}

/// The counter `first_free` picks is the least free one: its renamed name is
/// free under `parent`, and every counter before it, from `n` on, is taken.
pub proof fn lemma_first_free_is_least(
    used: Set<(Seq<char>, Seq<char>)>,
    parent: Seq<char>,
    name: Seq<char>,
    n: nat,
)
    ensures
        first_free(used, parent, name, n) matches Some(k) ==> {
            &&& n <= k
            &&& !used.contains((parent, collision_key(dedup_name_spec(name, k))))
            &&& forall|m: nat|
                n <= m < k ==> used.contains(
                    (parent, collision_key(#[trigger] dedup_name_spec(name, m as u32))),
                )
        },
    decreases u32::MAX + 1 - n,
{
    if n <= u32::MAX && used.contains((parent, collision_key(dedup_name_spec(name, n as u32)))) {
        lemma_first_free_is_least(used, parent, name, n + 1);
    }
}

/// The number of entries under `parent`.
pub open spec fn group_size(entries: Seq<(Seq<char>, Seq<char>)>, parent: Seq<char>) -> nat
    decreases entries.len(),
{
    if entries.len() == 0 {
        0
    } else {
        group_size(entries.drop_last(), parent) + if entries.last().0 == parent {
            1nat
        } else {
            0nat
        }
    }
}

/// Renaming `name` with different counters (from 2 on) gives names with
/// different collision keys.
pub open spec fn counters_separate(name: Seq<char>) -> bool {
    forall|k1: u32, k2: u32|
        2 <= k1 && 2 <= k2 && k1 != k2 ==> #[trigger] collision_key(dedup_name_spec(name, k1))
            != #[trigger] collision_key(dedup_name_spec(name, k2))
}

/// The taken keys under `parent`.
pub open spec fn parent_keys(used: Set<(Seq<char>, Seq<char>)>, parent: Seq<char>) -> Set<
    (Seq<char>, Seq<char>),
> {
    used.filter(|x: (Seq<char>, Seq<char>)| x.0 == parent)
}

proof fn lemma_first_free_none(
    used: Set<(Seq<char>, Seq<char>)>,
    parent: Seq<char>,
    name: Seq<char>,
    n: nat,
)
    requires
        first_free(used, parent, name, n) is None,
    ensures
        forall|m: nat|
            n <= m <= u32::MAX ==> used.contains(
                (parent, collision_key(#[trigger] dedup_name_spec(name, m as u32))),
            ),
    decreases u32::MAX + 1 - n,
{
    if n <= u32::MAX {
        lemma_first_free_none(used, parent, name, n + 1);
        assert forall|m: nat| n <= m <= u32::MAX implies used.contains(
            (parent, collision_key(#[trigger] dedup_name_spec(name, m as u32))),
        ) by {
            if m > n {
                assert(n + 1 <= m);
            }
        }
    }
}

proof fn lemma_candidates_fill(
    used: Set<(Seq<char>, Seq<char>)>,
    parent: Seq<char>,
    name: Seq<char>,
)
    requires
        used.finite(),
        counters_separate(name),
        forall|m: nat|
            2 <= m <= u32::MAX ==> used.contains(
                (parent, collision_key(#[trigger] dedup_name_spec(name, m as u32))),
            ),
    ensures
        parent_keys(used, parent).len() >= u32::MAX - 1,
{
    let x = vstd::set_lib::set_int_range(2, u32::MAX + 1);
    let f = |m: int| (parent, collision_key(dedup_name_spec(name, m as u32)));
    let y = x.map(f);
    vstd::set_lib::lemma_int_range(2, u32::MAX + 1);
    assert(vstd::relations::injective_on(f, x)) by {
        assert forall|m1: int, m2: int|
            x.contains(m1) && x.contains(m2) && #[trigger] f(m1) == #[trigger] f(m2) implies m1
            == m2 by {
            if m1 != m2 {
                assert(collision_key(dedup_name_spec(name, m1 as u32)) != collision_key(
                    dedup_name_spec(name, m2 as u32),
                ));
            }
        }
    }
    vstd::set_lib::lemma_map_size(x, y, f);
    let pk = parent_keys(used, parent);
    vstd::set_lib::lemma_len_subset(pk, used);
    assert(y.subset_of(pk)) by {
        assert forall|e: (Seq<char>, Seq<char>)| y.contains(e) implies pk.contains(e) by {
            let m = choose|m: int| x.contains(m) && f(m) == e;
            assert(used.contains((parent, collision_key(dedup_name_spec(name, (m as nat) as u32)))));
        }
    }
    vstd::set_lib::lemma_len_subset(y, pk);
}

proof fn lemma_parent_keys_insert(
    used: Set<(Seq<char>, Seq<char>)>,
    e: (Seq<char>, Seq<char>),
    q: Seq<char>,
)
    requires
        used.finite(),
    ensures
        parent_keys(used.insert(e), q).len() <= parent_keys(used, q).len() + if e.0 == q {
            1int
        } else {
            0int
        },
{
    let pk = parent_keys(used, q);
    vstd::set_lib::lemma_len_subset(pk, used);
    if e.0 == q {
        assert(parent_keys(used.insert(e), q) =~= pk.insert(e));
    } else {
        assert(parent_keys(used.insert(e), q) =~= pk);
    }
}

proof fn lemma_dedup_all_bounded(entries: Seq<(Seq<char>, Seq<char>)>)
    requires
        forall|i: int| 0 <= i < entries.len() ==> counters_separate(#[trigger] entries[i].1),
        forall|i: int|
            0 <= i < entries.len() ==> #[trigger] group_size(entries, entries[i].0) < u32::MAX - 1,
    ensures
        dedup_all(entries) matches Some((names, used)) && used.finite() && forall|q: Seq<char>|
            #[trigger] parent_keys(used, q).len() <= group_size(entries, q),
    decreases entries.len(),
{
    if entries.len() == 0 {
        assert forall|q: Seq<char>| #[trigger] parent_keys(Set::empty(), q).len() <= group_size(
            entries,
            q,
        ) by {
            assert(parent_keys(Set::empty(), q) =~= Set::empty());
        }
    } else {
        let front = entries.drop_last();
        assert forall|i: int| 0 <= i < front.len() implies #[trigger] group_size(
            front,
            front[i].0,
        ) < u32::MAX - 1 by {
            assert(front[i] == entries[i]);
            assert(group_size(entries, entries[i].0) < u32::MAX - 1);
        }
        assert forall|i: int| 0 <= i < front.len() implies counters_separate(
            #[trigger] front[i].1,
        ) by {
            assert(front[i] == entries[i]);
        }
        lemma_dedup_all_bounded(front);
        let (names, used) = dedup_all(front)->0;
        let parent = entries.last().0;
        let name = entries.last().1;
        assert(group_size(entries, parent) < u32::MAX - 1) by {
            assert(entries[entries.len() - 1] == entries.last());
        }
        let e = if !used.contains((parent, collision_key(name))) {
            (parent, collision_key(name))
        } else {
            if first_free(used, parent, name, 2) is None {
                lemma_first_free_none(used, parent, name, 2);
                assert(counters_separate(entries[entries.len() - 1].1));
                lemma_candidates_fill(used, parent, name);
                assert(parent_keys(used, parent).len() <= group_size(front, parent));
                assert(false);
            }
            (parent, collision_key(dedup_name_spec(name, first_free(used, parent, name, 2)->0)))
        };
        assert(dedup_all(entries) == Some((names.push(if !used.contains((parent, collision_key(name))) {
            name
        } else {
            dedup_name_spec(name, first_free(used, parent, name, 2)->0)
        }), used.insert(e))));
        assert forall|q: Seq<char>| #[trigger] parent_keys(used.insert(e), q).len() <= group_size(
            entries,
            q,
        ) by {
            lemma_parent_keys_insert(used, e, q);
            assert(parent_keys(used, q).len() <= group_size(front, q));
        }
    }
}

/// Sibling de-duplication finds a name for every entry wherever each group of
/// siblings has fewer than `u32::MAX - 1` members and, for each name, renaming
/// it with different counters gives different collision keys: the taken keys
/// under a parent are never more than its siblings, so some counter is free.
pub proof fn lemma_dedup_all_succeeds(entries: Seq<(Seq<char>, Seq<char>)>)
    requires
        forall|i: int| 0 <= i < entries.len() ==> counters_separate(#[trigger] entries[i].1),
        forall|i: int|
            0 <= i < entries.len() ==> #[trigger] group_size(entries, entries[i].0) < u32::MAX - 1,
    ensures
        dedup_all(entries) is Some,
{
    lemma_dedup_all_bounded(entries);
}

/// De-duplicate names of siblings in listing order: a name whose collision key
/// is already taken under the same parent becomes `name (n).ext` with the least
/// `n >= 2` that is free. Gives the final names and the taken keys, or `None`
/// where no `n` up to `u32::MAX` is free.
pub open spec fn dedup_all(entries: Seq<(Seq<char>, Seq<char>)>) -> Option<
    (Seq<Seq<char>>, Set<(Seq<char>, Seq<char>)>),
>
    decreases entries.len(),
{
    if entries.len() == 0 {
        Some((Seq::empty(), Set::empty()))
    } else {
        match dedup_all(entries.drop_last()) {
            None => None,
            Some((names, used)) => {
                let parent = entries.last().0;
                let name = entries.last().1;
                if !used.contains((parent, collision_key(name))) {
                    Some((names.push(name), used.insert((parent, collision_key(name)))))
                } else {
                    match first_free(used, parent, name, 2) {
                        None => None,
                        Some(n) => {
                            let c = dedup_name_spec(name, n);
                            Some((names.push(c), used.insert((parent, collision_key(c)))))
                        },
                    }
                }
            },
        }
    }
}

proof fn lemma_dedup_none_extends(e: Seq<(Seq<char>, Seq<char>)>, k: int)
    requires
        0 <= k <= e.len(),
        dedup_all(e.take(k)) is None,
    ensures
        dedup_all(e) is None,
    decreases e.len() - k,
{
    if k < e.len() {
        assert(e.take(k + 1).drop_last() =~= e.take(k));
        lemma_dedup_none_extends(e, k + 1);
    } else {
        assert(e.take(k) =~= e);
    }
}

/// The model of `(parent, name)` entries.
pub open spec fn pair_view(e: Seq<(String, String)>) -> Seq<(Seq<char>, Seq<char>)> {
    e.map_values(|p: (String, String)| (p.0@, p.1@))
}

/// The model of a list of texts.
pub open spec fn texts_view(v: Seq<String>) -> Seq<Seq<char>> {
    v.map_values(|s: String| s@)
}

/// De-duplicate sibling names that would collide on disk, given
/// `(parent handle, name)` entries in listing order.
pub fn dedup_sibling_names(entries: &Vec<(String, String)>) -> (r: Option<Vec<String>>)
    ensures
        match r {
            Some(v) => dedup_all(pair_view(entries@)) matches Some(p) && texts_view(v@) == p.0,
            None => dedup_all(pair_view(entries@)) is None,
        },
{
    let ghost ev = pair_view(entries@);
    let mut names: Vec<String> = Vec::new();
    let mut used: Vec<(Vec<char>, Vec<char>)> = Vec::new();
    let mut i: usize = 0;
    assert(ev.take(0) =~= Seq::<(Seq<char>, Seq<char>)>::empty());
    assert(key_pairs(used@) =~= Set::<(Seq<char>, Seq<char>)>::empty());
    assert(texts_view(names@) =~= Seq::<Seq<char>>::empty());
    while i < entries.len()
        invariant
            i <= entries.len(),
            ev == pair_view(entries@),
            dedup_all(ev.take(i as int)) == Some((texts_view(names@), key_pairs(used@))),
        decreases entries.len() - i,
    {
        let ghost prev_used = key_pairs(used@);
        let ghost prev_names = texts_view(names@);
        assert(ev.take(i + 1).drop_last() =~= ev.take(i as int));
        assert(ev.take(i + 1).last() == ev[i as int]);
        let parent = chars_of(entries[i].0.as_str());
        let name = &entries[i].1;
        let key = collision_key_exec(name.as_str());
        let chosen: String;
        let chosen_key: Vec<char>;
        if !contains_pair(&used, &parent, &key) {
            chosen = name.clone();
            chosen_key = key;
        } else {
            let mut n: u32 = 2;
            loop
                invariant_except_break
                    dedup_all(ev.take(i as int)) == Some((prev_names, prev_used)),
                invariant
                    2 <= n,
                    first_free(prev_used, parent@, name@, 2) == first_free(
                        prev_used,
                        parent@,
                        name@,
                        n as nat,
                    ),
                    prev_used == key_pairs(used@),
                    ev == pair_view(entries@),
                    i < entries.len(),
                    parent@ == ev[i as int].0,
                    name@ == ev[i as int].1,
                    ev.take(i + 1).drop_last() == ev.take(i as int),
                    ev.take(i + 1).last() == ev[i as int],
                    prev_used.contains((parent@, collision_key(name@))),
                ensures
                    first_free(prev_used, parent@, name@, 2) == Some(n),
                decreases u32::MAX - n,
            {
                let cand = dedup_name(name.as_str(), n);
                let cand_key = collision_key_exec(cand.as_str());
                if !contains_pair(&used, &parent, &cand_key) {
                    break ;
                }
                if n == u32::MAX {
                    assert(prev_used.contains(
                        (parent@, collision_key(dedup_name_spec(name@, n))),
                    ));
                    assert(first_free(prev_used, parent@, name@, (n + 1) as nat) is None);
                    assert(dedup_all(ev.take(i + 1)) is None);
                    proof {
                        lemma_dedup_none_extends(ev, i + 1);
                    }
                    assert(ev.take(ev.len() as int) =~= ev);
                    return None;
                }
                n = n + 1;
            }
            chosen = dedup_name(name.as_str(), n);
            chosen_key = collision_key_exec(chosen.as_str());
        }
        let ghost chosen_view = chosen@;
        let ghost old_used = used@;
        used.push((parent, chosen_key));
        names.push(chosen);
        proof {
            assert(key_pairs(used@) =~= prev_used.insert((parent@, collision_key(chosen_view)))) by {
                assert forall|p: (Seq<char>, Seq<char>)|
                    key_pairs(used@).contains(p) implies prev_used.insert(
                    (parent@, collision_key(chosen_view)),
                ).contains(p) by {
                    let k = choose|k: int|
                        0 <= k < used@.len() && #[trigger] used@[k].0@ == p.0 && used@[k].1@ == p.1;
                    if k < used@.len() - 1 {
                        assert(used@[k] == old_used[k]);
                        assert(key_pairs(old_used).contains(p));
                    }
                }
                assert forall|p: (Seq<char>, Seq<char>)|
                    prev_used.insert((parent@, collision_key(chosen_view))).contains(p) implies key_pairs(
                    used@,
                ).contains(p) by {
                    if p != (parent@, collision_key(chosen_view)) {
                        assert(key_pairs(old_used).contains(p));
                        let k = choose|k: int|
                            0 <= k < old_used.len() && #[trigger] old_used[k].0@ == p.0
                                && old_used[k].1@ == p.1;
                        assert(used@[k] == old_used[k]);
                    } else {
                        assert(used@[used@.len() - 1].0@ == p.0);
                    }
                }
            }
            assert(texts_view(names@) =~= prev_names.push(chosen_view));
        }
        i = i + 1;
    }
    assert(ev.take(entries.len() as int) =~= ev);
    Some(names)
}


proof fn lemma_first_free_is_free(
    used: Set<(Seq<char>, Seq<char>)>,
    parent: Seq<char>,
    name: Seq<char>,
    n: nat,
)
    ensures
        first_free(used, parent, name, n) matches Some(m) ==> n <= m && !used.contains(
            (parent, collision_key(dedup_name_spec(name, m))),
        ),
    decreases u32::MAX + 1 - n,
{
    if n <= u32::MAX && used.contains((parent, collision_key(dedup_name_spec(name, n as u32)))) {
        lemma_first_free_is_free(used, parent, name, n + 1);
    }
}

/// Sibling names never collide after de-duplication: entries under the same
/// parent end up with different collision keys, each entry keeps its name or
/// gets a renamed `name (n).ext` with `n >= 2`, and the taken keys are exactly
/// those of the final names.
pub proof fn lemma_dedup_keys_distinct(entries: Seq<(Seq<char>, Seq<char>)>)
    ensures
        dedup_all(entries) matches Some(p) ==> {
            &&& p.0.len() == entries.len()
            &&& forall|i: int|
                0 <= i < entries.len() ==> p.1.contains(
                    (entries[i].0, collision_key(#[trigger] p.0[i])),
                )
            &&& forall|q: (Seq<char>, Seq<char>)|
                #![trigger p.1.contains(q)]
                p.1.contains(q) ==> exists|i: int|
                    0 <= i < entries.len() && q == (entries[i].0, collision_key(#[trigger] p.0[i]))
            &&& forall|i: int, j: int|
                0 <= i < j < entries.len() && entries[i].0 == entries[j].0 ==> collision_key(
                    #[trigger] p.0[i],
                ) != collision_key(#[trigger] p.0[j])
            &&& forall|i: int|
                0 <= i < entries.len() ==> #[trigger] p.0[i] == entries[i].1 || exists|n: u32|
                    n >= 2 && p.0[i] == dedup_name_spec(entries[i].1, n)
        },
    decreases entries.len(),
{
    if entries.len() > 0 {
        let prefix = entries.drop_last();
        lemma_dedup_keys_distinct(prefix);
        match dedup_all(prefix) {
            None => {},
            Some(pp) => {
                let names = pp.0;
                let used = pp.1;
                let parent = entries.last().0;
                let name = entries.last().1;
                let j = entries.len() - 1;
                if !used.contains((parent, collision_key(name))) {
                } else {
                    lemma_first_free_is_free(used, parent, name, 2);
                }
                match dedup_all(entries) {
                    None => {},
                    Some(p) => {
                        assert(p.0 == names.push(p.0[j]));
                        assert(!used.contains((parent, collision_key(p.0[j]))));
                        assert(p.1 == used.insert((parent, collision_key(p.0[j]))));
                        assert forall|i: int| 0 <= i < j implies prefix[i] == entries[i] by {}
                        assert forall|i: int, k: int|
                            0 <= i < k < entries.len() && entries[i].0 == entries[k].0 implies collision_key(
                            #[trigger] p.0[i],
                        ) != collision_key(#[trigger] p.0[k]) by {
                            if k == j {
                                assert(prefix[i] == entries[i]);
                                assert(used.contains((prefix[i].0, collision_key(names[i]))));
                            } else {
                                assert(prefix[i] == entries[i]);
                                assert(prefix[k] == entries[k]);
                            }
                        }
                        assert forall|q: (Seq<char>, Seq<char>)| p.1.contains(q) implies exists|i: int|
                            0 <= i < entries.len() && q == (
                                entries[i].0,
                                collision_key(#[trigger] p.0[i]),
                            ) by {
                            if q != (parent, collision_key(p.0[j])) {
                                assert(used.contains(q));
                                let i = choose|i: int|
                                    0 <= i < prefix.len() && q == (
                                        prefix[i].0,
                                        collision_key(#[trigger] names[i]),
                                    );
                                assert(prefix[i] == entries[i]);
                                assert(p.0[i] == names[i]);
                            } else {
                                assert(q == (entries[j].0, collision_key(p.0[j])));
                            }
                        }
                        assert forall|i: int| 0 <= i < entries.len() implies p.1.contains(
                            (entries[i].0, collision_key(#[trigger] p.0[i])),
                        ) by {
                            if i < j {
                                assert(prefix[i] == entries[i]);
                                assert(p.0[i] == names[i]);
                            }
                        }
                        assert forall|i: int|
                            0 <= i < entries.len() implies #[trigger] p.0[i] == entries[i].1
                                || exists|n: u32| n >= 2 && p.0[i] == dedup_name_spec(entries[i].1, n) by {
                            if i < j {
                                assert(prefix[i] == entries[i]);
                                assert(p.0[i] == names[i]);
                            } else if p.0[i] != entries[i].1 {
                                let n = first_free(used, parent, name, 2)->0;
                                assert(p.0[i] == dedup_name_spec(entries[i].1, n));
                            }
                        }
                    },
                }
            },
        }
    }
}

} // verus!
