//! On-disk relative paths of the nodes of a folder listing.
//!
//! Every node's path is its parent's path joined with its own name by `/`;
//! nodes whose parent is not listed are roots and their path is their name.
//! A corrupt listing may link parents in a loop: such a loop is cut at one of
//! its nodes, which is then treated as a root, instead of walking forever.

use vstd::prelude::*;
use vstd::set_lib::{lemma_int_range, lemma_len_subset, set_int_range};

use crate::text::{chars_of, concat_chars, string_of};

verus! {

/// One listed node as `(handle, name, parent handle)`.
pub open spec fn entry_view(e: (String, (String, String))) -> (Seq<char>, Seq<char>, Seq<char>) {
    (e.0@, e.1.0@, e.1.1@)
}

/// The model of a listing given as `(handle, (name, parent handle))` entries.
pub open spec fn info_view(info: Seq<(String, (String, String))>) -> Seq<
    (Seq<char>, Seq<char>, Seq<char>),
> {
    info.map_values(|e: (String, (String, String))| entry_view(e))
}

/// The first index at or after `k` whose handle is `h`.
pub open spec fn find_handle_from(info: Seq<(Seq<char>, Seq<char>, Seq<char>)>, h: Seq<char>, k: nat) -> Option<int>
    decreases info.len() - k,
{
    if k >= info.len() {
        None
    } else if info[k as int].0 == h {
        Some(k as int)
    } else {
        find_handle_from(info, h, k + 1)
    }
}

/// The index of the entry with handle `h`.
pub open spec fn handle_index(info: Seq<(Seq<char>, Seq<char>, Seq<char>)>, h: Seq<char>) -> Option<int> {
    find_handle_from(info, h, 0)
}

/// The index of the parent of entry `i`, if its parent is listed.
pub open spec fn parent_index(info: Seq<(Seq<char>, Seq<char>, Seq<char>)>, i: int) -> Option<int> {
    handle_index(info, info[i].2)
}

/// The index reached from entry `i` by following parents `k` times.
pub open spec fn ancestor(info: Seq<(Seq<char>, Seq<char>, Seq<char>)>, i: int, k: nat) -> Option<int>
    decreases k,
{
    if k == 0 {
        Some(i)
    } else {
        match parent_index(info, i) {
            Some(j) => ancestor(info, j, (k - 1) as nat),
            None => None,
        }
    }
}

/// Entry `i` lies on a loop of parent links.
pub open spec fn on_parent_cycle(info: Seq<(Seq<char>, Seq<char>, Seq<char>)>, i: int) -> bool {
    exists|k: nat| k >= 1 && #[trigger] ancestor(info, i, k) == Some(i)
}

/// `base/name`, or just `name` under an empty base.
pub open spec fn join_path(base: Seq<char>, name: Seq<char>) -> Seq<char> {
    if base.len() == 0 {
        name
    } else {
        base + seq!['/'] + name
    }
}

/// The path of entry `i` is its parent's path joined with its name; or its
/// name alone when its parent is not listed, or when the entry is where a
/// loop of parent links was cut.
pub open spec fn path_consistent(
    info: Seq<(Seq<char>, Seq<char>, Seq<char>)>,
    paths: Seq<Seq<char>>,
    i: int,
) -> bool {
    match parent_index(info, i) {
        None => paths[i] == info[i].1,
        Some(j) => paths[i] == join_path(paths[j], info[i].1) || (on_parent_cycle(info, i)
            && paths[i] == info[i].1),
    }
}

/// Entry `i` has a listed parent, yet its path is not the parent's path
/// joined with its name: the entry is where a loop of parent links was cut.
pub open spec fn is_cut(
    info: Seq<(Seq<char>, Seq<char>, Seq<char>)>,
    paths: Seq<Seq<char>>,
    i: int,
) -> bool {
    match parent_index(info, i) {
        Some(j) => paths[i] != join_path(paths[j], info[i].1),
        None => false,
    }
}

/// Every entry's path is consistent with its parent's, and a loop of parent
/// links is cut at one entry at most: no cut entry is reached from another
/// cut entry by following parents.
pub open spec fn paths_consistent(
    info: Seq<(Seq<char>, Seq<char>, Seq<char>)>,
    paths: Seq<Seq<char>>,
) -> bool {
    &&& paths.len() == info.len()
    &&& forall|i: int| 0 <= i < info.len() ==> path_consistent(info, paths, i)
    &&& forall|i: int, k: int, m: nat|
        #![trigger ancestor(info, i, m), is_cut(info, paths, k)]
        0 <= i < info.len() && 0 <= k < info.len() && is_cut(info, paths, i) && is_cut(
            info,
            paths,
            k,
        ) && ancestor(info, i, m) == Some(k) ==> i == k
}

/// The index of the first entry whose handle is `h`.
pub fn find_handle(info: &[(String, (String, String))], h: &String) -> (r: Option<usize>)
    ensures
        match r {
            Some(j) => handle_index(info_view(info@), h@) == Some(j as int) && j < info@.len(),
            None => handle_index(info_view(info@), h@) is None,
        },
{
    let ghost v = info_view(info@);
    let mut k: usize = 0;
    while k < info.len()
        invariant
            k <= info.len(),
            v == info_view(info@),
            handle_index(v, h@) == find_handle_from(v, h@, k as nat),
        decreases info.len() - k,
    {
        if info[k].0 == *h {
            proof {
                lemma_find_from_bound(v, h@, k as nat);
            }
            return Some(k);
        }
        k = k + 1;
    }
    None
}

/// A partially computed path is consistent: its parent's path is already
/// known and extended by the name, or the entry is a root or a cut point.
pub open spec fn partial_ok(
    info: Seq<(Seq<char>, Seq<char>, Seq<char>)>,
    paths: Seq<Option<Vec<char>>>,
    i: int,
) -> bool {
    let p = paths[i]->0@;
    match parent_index(info, i) {
        None => p == info[i].1,
        Some(j) => (paths[j] is Some && p == join_path(paths[j]->0@, info[i].1)) || (
        on_parent_cycle(info, i) && p == info[i].1),
    }
}

/// A computed path is its parent's computed path joined with its name (or
/// the entry has no listed parent).
pub open spec fn joined_ok(
    info: Seq<(Seq<char>, Seq<char>, Seq<char>)>,
    paths: Seq<Option<Vec<char>>>,
    i: int,
) -> bool {
    match parent_index(info, i) {
        None => true,
        Some(j) => paths[j] is Some && paths[i]->0@ == join_path(paths[j]->0@, info[i].1),
    }
}

/// `a` is one of `chain[m0..]`.
pub open spec fn in_chain_from(chain: Seq<usize>, m0: int, a: Option<int>) -> bool {
    exists|s: int| m0 <= s < chain.len() && a == Some(chain[s] as int)
}

proof fn lemma_cycle_ancestors(
    info: Seq<(Seq<char>, Seq<char>, Seq<char>)>,
    chain: Seq<usize>,
    m0: int,
    s0: int,
    m: nat,
)
    requires
        0 <= m0 < chain.len(),
        m0 <= s0 < chain.len(),
        forall|t: int| 0 <= t < chain.len() - 1 ==> parent_index(info, chain[t] as int) == Some(
            chain[t + 1] as int,
        ),
        parent_index(info, chain.last() as int) == Some(chain[m0] as int),
    ensures
        in_chain_from(chain, m0, ancestor(info, chain[s0] as int, m)),
    decreases m,
{
    if m == 0 {
        assert(ancestor(info, chain[s0] as int, 0) == Some(chain[s0] as int));
    } else {
        let next = if s0 < chain.len() - 1 {
            s0 + 1
        } else {
            m0
        };
        lemma_cycle_ancestors(info, chain, m0, next, (m - 1) as nat);
        assert(parent_index(info, chain[s0] as int) == Some(chain[next] as int));
        assert(ancestor(info, chain[s0] as int, m) == ancestor(
            info,
            chain[next] as int,
            (m - 1) as nat,
        ));
    }
}

proof fn lemma_ancestor_in_range(info: Seq<(Seq<char>, Seq<char>, Seq<char>)>, i: int, m: nat)
    requires
        0 <= i < info.len(),
    ensures
        ancestor(info, i, m) matches Some(a) ==> 0 <= a < info.len(),
    decreases m,
{
    if m > 0 {
        lemma_parent_in_range(info, i);
        match parent_index(info, i) {
            Some(j) => lemma_ancestor_in_range(info, j, (m - 1) as nat),
            None => {},
        }
    }
}

proof fn lemma_distinct_bounded(s: Seq<usize>, n: usize)
    requires
        s.no_duplicates(),
        forall|i: int| 0 <= i < s.len() ==> s[i] < n,
    ensures
        s.len() <= n,
{
    let t = s.map_values(|x: usize| x as int);
    assert(t.no_duplicates()) by {
        assert forall|a: int, b: int| 0 <= a < t.len() && 0 <= b < t.len() && a != b implies t[a]
            != t[b] by {
            assert(s[a] != s[b]);
        }
    }
    t.unique_seq_to_set();
    lemma_int_range(0, n as int);
    assert(t.to_set().subset_of(set_int_range(0, n as int))) by {
        assert forall|x: int| t.to_set().contains(x) implies set_int_range(0, n as int).contains(
            x,
        ) by {
            let i = choose|i: int| 0 <= i < t.len() && t[i] == x;
            assert(s[i] < n);
        }
    }
    lemma_len_subset(t.to_set(), set_int_range(0, n as int));
}

proof fn lemma_chain_ancestor(
    info: Seq<(Seq<char>, Seq<char>, Seq<char>)>,
    chain: Seq<usize>,
    m: int,
    d: nat,
)
    requires
        0 <= m,
        m + d < chain.len(),
        forall|t: int| 0 <= t < chain.len() - 1 ==> parent_index(info, chain[t] as int) == Some(
            chain[t + 1] as int,
        ),
    ensures
        ancestor(info, chain[m] as int, d) == Some(chain[m + d] as int),
    decreases d,
{
    if d > 0 {
        lemma_chain_ancestor(info, chain, m + 1, (d - 1) as nat);
    }
}

/// Compute every node's `/`-joined path from the root down to itself, given
/// `(handle, (name, parent_handle))` entries; the result is aligned with the
/// entries. Iterative (deep trees can't blow the stack) and cycle-guarded (a
/// corrupt parent loop degrades to an extra root instead of hanging),
/// memoizing each ancestor.
pub fn compute_paths(info: &[(String, (String, String))]) -> (r: Vec<String>)
    ensures
        paths_consistent(info_view(info@), r@.map_values(|s: String| s@)),
{
    let ghost v = info_view(info@);
    let n = info.len();
    let mut names: Vec<Vec<char>> = Vec::new();
    let mut par: Vec<Option<usize>> = Vec::new();
    let mut i: usize = 0;
    while i < n
        invariant
            n == info.len(),
            v == info_view(info@),
            i <= n,
            names@.len() == i,
            par@.len() == i,
            forall|k: int| 0 <= k < i ==> #[trigger] names@[k]@ == v[k].1,
            forall|k: int|
                0 <= k < i ==> match #[trigger] par@[k] {
                    Some(j) => parent_index(v, k) == Some(j as int) && j < n,
                    None => parent_index(v, k) is None,
                },
        decreases n - i,
    {
        names.push(chars_of(info[i].1.0.as_str()));
        let p = find_handle(info, &info[i].1.1);
        proof {
            lemma_find_from_bound(v, v[i as int].2, 0);
        }
        par.push(p);
        i = i + 1;
    }
    let mut paths: Vec<Option<Vec<char>>> = Vec::new();
    let mut i: usize = 0;
    while i < n
        invariant
            i <= n,
            paths@.len() == i,
            forall|k: int| 0 <= k < i ==> paths@[k] is None,
        decreases n - i,
    {
        paths.push(None);
        i = i + 1;
    }
    let ghost mut cuts: Set<int> = Set::empty();
    let mut start: usize = 0;
    while start < n
        invariant
            n == info.len(),
            v == info_view(info@),
            start <= n,
            names@.len() == n,
            par@.len() == n,
            paths@.len() == n,
            forall|k: int| 0 <= k < n ==> #[trigger] names@[k]@ == v[k].1,
            forall|k: int|
                0 <= k < n ==> match #[trigger] par@[k] {
                    Some(j) => parent_index(v, k) == Some(j as int) && j < n,
                    None => parent_index(v, k) is None,
                },
            forall|k: int| 0 <= k < start ==> paths@[k] is Some,
            forall|k: int| 0 <= k < n && paths@[k] is Some ==> partial_ok(v, paths@, k),
            forall|k: int|
                0 <= k < n && paths@[k] is Some && !cuts.contains(k) ==> joined_ok(v, paths@, k),
            forall|c: int| cuts.contains(c) ==> 0 <= c < n && paths@[c] is Some,
            forall|c: int, m: nat|
                cuts.contains(c) && (#[trigger] ancestor(v, c, m)) is Some ==> paths@[ancestor(
                    v,
                    c,
                    m,
                )->0] is Some,
            forall|c1: int, c2: int, m: nat|
                #![trigger cuts.contains(c2), ancestor(v, c1, m)]
                cuts.contains(c1) && cuts.contains(c2) && ancestor(v, c1, m) == Some(c2) ==> c1
                    == c2,
        decreases n - start,
    {
        if paths[start].is_none() {
            // Walk up to the root or an already-computed ancestor.
            let mut chain: Vec<usize> = Vec::new();
            let mut base: Vec<char> = Vec::new();
            let mut cur: usize = start;
            let mut cut = false;
            loop
                invariant_except_break
                    base@.len() == 0,
                    !cut,
                    chain@.len() > 0 ==> chain@[0] == start && par@[chain@.last() as int] == Some(
                        cur,
                    ),
                invariant
                    n == info.len(),
                    v == info_view(info@),
                    names@.len() == n,
                    par@.len() == n,
                    paths@.len() == n,
                    forall|k: int|
                        0 <= k < n ==> match #[trigger] par@[k] {
                            Some(j) => parent_index(v, k) == Some(j as int) && j < n,
                            None => parent_index(v, k) is None,
                        },
                    cur < n,
                    paths@[start as int] is None,
                    chain@.no_duplicates(),
                    forall|t: int| 0 <= t < chain@.len() ==> chain@[t] < n,
                    forall|t: int| 0 <= t < chain@.len() ==> paths@[chain@[t] as int] is None,
                    forall|t: int|
                        0 <= t < chain@.len() - 1 ==> par@[chain@[t] as int] == Some(
                            chain@[t + 1],
                        ),
                    chain@.len() == 0 ==> cur == start,
                    chain@.len() > 0 ==> chain@[0] == start,
                ensures
                    chain@.len() > 0,
                    chain@[0] == start,
                    chain@.no_duplicates(),
                    forall|t: int| 0 <= t < chain@.len() ==> chain@[t] < n,
                    forall|t: int| 0 <= t < chain@.len() ==> paths@[chain@[t] as int] is None,
                    forall|t: int|
                        0 <= t < chain@.len() - 1 ==> par@[chain@[t] as int] == Some(
                            chain@[t + 1],
                        ),
                    cut ==> base@.len() == 0 && exists|m: int|
                        0 <= m < chain@.len() && par@[chain@.last() as int] == Some(chain@[m]),
                    !cut ==> match par@[chain@.last() as int] {
                        None => base@.len() == 0,
                        Some(c) => paths@[c as int] is Some && base@ == paths@[c as int]->0@,
                    },
                decreases n - chain@.len(),
            {
                proof {
                    lemma_distinct_bounded(chain@, n);
                }
                match &paths[cur] {
                    Some(p) => {
                        base = p.clone();
                        assert(base@ =~= p@);
                        break ;
                    },
                    None => {},
                }
                let mut on_chain = false;
                let mut t: usize = 0;
                while t < chain.len()
                    invariant
                        t <= chain@.len(),
                        on_chain ==> exists|m: int| 0 <= m < chain@.len() && chain@[m] == cur,
                        !on_chain ==> forall|m: int| 0 <= m < t ==> chain@[m] != cur,
                    decreases chain@.len() - t,
                {
                    if chain[t] == cur {
                        on_chain = true;
                    }
                    t = t + 1;
                }
                if on_chain {
                    // A parent loop: cut it here.
                    cut = true;
                    break ;
                }
                chain.push(cur);
                proof {
                    assert(chain@.no_duplicates()) by {
                        assert forall|a: int, b: int|
                            0 <= a < chain@.len() && 0 <= b < chain@.len() && a != b implies chain@[a]
                            != chain@[b] by {
                            if a < chain@.len() - 1 && b < chain@.len() - 1 {
                                assert(chain@.drop_last()[a] == chain@[a]);
                            }
                        }
                    }
                    lemma_distinct_bounded(chain@, n);
                }
                match par[cur] {
                    Some(j) => {
                        cur = j;
                    },
                    None => {
                        break ;
                    },
                }
            }
            let ghost top = chain@.last();
            let ghost cuts_before = cuts;
            let ghost m0: int = if cut {
                choose|m: int| 0 <= m < chain@.len() && par@[top as int] == Some(chain@[m])
            } else {
                0
            };
            proof {
                if cut {
                    let m = m0;
                    let d = (chain@.len() - 1 - m) as nat;
                    assert forall|t: int| 0 <= t < chain@.len() - 1 implies parent_index(
                        v,
                        chain@[t] as int,
                    ) == Some(chain@[t + 1] as int) by {
                        assert(par@[chain@[t] as int] == Some(chain@[t + 1]));
                    }
                    assert(par@[top as int] == Some(chain@[m]));
                    lemma_chain_ancestor(v, chain@, m, d);
                    assert(ancestor(v, top as int, d + 1) == ancestor(v, chain@[m] as int, d));
                    assert(on_parent_cycle(v, top as int));
                    assert forall|mm: nat| in_chain_from(chain@, m0, #[trigger] ancestor(v, top as int, mm)) by {
                        lemma_cycle_ancestors(v, chain@, m0, chain@.len() - 1, mm);
                    }
                }
            }
            // Unwind: assign paths from the top of the chain down to `start`.
            let mut t = chain.len();
            while t > 0
                invariant
                    n == info.len(),
                    v == info_view(info@),
                    names@.len() == n,
                    par@.len() == n,
                    paths@.len() == n,
                    forall|k: int| 0 <= k < n ==> #[trigger] names@[k]@ == v[k].1,
                    forall|k: int|
                        0 <= k < n ==> match #[trigger] par@[k] {
                            Some(j) => parent_index(v, k) == Some(j as int) && j < n,
                            None => parent_index(v, k) is None,
                        },
                    chain@.len() > 0,
                    chain@[0] == start,
                    top == chain@.last(),
                    chain@.no_duplicates(),
                    t <= chain@.len(),
                    forall|s: int| 0 <= s < chain@.len() ==> chain@[s] < n,
                    forall|s: int| 0 <= s < t ==> paths@[chain@[s] as int] is None,
                    forall|s: int|
                        0 <= s < chain@.len() - 1 ==> par@[chain@[s] as int] == Some(
                            chain@[s + 1],
                        ),
                    cut ==> on_parent_cycle(v, top as int),
                    t == chain@.len() ==> (cut ==> base@.len() == 0) && (!cut ==> match par@[top as int] {
                        None => base@.len() == 0,
                        Some(c) => paths@[c as int] is Some && base@ == paths@[c as int]->0@ && c
                            != top,
                    }),
                    t < chain@.len() ==> paths@[chain@[t as int] as int] is Some && base@
                        == paths@[chain@[t as int] as int]->0@,
                    forall|k: int| 0 <= k < start ==> paths@[k] is Some,
                    forall|k: int| 0 <= k < n && paths@[k] is Some ==> partial_ok(v, paths@, k),
                    forall|s: int| t <= s < chain@.len() ==> paths@[chain@[s] as int] is Some,
                    cut ==> 0 <= m0 < chain@.len() && par@[top as int] == Some(chain@[m0]),
                    cut ==> forall|mm: nat| in_chain_from(chain@, m0, #[trigger] ancestor(v, top as int, mm)),
                    cuts == if cut && t < chain@.len() {
                        cuts_before.insert(top as int)
                    } else {
                        cuts_before
                    },
                    forall|k: int|
                        0 <= k < n && paths@[k] is Some && !cuts.contains(k) ==> joined_ok(
                            v,
                            paths@,
                            k,
                        ),
                    forall|c: int| cuts.contains(c) ==> 0 <= c < n && paths@[c] is Some,
                    forall|c: int, m: nat|
                        cuts_before.contains(c) && (#[trigger] ancestor(v, c, m)) is Some ==> paths@[ancestor(
                            v,
                            c,
                            m,
                        )->0] is Some,
                    forall|c1: int, c2: int, m: nat|
                        #![trigger cuts.contains(c2), ancestor(v, c1, m)]
                        cuts.contains(c1) && cuts.contains(c2) && ancestor(v, c1, m) == Some(c2)
                            ==> c1 == c2,
                decreases t,
            {
                t = t - 1;
                let h = chain[t];
                let ghost old_paths = paths@;
                let sep = vec!['/'];
                let next = if base.len() == 0 {
                    names[h].clone()
                } else {
                    concat_chars(&concat_chars(&base, &sep), &names[h])
                };
                assert(next@ == join_path(base@, v[h as int].1));
                let stored = next.clone();
                assert(stored@ =~= next@);
                paths.set(h, Some(stored));
                base = next;
                proof {
                    assert forall|k: int| 0 <= k < n && paths@[k] is Some implies partial_ok(
                        v,
                        paths@,
                        k,
                    ) by {
                        lemma_parent_in_range(v, k);
                        if k != h {
                            assert(old_paths[k] is Some);
                            assert(partial_ok(v, old_paths, k));
                            assert(paths@[k] == old_paths[k]);
                            match parent_index(v, k) {
                                Some(j) => {
                                    if old_paths[j] is Some {
                                        assert(j != h);
                                        assert(paths@[j] == old_paths[j]);
                                    }
                                },
                                None => {},
                            }
                        } else if t + 1 < chain@.len() {
                            let c = chain@[t + 1];
                            assert(par@[h as int] == Some(c));
                            assert(c != h);
                            assert(paths@[c as int] == old_paths[c as int]);
                        } else {
                            assert(h == top);
                            if !cut {
                                match par@[top as int] {
                                    Some(c) => {
                                        assert(paths@[c as int] == old_paths[c as int]);
                                    },
                                    None => {},
                                }
                            }
                        }
                    }
                    assert forall|s: int| 0 <= s < t implies paths@[chain@[s] as int] is None by {
                        assert(chain@[s] != h);
                    }
                    let ghost old_cuts = cuts;
                    if cut && h == top {
                        assert(t + 1 == chain@.len());
                        assert(!cuts_before.contains(top as int));
                        assert forall|c1: int, c2: int, m: nat|
                            #![trigger cuts_before.insert(top as int).contains(c2), ancestor(v, c1, m)]
                            cuts_before.insert(top as int).contains(c1) && cuts_before.insert(
                                top as int,
                            ).contains(c2) && ancestor(v, c1, m) == Some(c2) implies c1 == c2 by {
                            if c1 == top && c2 != top {
                                assert(in_chain_from(chain@, m0, ancestor(v, top as int, m)));
                                let s = choose|s: int|
                                    m0 <= s < chain@.len() && ancestor(v, top as int, m) == Some(
                                        chain@[s] as int,
                                    );
                                assert(old_paths[c2] is Some);
                                if s < t {
                                    assert(old_paths[chain@[s] as int] is None);
                                }
                            } else if c1 != top && c2 == top {
                                assert(old_paths[top as int] is None);
                                assert(ancestor(v, c1, m) is Some);
                            } else if c1 != top && c2 != top {
                                assert(old_cuts.contains(c2));
                                assert(ancestor(v, c1, m) == Some(c2));
                            }
                        }
                        cuts = cuts_before.insert(top as int);
                    }
                    assert forall|k: int|
                        0 <= k < n && paths@[k] is Some && !cuts.contains(k) implies joined_ok(
                        v,
                        paths@,
                        k,
                    ) by {
                        if k != h {
                            assert(old_paths[k] is Some);
                            assert(!old_cuts.contains(k));
                            assert(joined_ok(v, old_paths, k));
                            lemma_parent_in_range(v, k);
                            match parent_index(v, k) {
                                Some(j) => {
                                    assert(old_paths[j] is Some);
                                    assert(j != h);
                                    assert(paths@[j] == old_paths[j]);
                                },
                                None => {},
                            }
                        } else if t + 1 < chain@.len() {
                            let c = chain@[t + 1];
                            assert(par@[h as int] == Some(c));
                            assert(c != h);
                            assert(paths@[c as int] == old_paths[c as int]);
                        } else {
                            assert(h == top);
                            assert(!cut);
                            match par@[top as int] {
                                Some(c) => {
                                    assert(paths@[c as int] == old_paths[c as int]);
                                },
                                None => {},
                            }
                        }
                    }
                    assert forall|c: int, m: nat|
                        cuts_before.contains(c) && (#[trigger] ancestor(v, c, m)) is Some implies paths@[ancestor(
                            v,
                            c,
                            m,
                        )->0] is Some by {
                        assert(cuts.contains(c) || old_cuts.contains(c));
                        lemma_ancestor_in_range(v, c, m);
                        assert(old_paths[ancestor(v, c, m)->0] is Some);
                        if ancestor(v, c, m)->0 != h as int {
                        }
                    }
                    assert forall|ss: int| t <= ss < chain@.len() implies paths@[chain@[ss] as int] is Some by {
                        if ss > t {
                            assert(old_paths[chain@[ss] as int] is Some);
                        }
                    }
                }
            }
            proof {
                if cut {
                    assert forall|m: nat| (#[trigger] ancestor(v, top as int, m)) is Some implies paths@[ancestor(
                        v,
                        top as int,
                        m,
                    )->0] is Some by {
                        assert(in_chain_from(chain@, m0, ancestor(v, top as int, m)));
                    }
                }
                assert forall|c: int, m: nat|
                    cuts.contains(c) && (#[trigger] ancestor(v, c, m)) is Some implies paths@[ancestor(
                        v,
                        c,
                        m,
                    )->0] is Some by {
                    if c != top as int {
                        assert(cuts_before.contains(c));
                    }
                }
            }
            assert(paths@[start as int] is Some);
        }
        start = start + 1;
    }
    let mut out: Vec<String> = Vec::new();
    let mut k: usize = 0;
    while k < n
        invariant
            n == info.len(),
            v == info_view(info@),
            paths@.len() == n,
            k <= n,
            out@.len() == k,
            forall|m: int| 0 <= m < n ==> paths@[m] is Some,
            forall|m: int| 0 <= m < k ==> #[trigger] out@[m]@ == paths@[m]->0@,
        decreases n - k,
    {
        match &paths[k] {
            Some(p) => out.push(string_of(p.as_slice())),
            None => out.push(String::new()),
        }
        k = k + 1;
    }
    let ghost res = out@.map_values(|s: String| s@);
    assert forall|i: int| 0 <= i < n && is_cut(v, res, i) implies cuts.contains(i) by {
        if !cuts.contains(i) {
            assert(joined_ok(v, paths@, i));
            lemma_parent_in_range(v, i);
        }
    }
    assert forall|i: int, k: int, m: nat|
        #![trigger ancestor(v, i, m), is_cut(v, res, k)]
        0 <= i < v.len() && 0 <= k < v.len() && is_cut(v, res, i) && is_cut(v, res, k) && ancestor(
            v,
            i,
            m,
        ) == Some(k) implies i == k by {
        assert(cuts.contains(i));
        assert(cuts.contains(k));
    }
    assert forall|i: int| 0 <= i < v.len() implies path_consistent(v, res, i) by {
        assert(partial_ok(v, paths@, i));
        match parent_index(v, i) {
            Some(j) => {
                lemma_parent_in_range(v, i);
            },
            None => {},
        }
    }
    out
}

proof fn lemma_find_from_bound(info: Seq<(Seq<char>, Seq<char>, Seq<char>)>, h: Seq<char>, k: nat)
    ensures
        find_handle_from(info, h, k) matches Some(j) ==> k <= j < info.len() && info[j].0 == h,
    decreases info.len() - k,
{
    if k < info.len() && info[k as int].0 != h {
        lemma_find_from_bound(info, h, k + 1);
    }
}

proof fn lemma_parent_in_range(info: Seq<(Seq<char>, Seq<char>, Seq<char>)>, i: int)
    ensures
        parent_index(info, i) matches Some(j) ==> 0 <= j < info.len(),
{
    lemma_find_from_bound(info, info[i].2, 0);
}

/// Following parents `c` times from entry `i` reaches an entry whose path was
/// cut.
pub open spec fn cut_at(
    info: Seq<(Seq<char>, Seq<char>, Seq<char>)>,
    paths: Seq<Seq<char>>,
    i: int,
    c: nat,
) -> bool {
    match ancestor(info, i, c) {
        Some(a) => is_cut(info, paths, a),
        None => false,
    }
}

proof fn lemma_ancestor_next(info: Seq<(Seq<char>, Seq<char>, Seq<char>)>, i: int, m: nat)
    ensures
        ancestor(info, i, m + 1) == match ancestor(info, i, m) {
            Some(a) => parent_index(info, a),
            None => None,
        },
    decreases m,
{
    match parent_index(info, i) {
        Some(j) => {
            assert(ancestor(info, i, m + 1) == ancestor(info, j, m));
            if m > 0 {
                lemma_ancestor_next(info, j, (m - 1) as nat);
            } else {
                assert(ancestor(info, j, 0) == Some(j));
            }
        },
        None => {
            if m > 0 {
                assert(ancestor(info, i, m) is None);
            }
        },
    }
}

proof fn lemma_ancestor_none_stays(
    info: Seq<(Seq<char>, Seq<char>, Seq<char>)>,
    i: int,
    c: nat,
    k: nat,
)
    requires
        c <= k,
        ancestor(info, i, c) is None,
    ensures
        ancestor(info, i, k) is None,
    decreases k - c,
{
    if c < k {
        lemma_ancestor_next(info, i, c);
        lemma_ancestor_none_stays(info, i, c + 1, k);
    }
}

proof fn lemma_uncut_lengths(
    info: Seq<(Seq<char>, Seq<char>, Seq<char>)>,
    paths: Seq<Seq<char>>,
    i: int,
    c0: nat,
    c: nat,
    k: nat,
)
    requires
        paths_consistent(info, paths),
        0 <= i < info.len(),
        c0 <= c <= k,
        ancestor(info, i, k) is Some,
        forall|c2: nat| c2 < k ==> !#[trigger] cut_at(info, paths, i, c2),
    ensures
        ancestor(info, i, c0) is Some,
        ancestor(info, i, c) matches Some(a) && 0 <= a < info.len() && paths[ancestor(
            info,
            i,
            c0,
        )->0].len() >= paths[a].len(),
    decreases c - c0,
{
    if ancestor(info, i, c0) is None {
        lemma_ancestor_none_stays(info, i, c0, k);
    }
    if ancestor(info, i, c) is None {
        lemma_ancestor_none_stays(info, i, c, k);
    }
    lemma_ancestor_in_range(info, i, c);
    if c > c0 {
        lemma_uncut_lengths(info, paths, i, c0, (c - 1) as nat, k);
        let b = ancestor(info, i, (c - 1) as nat)->0;
        lemma_ancestor_next(info, i, (c - 1) as nat);
        let a = ancestor(info, i, c)->0;
        assert(parent_index(info, b) == Some(a));
        assert(!cut_at(info, paths, i, (c - 1) as nat));
        assert(path_consistent(info, paths, b));
        assert(paths[b] == join_path(paths[a], info[b].1));
    }
}

/// A loop of parent links is cut at some entry unless every name on it is
/// empty: following parents from an entry of the loop back to itself passes
/// an entry whose path is its name alone, not its parent's path joined with
/// its name. (With `paths_consistent`, that entry is the only cut on the loop.)
pub proof fn lemma_cycle_is_cut(
    info: Seq<(Seq<char>, Seq<char>, Seq<char>)>,
    paths: Seq<Seq<char>>,
    i: int,
    k: nat,
    m: nat,
)
    requires
        paths_consistent(info, paths),
        0 <= i < info.len(),
        k >= 1,
        ancestor(info, i, k) == Some(i),
        m < k,
        ancestor(info, i, m) matches Some(j) && info[j].1.len() > 0,
    ensures
        exists|c: nat| c < k && #[trigger] cut_at(info, paths, i, c),
{
    if forall|c2: nat| c2 < k ==> !#[trigger] cut_at(info, paths, i, c2) {
        lemma_uncut_lengths(info, paths, i, 0, m, k);
        lemma_uncut_lengths(info, paths, i, m + 1, k, k);
        lemma_uncut_lengths(info, paths, i, 0, m + 1, k);
        let j = ancestor(info, i, m)->0;
        lemma_ancestor_next(info, i, m);
        let a = ancestor(info, i, m + 1)->0;
        assert(parent_index(info, j) == Some(a));
        assert(!cut_at(info, paths, i, m));
        assert(paths[j] == join_path(paths[a], info[j].1));
        assert(paths[j].len() > paths[a].len());
        assert(ancestor(info, i, 0) == Some(i));
        assert(false);
    }
}

} // verus!
