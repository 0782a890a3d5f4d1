//! Lexicographic order on texts and a stable sort by it.

use vstd::prelude::*;

verus! {

/// `a` comes no later than `b` in lexicographic order of characters (the order
/// of `str`'s `Ord`, which compares UTF-8 bytes and so code points).
pub open spec fn lex_le(a: Seq<char>, b: Seq<char>) -> bool
    decreases a.len(),
{
    if a.len() == 0 {
        true
    } else if b.len() == 0 {
        false
    } else if a[0] != b[0] {
        (a[0] as int) < (b[0] as int)
    } else {
        lex_le(a.drop_first(), b.drop_first())
    }
}

/// `a` and `b` agree before position `i`, and there `a` holds the character
/// with the smaller code point.
pub open spec fn smaller_at(a: Seq<char>, b: Seq<char>, i: int) -> bool {
    &&& 0 <= i < a.len()
    &&& i < b.len()
    &&& a.take(i) == b.take(i)
    &&& (a[i] as int) < (b[i] as int)
}

/// The order of texts is that of `str`: `a` comes no later than `b` exactly
/// when `a` is a prefix of `b`, or at the first position where the two differ
/// `a` has the character with the smaller code point.
pub proof fn lemma_lex_le_by_code_points(a: Seq<char>, b: Seq<char>)
    ensures
        lex_le(a, b) <==> (a.len() <= b.len() && b.take(a.len() as int) == a) || exists|i: int|
            #[trigger] smaller_at(a, b, i),
    decreases a.len(),
{
    if a.len() == 0 {
        assert(b.take(0) =~= a);
    } else if b.len() == 0 {
        assert(!exists|i: int| #[trigger] smaller_at(a, b, i));
    } else if a[0] != b[0] {
        assert(b.len() >= a.len() ==> b.take(a.len() as int)[0] == b[0]);
        assert forall|i: int| #[trigger] smaller_at(a, b, i) implies i == 0 by {
            if i > 0 {
                assert(a.take(i)[0] == b.take(i)[0]);
            }
        }
        if (a[0] as int) < (b[0] as int) {
            assert(a.take(0) =~= b.take(0));
            assert(smaller_at(a, b, 0));
        }
    } else {
        let a1 = a.drop_first();
        let b1 = b.drop_first();
        lemma_lex_le_by_code_points(a1, b1);
        if a.len() <= b.len() {
            assert(b.take(a.len() as int) == a <==> b1.take(a1.len() as int) == a1) by {
                if b1.take(a1.len() as int) == a1 {
                    assert forall|k: int| 0 <= k < a.len() implies b.take(a.len() as int)[k]
                        == a[k] by {
                        if k > 0 {
                            assert(b1.take(a1.len() as int)[k - 1] == a1[k - 1]);
                        }
                    }
                    assert(b.take(a.len() as int) =~= a);
                }
                if b.take(a.len() as int) == a {
                    assert(b1.take(a1.len() as int) =~= a1) by {
                        assert forall|k: int| 0 <= k < a1.len() implies b1.take(a1.len() as int)[k]
                            == a1[k] by {
                            assert(b.take(a.len() as int)[k + 1] == a[k + 1]);
                        }
                    }
                }
            }
        }
        if exists|i: int| #[trigger] smaller_at(a, b, i) {
            let i = choose|i: int| #[trigger] smaller_at(a, b, i);
            assert(i != 0);
            assert(a1.take(i - 1) =~= b1.take(i - 1)) by {
                assert forall|k: int| 0 <= k < i - 1 implies a1[k] == b1[k] by {
                    assert(a.take(i)[k + 1] == b.take(i)[k + 1]);
                }
            }
            assert(smaller_at(a1, b1, i - 1));
        }
        if exists|i: int| #[trigger] smaller_at(a1, b1, i) {
            let i = choose|i: int| #[trigger] smaller_at(a1, b1, i);
            assert(a.take(i + 1) =~= b.take(i + 1)) by {
                assert forall|k: int| 0 <= k < i + 1 implies a[k] == b[k] by {
                    if k > 0 {
                        assert(a1.take(i)[k - 1] == b1.take(i)[k - 1]);
                    }
                }
            }
            assert(smaller_at(a, b, i + 1));
        }
    }
}

/// `lex_le` is reflexive.
pub proof fn lemma_lex_le_refl(a: Seq<char>)
    ensures
        lex_le(a, a),
    decreases a.len(),
{
    if a.len() > 0 {
        lemma_lex_le_refl(a.drop_first());
    }
}

/// `lex_le` is total.
pub proof fn lemma_lex_le_total(a: Seq<char>, b: Seq<char>)
    ensures
        lex_le(a, b) || lex_le(b, a),
    decreases a.len(),
{
    if a.len() > 0 && b.len() > 0 && a[0] == b[0] {
        lemma_lex_le_total(a.drop_first(), b.drop_first());
    } else if a.len() > 0 && b.len() > 0 {
        assert((a[0] as int) != (b[0] as int));
    }
}

/// `lex_le` is transitive.
pub proof fn lemma_lex_le_trans(a: Seq<char>, b: Seq<char>, c: Seq<char>)
    requires
        lex_le(a, b),
        lex_le(b, c),
    ensures
        lex_le(a, c),
    decreases a.len(),
{
    if a.len() > 0 && b.len() > 0 && c.len() > 0 && a[0] == b[0] && b[0] == c[0] {
        lemma_lex_le_trans(a.drop_first(), b.drop_first(), c.drop_first());
    }
}

/// `lex_le` is antisymmetric.
pub proof fn lemma_lex_le_antisym(a: Seq<char>, b: Seq<char>)
    requires
        lex_le(a, b),
        lex_le(b, a),
    ensures
        a == b,
    decreases a.len(),
{
    if a.len() > 0 && b.len() > 0 {
        lemma_lex_le_antisym(a.drop_first(), b.drop_first());
        assert(a =~= seq![a[0]] + a.drop_first());
        assert(b =~= seq![b[0]] + b.drop_first());
    } else if a.len() == 0 && b.len() == 0 {
        assert(a =~= b);
    }
}

/// Whether `a` comes no later than `b` in lexicographic order.
pub fn lex_le_exec(a: &Vec<char>, b: &Vec<char>) -> (r: bool)
    ensures
        r == lex_le(a@, b@),
{
    let mut i: usize = 0;
    assert(a@.skip(0) =~= a@);
    assert(b@.skip(0) =~= b@);
    while i < a.len() && i < b.len() && a[i] == b[i]
        invariant
            i <= a.len(),
            i <= b.len(),
            lex_le(a@, b@) == lex_le(a@.skip(i as int), b@.skip(i as int)),
        decreases a.len() - i,
    {
        assert(a@.skip(i as int).drop_first() =~= a@.skip(i + 1));
        assert(b@.skip(i as int).drop_first() =~= b@.skip(i + 1));
        i = i + 1;
    }
    if i == a.len() {
        true
    } else if i == b.len() {
        false
    } else {
        assert(a@.skip(i as int)[0] == a@[i as int]);
        assert(b@.skip(i as int)[0] == b@[i as int]);
        a[i] < b[i]
    }
}

/// `order` lists `0..n`, each once.
pub open spec fn is_permutation(order: Seq<usize>, n: nat) -> bool {
    &&& order.len() == n
    &&& order.no_duplicates()
    &&& forall|k: int| 0 <= k < order.len() ==> order[k] < n
}

/// `order` arranges `keys` in lexicographic order, keeping equal keys in the order
/// they come in.
pub open spec fn stably_sorted(keys: Seq<Seq<char>>, order: Seq<usize>) -> bool {
    &&& forall|a: int, b: int|
        0 <= a < b < order.len() ==> lex_le(keys[order[a] as int], keys[order[b] as int])
    &&& forall|a: int, b: int|
        0 <= a < b < order.len() && keys[order[a] as int] == keys[order[b] as int] ==> order[a]
            < order[b]
}

/// The order in which a stable sort by `keys` arranges their indices.
pub fn stable_order(keys: &Vec<Vec<char>>) -> (order: Vec<usize>)
    ensures
        is_permutation(order@, keys@.len() as nat),
        stably_sorted(keys@.map_values(|k: Vec<char>| k@), order@),
{
    let ghost kv = keys@.map_values(|k: Vec<char>| k@);
    let mut order: Vec<usize> = Vec::new();
    let mut i: usize = 0;
    while i < keys.len()
        invariant
            i <= keys.len(),
            kv == keys@.map_values(|k: Vec<char>| k@),
            is_permutation(order@, i as nat),
            stably_sorted(kv, order@),
        decreases keys.len() - i,
    {
        let mut pos = order.len();
        loop
            invariant
                i < keys.len(),
                kv == keys@.map_values(|k: Vec<char>| k@),
                is_permutation(order@, i as nat),
                pos <= order@.len(),
                forall|q: int| pos <= q < order@.len() ==> !lex_le(kv[order@[q] as int], kv[i as int]),
            ensures
                pos <= order@.len(),
                forall|q: int| pos <= q < order@.len() ==> !lex_le(kv[order@[q] as int], kv[i as int]),
                pos > 0 ==> lex_le(kv[order@[pos - 1] as int], kv[i as int]),
            decreases pos,
        {
            if pos == 0 {
                break ;
            }
            if lex_le_exec(&keys[order[pos - 1]], &keys[i]) {
                break ;
            }
            pos = pos - 1;
        }
        let ghost old_order = order@;
        order.insert(pos, i);
        proof {
            assert(order@ =~= old_order.insert(pos as int, i));
            assert forall|q: int| pos <= q < old_order.len() implies lex_le(
                kv[i as int],
                kv[old_order[q] as int],
            ) by {
                lemma_lex_le_total(kv[i as int], kv[old_order[q] as int]);
            }
            assert forall|a: int| 0 <= a < pos implies lex_le(
                kv[old_order[a] as int],
                kv[i as int],
            ) by {
                if a < pos - 1 {
                    lemma_lex_le_trans(
                        kv[old_order[a] as int],
                        kv[old_order[pos - 1] as int],
                        kv[i as int],
                    );
                }
            }
            assert forall|a: int, b: int| 0 <= a < b < order@.len() implies lex_le(
                kv[order@[a] as int],
                kv[order@[b] as int],
            ) by {
                if b == pos {
                } else if a == pos {
                } else if a < pos && b > pos {
                    assert(order@[b] == old_order[b - 1]);
                    lemma_lex_le_trans(
                        kv[order@[a] as int],
                        kv[i as int],
                        kv[order@[b] as int],
                    );
                }
            }
            assert forall|a: int, b: int|
                0 <= a < b < order@.len() && kv[order@[a] as int] == kv[order@[b] as int] implies order@[a]
                < order@[b] by {
                if a == pos {
                    lemma_lex_le_refl(kv[i as int]);
                }
            }
            assert(order@.no_duplicates()) by {
                assert forall|a: int, b: int|
                    0 <= a < order@.len() && 0 <= b < order@.len() && a != b implies order@[a]
                    != order@[b] by {
                    if a != pos && b != pos {
                    }
                }
            }
        }
        i = i + 1;
    }
    order
}

/// The sum of `w` over the indices listed in `order`, in order.
pub open spec fn sum_over(order: Seq<usize>, w: spec_fn(int) -> int) -> int
    decreases order.len(),
{
    if order.len() == 0 {
        0
    } else {
        sum_over(order.drop_last(), w) + w(order.last() as int)
    }
}

/// The sum of `w` over `0..n`.
pub open spec fn sum_below(n: nat, w: spec_fn(int) -> int) -> int
    decreases n,
{
    if n == 0 {
        0
    } else {
        sum_below((n - 1) as nat, w) + w(n - 1)
    }
}

proof fn lemma_sum_over_remove(s: Seq<usize>, p: int, w: spec_fn(int) -> int)
    requires
        0 <= p < s.len(),
    ensures
        sum_over(s, w) == sum_over(s.remove(p), w) + w(s[p] as int),
    decreases s.len(),
{
    if p == s.len() - 1 {
        assert(s.remove(p) =~= s.drop_last());
    } else {
        lemma_sum_over_remove(s.drop_last(), p, w);
        assert(s.remove(p).drop_last() =~= s.drop_last().remove(p));
        assert(s.remove(p).last() == s.last());
    }
}

/// A permutation of `0..n` lists every index below `n`.
pub proof fn lemma_permutation_onto(order: Seq<usize>, n: nat, v: int) -> (p: int)
    requires
        is_permutation(order, n),
        0 <= v < n,
    ensures
        0 <= p < order.len(),
        order[p] == v,
{
    if forall|k: int| 0 <= k < order.len() ==> order[k] != v {
        let s = order.map_values(|x: usize| x as int);
        assert(s.no_duplicates()) by {
            assert forall|a: int, b: int| 0 <= a < s.len() && 0 <= b < s.len() && a != b implies s[a]
                != s[b] by {
                assert(order[a] != order[b]);
            }
        }
        s.unique_seq_to_set();
        let below = vstd::set_lib::set_int_range(0, n as int).remove(v);
        vstd::set_lib::lemma_int_range(0, n as int);
        assert(below.len() == n - 1);
        assert(s.to_set().subset_of(below)) by {
            assert forall|x: int| s.to_set().contains(x) implies below.contains(x) by {
                let k = choose|k: int| 0 <= k < s.len() && s[k] == x;
                assert(order[k] < n && order[k] != v);
            }
        }
        vstd::set_lib::lemma_len_subset(s.to_set(), below);
        assert(false);
    }
    choose|k: int| 0 <= k < order.len() && order[k] == v
}

/// Summing over a permutation of `0..n` gives the sum over `0..n`.
pub proof fn lemma_permutation_sum(order: Seq<usize>, n: nat, w: spec_fn(int) -> int)
    requires
        is_permutation(order, n),
    ensures
        sum_over(order, w) == sum_below(n, w),
    decreases n,
{
    if n > 0 {
        let p = lemma_permutation_onto(order, n, n - 1);
        let rest = order.remove(p);
        assert(is_permutation(rest, (n - 1) as nat)) by {
            assert forall|k: int| 0 <= k < rest.len() implies rest[k] < n - 1 by {
                if k < p {
                    assert(rest[k] == order[k]);
                } else {
                    assert(rest[k] == order[k + 1]);
                }
            }
            assert forall|a: int, b: int|
                0 <= a < rest.len() && 0 <= b < rest.len() && a != b implies rest[a] != rest[b] by {
                let oa = if a < p { a } else { a + 1 };
                let ob = if b < p { b } else { b + 1 };
                assert(rest[a] == order[oa]);
                assert(rest[b] == order[ob]);
            }
        }
        lemma_sum_over_remove(order, p, w);
        lemma_permutation_sum(rest, (n - 1) as nat, w);
    }
}

} // verus!
