//! Lexicographic order on text, as `str`'s `Ord` compares it, and the two
//! orderings built on it: a stable sort by key and a sorted set of pairs.

use vstd::prelude::*;

verus! {

/// `a` sorts strictly before `b`: UTF-8 byte order, which is code-point order.
pub open spec fn text_lt(a: Seq<char>, b: Seq<char>) -> bool
    decreases a.len(),
{
    if a.len() == 0 {
        b.len() > 0
    } else if b.len() == 0 {
        false
    } else if a[0] != b[0] {
        a[0] < b[0]
    } else {
        text_lt(a.drop_first(), b.drop_first())
    }
}

/// Whether `a` sorts strictly before `b`.
pub fn text_less(a: &Vec<char>, b: &Vec<char>) -> (r: bool)
    ensures
        r == text_lt(a@, b@),
{
    let mut i: usize = 0;
    assert(a@.skip(0) == a@);
    assert(b@.skip(0) == b@);
    while i < a.len() && i < b.len()
        invariant
            i <= a@.len(),
            i <= b@.len(),
            text_lt(a@, b@) == text_lt(a@.skip(i as int), b@.skip(i as int)),
        decreases a.len() - i,
    {
        if a[i] != b[i] {
            return a[i] < b[i];
        }
        assert(a@.skip(i as int).drop_first() == a@.skip(i + 1));
        assert(b@.skip(i as int).drop_first() == b@.skip(i + 1));
        i = i + 1;
    }
    i == a.len() && i < b.len()
}

/// Whether `a` and `b` hold the same characters.
pub fn text_equal(a: &Vec<char>, b: &Vec<char>) -> (r: bool)
    ensures
        r == (a@ == b@),
{
    if a.len() != b.len() {
        return false;
    }
    let mut i: usize = 0;
    while i < a.len()
        invariant
            i <= a@.len(),
            a@.len() == b@.len(),
            a@.subrange(0, i as int) == b@.subrange(0, i as int),
        decreases a.len() - i,
    {
        if a[i] != b[i] {
            return false;
        }
        assert(a@.subrange(0, i + 1) == a@.subrange(0, i as int).push(a@[i as int]));
        assert(b@.subrange(0, i + 1) == b@.subrange(0, i as int).push(b@[i as int]));
        i = i + 1;
    }
    assert(a@ == a@.subrange(0, a@.len() as int));
    assert(b@ == b@.subrange(0, b@.len() as int));
    true
}

/// Puts position `k` into `s` after every position whose key does not sort
/// after `k`'s.
pub open spec fn insert_by_key(s: Seq<int>, k: int, keys: Seq<Seq<char>>) -> Seq<int>
    decreases s.len(),
{
    if s.len() == 0 {
        seq![k]
    } else if text_lt(keys[k], keys[s[0]]) {
        seq![k] + s
    } else {
        seq![s[0]] + insert_by_key(s.drop_first(), k, keys)
    }
}

/// The positions `0..n` stably sorted by `keys`: equal keys keep their order.
pub open spec fn stable_order(n: nat, keys: Seq<Seq<char>>) -> Seq<int>
    decreases n,
{
    if n == 0 {
        seq![]
    } else {
        insert_by_key(stable_order((n - 1) as nat, keys), n - 1, keys)
    }
}

/// The positions of `keys`, stably sorted by key.
pub fn sort_positions(keys: &Vec<Vec<char>>) -> (p: Vec<usize>)
    ensures
        p@.len() == keys@.len(),
        forall|m: int| 0 <= m < p@.len() ==> (#[trigger] p@[m]) < keys@.len(),
        p@.map_values(|k: usize| k as int) == stable_order(
            keys@.len(),
            keys@.map_values(|v: Vec<char>| v@),
        ),
{
    let ghost kv = keys@.map_values(|v: Vec<char>| v@);
    let mut out: Vec<usize> = Vec::new();
    let mut k: usize = 0;
    while k < keys.len()
        invariant
            k <= keys@.len(),
            out@.len() == k,
            kv == keys@.map_values(|v: Vec<char>| v@),
            out@.map_values(|x: usize| x as int) == stable_order(k as nat, kv),
            forall|m: int| 0 <= m < out@.len() ==> (#[trigger] out@[m]) < k,
        decreases keys.len() - k,
    {
        let ghost s = out@.map_values(|x: usize| x as int);
        assert(s.subrange(0, 0) + s.subrange(0, s.len() as int) =~= s);
        let mut j: usize = 0;
        let mut found = false;
        while j < out.len() && !found
            invariant
                j <= out@.len(),
                s == out@.map_values(|x: usize| x as int),
                k < keys@.len(),
                kv == keys@.map_values(|v: Vec<char>| v@),
                forall|m: int| 0 <= m < out@.len() ==> (#[trigger] out@[m]) < k,
                found ==> j < out@.len() && text_lt(kv[k as int], kv[s[j as int]]),
                insert_by_key(s, k as int, kv) == s.subrange(0, j as int) + insert_by_key(
                    s.subrange(j as int, s.len() as int),
                    k as int,
                    kv,
                ),
            decreases out.len() - j + (if found { 0int } else { 1int }),
        {
            if text_less(&keys[k], &keys[out[j]]) {
                found = true;
            } else {
                let ghost rest = s.subrange(j as int, s.len() as int);
                assert(rest.drop_first() == s.subrange(j + 1, s.len() as int));
                assert(s.subrange(0, j as int) + seq![s[j as int]] == s.subrange(0, j + 1));
                assert(s.subrange(0, j as int) + (seq![s[j as int]] + insert_by_key(rest.drop_first(), k as int, kv))
                    == s.subrange(0, j + 1) + insert_by_key(rest.drop_first(), k as int, kv));
                j = j + 1;
            }
        }
        let ghost rest = s.subrange(j as int, s.len() as int);
        if found {
            assert(rest[0] == s[j as int]);
        } else {
            assert(rest.len() == 0);
        }
        let ghost old_out = out@;
        out.insert(j, k);
        assert forall|m: int| 0 <= m < out@.len() implies (#[trigger] out@[m]) < k + 1 by {
            if m < j {
                assert(out@[m] == old_out[m]);
            } else if m > j {
                assert(out@[m] == old_out[m - 1]);
            }
        }
        assert(out@.map_values(|x: usize| x as int) =~= s.subrange(0, j as int) + insert_by_key(
            rest,
            k as int,
            kv,
        ));
        k = k + 1;
    }
    out
}

/// `p` sorts strictly before `q`: by first component, then by second.
pub open spec fn pair_lt(p: (Seq<char>, Seq<char>), q: (Seq<char>, Seq<char>)) -> bool {
    text_lt(p.0, q.0) || (p.0 == q.0 && text_lt(p.1, q.1))
}

/// Adds `p` to the sorted sequence `s` unless it is already there.
pub open spec fn insert_unique(s: Seq<(Seq<char>, Seq<char>)>, p: (Seq<char>, Seq<char>)) -> Seq<
    (Seq<char>, Seq<char>),
>
    decreases s.len(),
{
    if s.len() == 0 {
        seq![p]
    } else if p == s[0] {
        s
    } else if pair_lt(p, s[0]) {
        seq![p] + s
    } else {
        seq![s[0]] + insert_unique(s.drop_first(), p)
    }
}

/// The distinct pairs of `ps`, in ascending order.
pub open spec fn sorted_unique(ps: Seq<(Seq<char>, Seq<char>)>) -> Seq<(Seq<char>, Seq<char>)>
    decreases ps.len(),
{
    if ps.len() == 0 {
        seq![]
    } else {
        insert_unique(sorted_unique(ps.drop_last()), ps.last())
    }
}

pub open spec fn pair_view(p: (Vec<char>, Vec<char>)) -> (Seq<char>, Seq<char>) {
    (p.0@, p.1@)
}

/// Adds `p` to the sorted, duplicate-free `set`.
pub fn add_unique(set: &mut Vec<(Vec<char>, Vec<char>)>, p: (Vec<char>, Vec<char>))
    ensures
        final(set)@.map_values(|x: (Vec<char>, Vec<char>)| pair_view(x)) == insert_unique(
            old(set)@.map_values(|x: (Vec<char>, Vec<char>)| pair_view(x)),
            pair_view(p),
        ),
{
    let ghost s = set@.map_values(|x: (Vec<char>, Vec<char>)| pair_view(x));
    let ghost pv = pair_view(p);
    assert(s.subrange(0, 0) + s.subrange(0, s.len() as int) =~= s);
    let mut j: usize = 0;
    while j < set.len()
        invariant
            j <= set@.len(),
            set@ == old(set)@,
            s == set@.map_values(|x: (Vec<char>, Vec<char>)| pair_view(x)),
            pv == pair_view(p),
            insert_unique(s, pv) == s.subrange(0, j as int) + insert_unique(
                s.subrange(j as int, s.len() as int),
                pv,
            ),
        decreases set.len() - j,
    {
        let ghost rest = s.subrange(j as int, s.len() as int);
        assert(rest[0] == s[j as int]);
        assert(s[j as int] == pair_view(set@[j as int]));
        let same = text_equal(&p.0, &set[j].0) && text_equal(&p.1, &set[j].1);
        if same {
            assert(pv == rest[0]);
            assert(insert_unique(rest, pv) == rest);
            assert(s.subrange(0, j as int) + rest =~= s);
            return;
        }
        let first_less = text_less(&p.0, &set[j].0);
        let second_less = text_equal(&p.0, &set[j].0) && text_less(&p.1, &set[j].1);
        if first_less || second_less {
            assert(pv != rest[0]);
            assert(pair_lt(pv, rest[0]));
            assert(insert_unique(rest, pv) == seq![pv] + rest);
            set.insert(j, p);
            assert(set@.map_values(|x: (Vec<char>, Vec<char>)| pair_view(x)) =~= s.subrange(
                0,
                j as int,
            ) + insert_unique(rest, pv));
            return;
        }
        assert(rest.drop_first() == s.subrange(j + 1, s.len() as int));
        assert(s.subrange(0, j as int) + seq![s[j as int]] == s.subrange(0, j + 1));
        assert(s.subrange(0, j as int) + (seq![s[j as int]] + insert_unique(rest.drop_first(), pv))
            == s.subrange(0, j + 1) + insert_unique(rest.drop_first(), pv));
        j = j + 1;
    }
    let ghost rest = s.subrange(j as int, s.len() as int);
    assert(rest.len() == 0);
    set.push(p);
    assert(set@.map_values(|x: (Vec<char>, Vec<char>)| pair_view(x)) =~= s.subrange(0, j as int)
        + insert_unique(rest, pv));
}

pub proof fn lemma_text_lt_irreflexive(a: Seq<char>)
    ensures
        !text_lt(a, a),
    decreases a.len(),
{
    if a.len() > 0 {
        lemma_text_lt_irreflexive(a.drop_first());
    }
}

pub proof fn lemma_text_lt_transitive(a: Seq<char>, b: Seq<char>, c: Seq<char>)
    requires
        text_lt(a, b),
        text_lt(b, c),
    ensures
        text_lt(a, c),
    decreases a.len(),
{
    if a.len() > 0 && b.len() > 0 && c.len() > 0 && a[0] == b[0] && b[0] == c[0] {
        lemma_text_lt_transitive(a.drop_first(), b.drop_first(), c.drop_first());
    }
}

pub proof fn lemma_text_lt_total(a: Seq<char>, b: Seq<char>)
    requires
        a != b,
    ensures
        text_lt(a, b) || text_lt(b, a),
    decreases a.len(),
{
    if a.len() == 0 && b.len() == 0 {
        assert(a =~= b);
    }
    if a.len() > 0 && b.len() > 0 && a[0] == b[0] {
        if a.drop_first() == b.drop_first() {
            assert(a == seq![a[0]] + a.drop_first());
            assert(b == seq![b[0]] + b.drop_first());
        }
        lemma_text_lt_total(a.drop_first(), b.drop_first());
    }
}

/// Positions in `s` appear in ascending order of their keys.
pub open spec fn keys_ascending(s: Seq<int>, keys: Seq<Seq<char>>) -> bool {
    forall|i: int, j: int|
        0 <= i < j < s.len() ==> !text_lt(keys[#[trigger] s[j]], keys[#[trigger] s[i]])
}

proof fn lemma_insert_by_key(s: Seq<int>, k: int, keys: Seq<Seq<char>>)
    requires
        keys_ascending(s, keys),
        0 <= k < keys.len(),
        forall|i: int| 0 <= i < s.len() ==> 0 <= #[trigger] s[i] < keys.len(),
    ensures
        keys_ascending(insert_by_key(s, k, keys), keys),
        insert_by_key(s, k, keys).len() == s.len() + 1,
        forall|x: int| #[trigger]
            insert_by_key(s, k, keys).contains(x) <==> (s.contains(x) || x == k),
    decreases s.len(),
{
    let r = insert_by_key(s, k, keys);
    if s.len() == 0 {
        assert(r == seq![k]);
        assert forall|x: int| #[trigger] r.contains(x) <==> (s.contains(x) || x == k) by {
            if x == k {
                assert(r[0] == x);
            }
        }
    } else if text_lt(keys[k], keys[s[0]]) {
        assert(r == seq![k] + s);
        assert forall|i: int, j: int| 0 <= i < j < r.len() implies !text_lt(
            keys[#[trigger] r[j]],
            keys[#[trigger] r[i]],
        ) by {
            if i == 0 {
                assert(r[j] == s[j - 1]);
                if text_lt(keys[s[j - 1]], keys[k]) {
                    lemma_text_lt_transitive(keys[s[j - 1]], keys[k], keys[s[0]]);
                    if j - 1 == 0 {
                        lemma_text_lt_irreflexive(keys[s[0]]);
                    }
                }
            } else {
                assert(r[i] == s[i - 1] && r[j] == s[j - 1]);
            }
        }
        assert forall|x: int| #[trigger] r.contains(x) <==> (s.contains(x) || x == k) by {
            if r.contains(x) {
                let m = choose|m: int| 0 <= m < r.len() && r[m] == x;
                if m > 0 {
                    assert(s[m - 1] == x);
                }
            }
            if s.contains(x) {
                let m = choose|m: int| 0 <= m < s.len() && s[m] == x;
                assert(r[m + 1] == x);
            }
            if x == k {
                assert(r[0] == x);
            }
        }
    } else {
        let rest = s.drop_first();
        assert(keys_ascending(rest, keys)) by {
            assert forall|i: int, j: int| 0 <= i < j < rest.len() implies !text_lt(
                keys[#[trigger] rest[j]],
                keys[#[trigger] rest[i]],
            ) by {
                assert(rest[i] == s[i + 1] && rest[j] == s[j + 1]);
            }
        }
        lemma_insert_by_key(rest, k, keys);
        let t = insert_by_key(rest, k, keys);
        assert(r == seq![s[0]] + t);
        assert forall|i: int, j: int| 0 <= i < j < r.len() implies !text_lt(
            keys[#[trigger] r[j]],
            keys[#[trigger] r[i]],
        ) by {
            assert(r[j] == t[j - 1]);
            if i == 0 {
                assert(t.contains(t[j - 1]));
                if t[j - 1] != k {
                    assert(rest.contains(t[j - 1]));
                    let m = choose|m: int| 0 <= m < rest.len() && rest[m] == t[j - 1];
                    assert(s[m + 1] == t[j - 1]);
                }
            } else {
                assert(r[i] == t[i - 1]);
            }
        }
        assert forall|x: int| #[trigger] r.contains(x) <==> (s.contains(x) || x == k) by {
            if r.contains(x) {
                let m = choose|m: int| 0 <= m < r.len() && r[m] == x;
                if m > 0 {
                    assert(t[m - 1] == x);
                    assert(t.contains(x));
                    if x != k {
                        let q = choose|q: int| 0 <= q < rest.len() && rest[q] == x;
                        assert(s[q + 1] == x);
                    }
                } else {
                    assert(s[0] == x);
                }
            }
            if s.contains(x) {
                let m = choose|m: int| 0 <= m < s.len() && s[m] == x;
                if m == 0 {
                    assert(r[0] == x);
                } else {
                    assert(rest[m - 1] == x);
                    assert(rest.contains(x));
                    assert(t.contains(x));
                    let q = choose|q: int| 0 <= q < t.len() && t[q] == x;
                    assert(r[q + 1] == x);
                }
            }
            if x == k {
                assert(t.contains(x));
                let q = choose|q: int| 0 <= q < t.len() && t[q] == x;
                assert(r[q + 1] == x);
            }
        }
    }
}

/// Sorting positions by key puts every position `0..n` in the result once
/// each, in ascending order of key; this is the order in which a section
/// lists its entries, whatever order they were added in.
pub proof fn law_stable_order_sorted(n: nat, keys: Seq<Seq<char>>)
    requires
        n <= keys.len(),
    ensures
        stable_order(n, keys).len() == n,
        keys_ascending(stable_order(n, keys), keys),
        forall|x: int| #[trigger] stable_order(n, keys).contains(x) <==> 0 <= x < n,
    decreases n,
{
    if n > 0 {
        let prev = stable_order((n - 1) as nat, keys);
        law_stable_order_sorted((n - 1) as nat, keys);
        assert forall|i: int| 0 <= i < prev.len() implies 0 <= #[trigger] prev[i] < keys.len() by {
            assert(prev.contains(prev[i]));
        }
        lemma_insert_by_key(prev, n - 1, keys);
    }
}

/// Positions with equal keys appear in ascending order.
pub open spec fn equal_keys_in_order(s: Seq<int>, keys: Seq<Seq<char>>) -> bool {
    forall|i: int, j: int|
        0 <= i < j < s.len() && keys[#[trigger] s[i]] == keys[#[trigger] s[j]] ==> s[i] < s[j]
}

proof fn lemma_insert_keeps_ties(s: Seq<int>, k: int, keys: Seq<Seq<char>>)
    requires
        keys_ascending(s, keys),
        equal_keys_in_order(s, keys),
        0 <= k < keys.len(),
        forall|i: int| 0 <= i < s.len() ==> 0 <= #[trigger] s[i] < k,
    ensures
        equal_keys_in_order(insert_by_key(s, k, keys), keys),
    decreases s.len(),
{
    let r = insert_by_key(s, k, keys);
    if s.len() == 0 {
        assert(r == seq![k]);
    } else if text_lt(keys[k], keys[s[0]]) {
        assert(r == seq![k] + s);
        assert forall|i: int, j: int|
            0 <= i < j < r.len() && keys[#[trigger] r[i]] == keys[#[trigger] r[j]] implies r[i]
            < r[j] by {
            assert(r[j] == s[j - 1]);
            if i == 0 {
                if j - 1 == 0 {
                    lemma_text_lt_irreflexive(keys[s[0]]);
                } else {
                    assert(!text_lt(keys[s[j - 1]], keys[s[0]]));
                }
            } else {
                assert(r[i] == s[i - 1]);
            }
        }
    } else {
        let rest = s.drop_first();
        assert(keys_ascending(rest, keys)) by {
            assert forall|i: int, j: int| 0 <= i < j < rest.len() implies !text_lt(
                keys[#[trigger] rest[j]],
                keys[#[trigger] rest[i]],
            ) by {
                assert(rest[i] == s[i + 1] && rest[j] == s[j + 1]);
            }
        }
        assert(equal_keys_in_order(rest, keys)) by {
            assert forall|i: int, j: int|
                0 <= i < j < rest.len() && keys[#[trigger] rest[i]] == keys[#[trigger] rest[j]]
                implies rest[i] < rest[j] by {
                assert(rest[i] == s[i + 1] && rest[j] == s[j + 1]);
            }
        }
        assert forall|i: int| 0 <= i < rest.len() implies 0 <= #[trigger] rest[i] < keys.len() by {
            assert(rest[i] == s[i + 1]);
        }
        assert forall|i: int| 0 <= i < rest.len() implies 0 <= #[trigger] rest[i] < k by {
            assert(rest[i] == s[i + 1]);
        }
        lemma_insert_keeps_ties(rest, k, keys);
        lemma_insert_by_key(rest, k, keys);
        let t = insert_by_key(rest, k, keys);
        assert(r == seq![s[0]] + t);
        assert forall|i: int, j: int|
            0 <= i < j < r.len() && keys[#[trigger] r[i]] == keys[#[trigger] r[j]] implies r[i]
            < r[j] by {
            assert(r[j] == t[j - 1]);
            if i == 0 {
                assert(t.contains(t[j - 1]));
                if t[j - 1] != k {
                    assert(rest.contains(t[j - 1]));
                    let m = choose|m: int| 0 <= m < rest.len() && rest[m] == t[j - 1];
                    assert(s[m + 1] == t[j - 1]);
                }
            } else {
                assert(r[i] == t[i - 1]);
            }
        }
    }
}

/// Sorting by key is stable: positions whose keys are equal keep their
/// order, so entries with the same shorthand stay in the order they were added.
pub proof fn law_stable_order_keeps_ties(n: nat, keys: Seq<Seq<char>>)
    requires
        n <= keys.len(),
    ensures
        equal_keys_in_order(stable_order(n, keys), keys),
    decreases n,
{
    if n > 0 {
        let prev = stable_order((n - 1) as nat, keys);
        law_stable_order_keeps_ties((n - 1) as nat, keys);
        law_stable_order_sorted((n - 1) as nat, keys);
        assert forall|i: int| 0 <= i < prev.len() implies 0 <= #[trigger] prev[i] < n - 1 by {
            assert(prev.contains(prev[i]));
        }
        lemma_insert_keeps_ties(prev, n - 1, keys);
    }
}

pub proof fn lemma_pair_lt_irreflexive(p: (Seq<char>, Seq<char>))
    ensures
        !pair_lt(p, p),
{
    lemma_text_lt_irreflexive(p.0);
    lemma_text_lt_irreflexive(p.1);
}

pub proof fn lemma_pair_lt_transitive(
    p: (Seq<char>, Seq<char>),
    q: (Seq<char>, Seq<char>),
    r: (Seq<char>, Seq<char>),
)
    requires
        pair_lt(p, q),
        pair_lt(q, r),
    ensures
        pair_lt(p, r),
{
    if text_lt(p.0, q.0) && text_lt(q.0, r.0) {
        lemma_text_lt_transitive(p.0, q.0, r.0);
    } else if p.0 == q.0 && q.0 == r.0 {
        lemma_text_lt_transitive(p.1, q.1, r.1);
    }
}

pub proof fn lemma_pair_lt_total(p: (Seq<char>, Seq<char>), q: (Seq<char>, Seq<char>))
    requires
        p != q,
    ensures
        pair_lt(p, q) || pair_lt(q, p),
{
    if p.0 != q.0 {
        lemma_text_lt_total(p.0, q.0);
    } else {
        lemma_text_lt_total(p.1, q.1);
    }
}

/// Each pair sorts strictly before the next: ascending, with no repeats.
pub open spec fn strictly_ascending(s: Seq<(Seq<char>, Seq<char>)>) -> bool {
    forall|i: int, j: int| 0 <= i < j < s.len() ==> pair_lt(#[trigger] s[i], #[trigger] s[j])
}

proof fn lemma_insert_unique(s: Seq<(Seq<char>, Seq<char>)>, p: (Seq<char>, Seq<char>))
    requires
        strictly_ascending(s),
    ensures
        strictly_ascending(insert_unique(s, p)),
        forall|x: (Seq<char>, Seq<char>)| #[trigger]
            insert_unique(s, p).contains(x) <==> (s.contains(x) || x == p),
    decreases s.len(),
{
    let r = insert_unique(s, p);
    if s.len() == 0 {
        assert(r == seq![p]);
        assert forall|x: (Seq<char>, Seq<char>)| #[trigger] r.contains(x) <==> (s.contains(x) || x == p) by {
            if x == p {
                assert(r[0] == x);
            }
        }
    } else if p == s[0] {
        assert(r == s);
        assert forall|x: (Seq<char>, Seq<char>)| #[trigger] r.contains(x) <==> (s.contains(x) || x == p) by {
            if x == p {
                assert(s[0] == x);
            }
        }
    } else if pair_lt(p, s[0]) {
        assert(r == seq![p] + s);
        assert forall|i: int, j: int| 0 <= i < j < r.len() implies pair_lt(#[trigger] r[i], #[trigger] r[j]) by {
            assert(r[j] == s[j - 1]);
            if i == 0 {
                if j - 1 > 0 {
                    lemma_pair_lt_transitive(p, s[0], s[j - 1]);
                }
            } else {
                assert(r[i] == s[i - 1]);
            }
        }
        assert forall|x: (Seq<char>, Seq<char>)| #[trigger] r.contains(x) <==> (s.contains(x) || x == p) by {
            if r.contains(x) {
                let m = choose|m: int| 0 <= m < r.len() && r[m] == x;
                if m > 0 {
                    assert(s[m - 1] == x);
                }
            }
            if s.contains(x) {
                let m = choose|m: int| 0 <= m < s.len() && s[m] == x;
                assert(r[m + 1] == x);
            }
            if x == p {
                assert(r[0] == x);
            }
        }
    } else {
        lemma_pair_lt_total(p, s[0]);
        let rest = s.drop_first();
        assert(strictly_ascending(rest)) by {
            assert forall|i: int, j: int| 0 <= i < j < rest.len() implies pair_lt(
                #[trigger] rest[i],
                #[trigger] rest[j],
            ) by {
                assert(rest[i] == s[i + 1] && rest[j] == s[j + 1]);
            }
        }
        lemma_insert_unique(rest, p);
        let t = insert_unique(rest, p);
        assert(r == seq![s[0]] + t);
        assert forall|i: int, j: int| 0 <= i < j < r.len() implies pair_lt(#[trigger] r[i], #[trigger] r[j]) by {
            assert(r[j] == t[j - 1]);
            if i == 0 {
                assert(t.contains(t[j - 1]));
                if t[j - 1] != p {
                    assert(rest.contains(t[j - 1]));
                    let m = choose|m: int| 0 <= m < rest.len() && rest[m] == t[j - 1];
                    assert(s[m + 1] == t[j - 1]);
                }
            } else {
                assert(r[i] == t[i - 1]);
            }
        }
        assert forall|x: (Seq<char>, Seq<char>)| #[trigger] r.contains(x) <==> (s.contains(x) || x == p) by {
            if r.contains(x) {
                let m = choose|m: int| 0 <= m < r.len() && r[m] == x;
                if m > 0 {
                    assert(t[m - 1] == x);
                    assert(t.contains(x));
                    if x != p {
                        let q = choose|q: int| 0 <= q < rest.len() && rest[q] == x;
                        assert(s[q + 1] == x);
                    }
                } else {
                    assert(s[0] == x);
                }
            }
            if s.contains(x) {
                let m = choose|m: int| 0 <= m < s.len() && s[m] == x;
                if m == 0 {
                    assert(r[0] == x);
                } else {
                    assert(rest[m - 1] == x);
                    assert(rest.contains(x));
                    assert(t.contains(x));
                    let q = choose|q: int| 0 <= q < t.len() && t[q] == x;
                    assert(r[q + 1] == x);
                }
            }
            if x == p {
                assert(t.contains(x));
                let q = choose|q: int| 0 <= q < t.len() && t[q] == x;
                assert(r[q + 1] == x);
            }
        }
    }
}

/// The link definitions hold each distinct pair of `ps` exactly once, and
/// nothing else, in ascending order of shorthand (then of full link).
pub proof fn law_sorted_unique(ps: Seq<(Seq<char>, Seq<char>)>)
    ensures
        strictly_ascending(sorted_unique(ps)),
        forall|x: (Seq<char>, Seq<char>)| #[trigger] sorted_unique(ps).contains(x) <==> ps.contains(x),
        forall|i: int, j: int|
            0 <= i < j < sorted_unique(ps).len() ==> #[trigger] sorted_unique(ps)[i]
                != #[trigger] sorted_unique(ps)[j],
    decreases ps.len(),
{
    let u = sorted_unique(ps);
    if ps.len() > 0 {
        let init = ps.drop_last();
        law_sorted_unique(init);
        lemma_insert_unique(sorted_unique(init), ps.last());
        assert forall|x: (Seq<char>, Seq<char>)| #[trigger] u.contains(x) <==> ps.contains(x) by {
            if init.contains(x) {
                let m = choose|m: int| 0 <= m < init.len() && init[m] == x;
                assert(ps[m] == x);
            }
            if ps.contains(x) {
                let m = choose|m: int| 0 <= m < ps.len() && ps[m] == x;
                if m < ps.len() - 1 {
                    assert(init[m] == x);
                } else {
                    assert(x == ps.last());
                }
            }
        }
    }
    assert forall|i: int, j: int| 0 <= i < j < u.len() implies #[trigger] u[i] != #[trigger] u[j] by {
        if u[i] == u[j] {
            lemma_pair_lt_irreflexive(u[i]);
        }
    }
}

} // verus!
