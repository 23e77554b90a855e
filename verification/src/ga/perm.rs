//! Permutations of `0..n` over `u16` values: the chromosome representation,
//! with the counting lemmas that the generator and the crossover rely on.
use vstd::prelude::*;
use vstd::seq_lib::*;
use vstd::set_lib::*;

verus! {

/// `v` occurs somewhere in `s`.
pub open spec fn contains_value(s: Seq<u16>, v: int) -> bool {
    exists|i: int| 0 <= i < s.len() && s[i] as int == v
}

/// `s` is a bijection of `0..s.len()`: every entry is in range and no entry
/// repeats. Together with the length this pins the value set down exactly.
pub open spec fn is_permutation(s: Seq<u16>) -> bool {
    &&& forall|i: int| 0 <= i < s.len() ==> (s[i] as int) < s.len()
    &&& s.no_duplicates()
}

/// A sequence without duplicates whose entries all lie below `n` cannot be
/// longer than `n`.
pub proof fn lemma_distinct_bounded_len(s: Seq<u16>, n: int)
    requires
        0 <= n,
        s.no_duplicates(),
        forall|i: int| 0 <= i < s.len() ==> (s[i] as int) < n,
    ensures
        s.len() <= n,
{
    let t = s.map_values(|x: u16| x as int);
    assert(t.no_duplicates());
    t.unique_seq_to_set();
    assert forall|x: int| t.to_set().contains(x) implies set_int_range(0, n).contains(x) by {
        let i = choose|i: int| 0 <= i < t.len() && t[i] == x;
        assert(0 <= t[i] < n);
    }
    lemma_int_range(0, n);
    lemma_len_subset(t.to_set(), set_int_range(0, n));
}

/// A sequence of length `n` without duplicates whose entries all lie below
/// `n` holds every value of `0..n`: the pigeonhole argument.
pub proof fn lemma_distinct_bounded_complete(s: Seq<u16>, n: int)
    requires
        s.len() == n,
        s.no_duplicates(),
        forall|i: int| 0 <= i < s.len() ==> (s[i] as int) < n,
    ensures
        forall|v: int| 0 <= v < n ==> #[trigger] contains_value(s, v),
{
    assert forall|v: int| 0 <= v < n implies #[trigger] contains_value(s, v) by {
        if forall|i: int| 0 <= i < s.len() ==> s[i] as int != v {
            let t = s.map_values(|x: u16| x as int);
            assert(t.no_duplicates());
            t.unique_seq_to_set();
            let small = set_int_range(0, n).remove(v);
            assert forall|x: int| t.to_set().contains(x) implies small.contains(x) by {
                let i = choose|i: int| 0 <= i < t.len() && t[i] == x;
                assert(0 <= t[i] < n && t[i] != v);
            }
            lemma_int_range(0, n);
            assert(small.len() == n - 1);
            lemma_len_subset(t.to_set(), small);
            assert(false);
        }
        let i = choose|i: int| 0 <= i < s.len() && s[i] as int == v;
        assert(contains_value(s, v));
    }
}

/// A sequence without duplicates, with entries below `n`, that holds every
/// value of `0..n`, has length exactly `n` and is a permutation.
pub proof fn lemma_covering_is_permutation(s: Seq<u16>, n: int)
    requires
        0 <= n,
        s.no_duplicates(),
        forall|i: int| 0 <= i < s.len() ==> (s[i] as int) < n,
        forall|v: int| 0 <= v < n ==> #[trigger] contains_value(s, v),
    ensures
        s.len() == n,
        is_permutation(s),
{
    lemma_distinct_bounded_len(s, n);
    let t = s.map_values(|x: u16| x as int);
    assert(t.no_duplicates());
    t.unique_seq_to_set();
    assert forall|x: int| set_int_range(0, n).contains(x) implies t.to_set().contains(x) by {
        assert(contains_value(s, x));
        let i = choose|i: int| 0 <= i < s.len() && s[i] as int == x;
        assert(t[i] == x);
    }
    lemma_int_range(0, n);
    lemma_len_subset(set_int_range(0, n), t.to_set());
    t.lemma_cardinality_of_set();
}

/// Appending a value makes it occur; every other value occurs as before.
pub proof fn lemma_contains_push(s: Seq<u16>, x: u16, v: int)
    ensures
        contains_value(s.push(x), v) <==> (contains_value(s, v) || x as int == v),
{
    if contains_value(s, v) {
        let i = choose|i: int| 0 <= i < s.len() && s[i] as int == v;
        assert(s.push(x)[i] as int == v);
    }
    if x as int == v {
        assert(s.push(x)[s.len() as int] as int == v);
    }
    if contains_value(s.push(x), v) && x as int != v {
        let i = choose|i: int| 0 <= i < s.push(x).len() && s.push(x)[i] as int == v;
        assert(0 <= i < s.len() && s[i] as int == v);
    }
}

/// Appending a value that does not yet occur keeps the entries distinct.
pub proof fn lemma_push_keeps_distinct(s: Seq<u16>, x: u16)
    requires
        s.no_duplicates(),
        !contains_value(s, x as int),
    ensures
        s.push(x).no_duplicates(),
{
    assert forall|i: int, j: int|
        0 <= i < s.push(x).len() && 0 <= j < s.push(x).len() && i != j implies s.push(x)[i]
        != s.push(x)[j] by {
        if i < s.len() && j < s.len() {
            assert(s.push(x)[i] == s[i] && s.push(x)[j] == s[j]);
        } else if i < s.len() {
            assert(s.push(x)[j] == x);
            assert(s[i] as int != x as int);
        } else {
            assert(s.push(x)[i] == x);
            assert(s[j] as int != x as int);
        }
    }
}

/// Copies a vector of values; the result has the same view.
pub fn clone_vec_u16(v: &Vec<u16>) -> (r: Vec<u16>)
    ensures
        r@ == v@,
{
    let mut r: Vec<u16> = Vec::new();
    for i in 0..v.len()
        invariant
            r@ == v@.take(i as int),
            i <= v@.len(),
    {
        r.push(v[i]);
        proof {
            assert(v@.take(i + 1) == v@.take(i as int).push(v@[i as int]));
        }
    }
    proof {
        assert(v@.take(v@.len() as int) == v@);
    }
    r
}

/// Finds the position of `target` in a permutation; every value below the
/// length occurs, so the scan always lands.
pub fn index_of_value(v: &Vec<u16>, target: u16) -> (r: usize)
    requires
        is_permutation(v@),
        (target as int) < v@.len(),
    ensures
        r < v@.len(),
        v@[r as int] == target,
{
    proof {
        lemma_distinct_bounded_complete(v@, v@.len() as int);
        assert(contains_value(v@, target as int));
    }
    for i in 0..v.len()
        invariant
            forall|k: int| 0 <= k < i ==> v@[k] != target,
            contains_value(v@, target as int),
    {
        if v[i] == target {
            return i;
        }
    }
    proof {
        let k = choose|k: int| 0 <= k < v@.len() && v@[k] as int == target as int;
        assert(v@[k] != target);
        assert(false);
    }
    0
}

} // verus!
