//! Small maps keyed by strings, kept as vectors of pairs in which no key
//! occurs twice.
use vstd::prelude::*;

verus! {

/// No key occurs twice.
pub open spec fn unique_keys<V>(s: Seq<(String, V)>) -> bool {
    forall|i: int, j: int| 0 <= i < s.len() && 0 <= j < s.len() && i != j ==> #[trigger] s[i].0@ != #[trigger] s[j].0@
}

/// Some pair has key `k`.
pub open spec fn has_name<V>(s: Seq<(String, V)>, k: Seq<char>) -> bool {
    exists|i: int| 0 <= i < s.len() && #[trigger] s[i].0@ == k
}

/// The map that the pairs describe.
pub open spec fn as_map<V>(s: Seq<(String, V)>) -> Map<Seq<char>, V> {
    Map::new(|k: Seq<char>| has_name(s, k), |k: Seq<char>| s[choose|i: int| 0 <= i < s.len() && #[trigger] s[i].0@ == k].1)
}

pub proof fn lemma_lookup<V>(s: Seq<(String, V)>, i: int)
    requires
        unique_keys(s),
        0 <= i < s.len(),
    ensures
        as_map(s).contains_key(s[i].0@),
        as_map(s)[s[i].0@] == s[i].1,
{
    assert(has_name(s, s[i].0@));
    let j = choose|j: int| 0 <= j < s.len() && #[trigger] s[j].0@ == s[i].0@;
    assert(j == i);
}

pub proof fn lemma_absent<V>(s: Seq<(String, V)>, k: Seq<char>)
    requires
        forall|i: int| 0 <= i < s.len() ==> #[trigger] s[i].0@ != k,
    ensures
        !as_map(s).contains_key(k),
{
}

pub proof fn lemma_update<V>(s: Seq<(String, V)>, i: int, key: String, v: V)
    requires
        unique_keys(s),
        0 <= i < s.len(),
        key@ == s[i].0@,
    ensures
        unique_keys(s.update(i, (key, v))),
        as_map(s.update(i, (key, v))) == as_map(s).insert(key@, v),
{
    let t = s.update(i, (key, v));
    assert forall|a: int, b: int| 0 <= a < t.len() && 0 <= b < t.len() && a != b implies #[trigger] t[a].0@ != #[trigger] t[b].0@ by {
        assert(t[a].0@ == s[a].0@);
        assert(t[b].0@ == s[b].0@);
    }
    assert forall|k: Seq<char>| has_name(t, k) == has_name(s, k) by {
        if has_name(t, k) {
            let a = choose|a: int| 0 <= a < t.len() && #[trigger] t[a].0@ == k;
            assert(s[a].0@ == k);
        }
        if has_name(s, k) {
            let a = choose|a: int| 0 <= a < s.len() && #[trigger] s[a].0@ == k;
            assert(t[a].0@ == k);
        }
    }
    assert forall|k: Seq<char>| #[trigger] as_map(t).contains_key(k) implies as_map(t)[k] == as_map(s).insert(key@, v)[k] by {
        let a = choose|a: int| 0 <= a < t.len() && #[trigger] t[a].0@ == k;
        lemma_lookup(t, a);
        if a != i {
            assert(t[a] == s[a]);
            lemma_lookup(s, a);
        }
    }
    assert(as_map(t) =~= as_map(s).insert(key@, v));
}

pub proof fn lemma_push<V>(s: Seq<(String, V)>, key: String, v: V)
    requires
        unique_keys(s),
        !has_name(s, key@),
    ensures
        unique_keys(s.push((key, v))),
        as_map(s.push((key, v))) == as_map(s).insert(key@, v),
{
    let t = s.push((key, v));
    assert forall|a: int, b: int| 0 <= a < t.len() && 0 <= b < t.len() && a != b implies #[trigger] t[a].0@ != #[trigger] t[b].0@ by {
        if a < s.len() {
            assert(t[a] == s[a]);
        }
        if b < s.len() {
            assert(t[b] == s[b]);
        }
    }
    assert forall|k: Seq<char>| has_name(t, k) == (has_name(s, k) || k == key@) by {
        if has_name(t, k) {
            let a = choose|a: int| 0 <= a < t.len() && #[trigger] t[a].0@ == k;
            if a < s.len() {
                assert(s[a].0@ == k);
            }
        }
        if has_name(s, k) {
            let a = choose|a: int| 0 <= a < s.len() && #[trigger] s[a].0@ == k;
            assert(t[a].0@ == k);
        }
        if k == key@ {
            assert(t[s.len() as int].0@ == k);
        }
    }
    assert forall|k: Seq<char>| #[trigger] as_map(t).contains_key(k) implies as_map(t)[k] == as_map(s).insert(key@, v)[k] by {
        let a = choose|a: int| 0 <= a < t.len() && #[trigger] t[a].0@ == k;
        lemma_lookup(t, a);
        if a < s.len() {
            assert(t[a] == s[a]);
            lemma_lookup(s, a);
        }
    }
    assert(as_map(t) =~= as_map(s).insert(key@, v));
}

pub proof fn lemma_remove<V>(s: Seq<(String, V)>, i: int)
    requires
        unique_keys(s),
        0 <= i < s.len(),
    ensures
        unique_keys(s.remove(i)),
        as_map(s.remove(i)) == as_map(s).remove(s[i].0@),
{
    let t = s.remove(i);
    assert forall|a: int| 0 <= a < t.len() implies #[trigger] t[a] == s[if a < i { a } else { a + 1 }] by {}
    assert forall|a: int, b: int| 0 <= a < t.len() && 0 <= b < t.len() && a != b implies #[trigger] t[a].0@ != #[trigger] t[b].0@ by {
        assert(t[a] == s[if a < i { a } else { a + 1 }]);
        assert(t[b] == s[if b < i { b } else { b + 1 }]);
    }
    assert forall|k: Seq<char>| has_name(t, k) == (has_name(s, k) && k != s[i].0@) by {
        if has_name(t, k) {
            let a = choose|a: int| 0 <= a < t.len() && #[trigger] t[a].0@ == k;
            assert(t[a] == s[if a < i { a } else { a + 1 }]);
        }
        if has_name(s, k) && k != s[i].0@ {
            let a = choose|a: int| 0 <= a < s.len() && #[trigger] s[a].0@ == k;
            let b = if a < i { a } else { a - 1 };
            assert(t[b] == s[a]);
        }
    }
    assert forall|k: Seq<char>| #[trigger] as_map(t).contains_key(k) implies as_map(t)[k] == as_map(s).remove(s[i].0@)[k] by {
        let a = choose|a: int| 0 <= a < t.len() && #[trigger] t[a].0@ == k;
        lemma_lookup(t, a);
        let sa = if a < i { a } else { a + 1 };
        assert(t[a] == s[sa]);
        lemma_lookup(s, sa);
    }
    assert(as_map(t) =~= as_map(s).remove(s[i].0@));
}

/// The position of the pair with key `k`, if any.
pub fn find<V>(s: &Vec<(String, V)>, k: &String) -> (r: Option<usize>)
    ensures
        r matches Some(i) ==> i < s@.len() && s@[i as int].0@ == k@,
        r is None ==> !has_name(s@, k@),
{
    let mut i: usize = 0;
    while i < s.len()
        invariant
            i <= s@.len(),
            forall|j: int| 0 <= j < i ==> #[trigger] s@[j].0@ != k@,
        decreases s@.len() - i,
    {
        if s[i].0 == *k {
            return Some(i);
        }
        i = i + 1;
    }
    None
}

} // verus!
