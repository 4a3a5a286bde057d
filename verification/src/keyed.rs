use vstd::prelude::*;

use crate::text::str_to_chars;

verus! {

// ---------------------------------------------------------------------------
// The order of string keys
// ---------------------------------------------------------------------------

/// Lexicographic order of strings by code point, which is also the byte
/// order of their UTF-8 encodings (the order of `String`).
pub open spec fn key_lt(a: Seq<char>, b: Seq<char>) -> bool
    decreases a.len(),
{
    if a.len() == 0 {
        b.len() > 0
    } else if b.len() == 0 {
        false
    } else if a[0] < b[0] {
        true
    } else if a[0] > b[0] {
        false
    } else {
        key_lt(a.drop_first(), b.drop_first())
    }
}

/// No key comes before itself.
pub proof fn lemma_key_lt_irreflexive(a: Seq<char>)
    ensures
        !key_lt(a, a),
    decreases a.len(),
{
    if a.len() > 0 {
        lemma_key_lt_irreflexive(a.drop_first());
    }
}

/// The key order is transitive.
pub proof fn lemma_key_lt_transitive(a: Seq<char>, b: Seq<char>, c: Seq<char>)
    requires
        key_lt(a, b),
        key_lt(b, c),
    ensures
        key_lt(a, c),
    decreases a.len(),
{
    if a.len() > 0 && b.len() > 0 && c.len() > 0 {
        if a[0] == b[0] && b[0] == c[0] {
            lemma_key_lt_transitive(a.drop_first(), b.drop_first(), c.drop_first());
        }
    }
}

/// Of two different keys, one comes first.
pub proof fn lemma_key_lt_total(a: Seq<char>, b: Seq<char>)
    requires
        a != b,
    ensures
        key_lt(a, b) || key_lt(b, a),
    decreases a.len(),
{
    if a.len() > 0 && b.len() > 0 && a[0] == b[0] {
        if a.drop_first() == b.drop_first() {
            assert(a =~= seq![a[0]] + a.drop_first());
            assert(b =~= seq![b[0]] + b.drop_first());
        }
        lemma_key_lt_total(a.drop_first(), b.drop_first());
    }
    if a.len() == 0 && b.len() == 0 {
        assert(a =~= b);
    }
}

/// Whether `a` comes before `b` (see `key_lt`).
pub fn key_less(a: &Vec<char>, b: &Vec<char>) -> (r: bool)
    ensures
        r == key_lt(a@, b@),
{
    let mut i: usize = 0;
    assert(a@.skip(0) =~= a@);
    assert(b@.skip(0) =~= b@);
    while i < a.len() && i < b.len() && a[i] == b[i]
        invariant
            i <= a.len(),
            i <= b.len(),
            key_lt(a@, b@) == key_lt(a@.skip(i as int), b@.skip(i as int)),
        decreases a.len() - i,
    {
        assert(a@.skip(i as int).drop_first() =~= a@.skip(i + 1));
        assert(b@.skip(i as int).drop_first() =~= b@.skip(i + 1));
        i += 1;
    }
    if i == a.len() {
        i < b.len()
    } else if i == b.len() {
        false
    } else {
        assert(a@.skip(i as int)[0] == a@[i as int]);
        assert(b@.skip(i as int)[0] == b@[i as int]);
        a[i] < b[i]
    }
}

// ---------------------------------------------------------------------------
// Maps kept as entries sorted by key
// ---------------------------------------------------------------------------

/// The keys of `s` are strictly increasing, so each occurs once.
pub open spec fn sorted_keys<V>(s: Seq<(String, V)>) -> bool {
    forall|i: int, j: int| 0 <= i < j < s.len() ==> key_lt(#[trigger] s[i].0@, #[trigger] s[j].0@)
}

/// Whether some entry of `s` has key `k`.
pub open spec fn has_key<V>(s: Seq<(String, V)>, k: Seq<char>) -> bool {
    exists|i: int| 0 <= i < s.len() && (#[trigger] s[i]).0@ == k
}

/// An index of an entry of `s` with key `k` (meaningful when there is one).
pub open spec fn key_index<V>(s: Seq<(String, V)>, k: Seq<char>) -> int {
    choose|i: int| 0 <= i < s.len() && (#[trigger] s[i]).0@ == k
}

/// The map that the entries of `s` stand for.
pub open spec fn entries_map<V>(s: Seq<(String, V)>) -> Map<Seq<char>, V> {
    Map::new(|k: Seq<char>| has_key(s, k), |k: Seq<char>| s[key_index(s, k)].1)
}

/// In sorted entries, the entry at `i` is what the map holds for its key.
pub proof fn lemma_entry_in_map<V>(s: Seq<(String, V)>, i: int)
    requires
        sorted_keys(s),
        0 <= i < s.len(),
    ensures
        entries_map(s).dom().contains(s[i].0@),
        entries_map(s)[s[i].0@] == s[i].1,
{
    let k = s[i].0@;
    assert(has_key(s, k));
    let j = key_index(s, k);
    if j < i {
        assert(key_lt(s[j].0@, s[i].0@));
        lemma_key_lt_irreflexive(k);
    } else if j > i {
        assert(key_lt(s[i].0@, s[j].0@));
        lemma_key_lt_irreflexive(k);
    }
}

/// The index of the entry with key `key`, if there is one.
pub fn find_key<V>(entries: &Vec<(String, V)>, key: &str) -> (r: Option<usize>)
    ensures
        match r {
            Some(i) => i < entries.len() && entries@[i as int].0@ == key@,
            None => !has_key(entries@, key@),
        },
{
    let k = str_to_chars(key);
    let mut i: usize = 0;
    while i < entries.len()
        invariant
            i <= entries.len(),
            k@ == key@,
            forall|j: int| 0 <= j < i ==> (#[trigger] entries@[j]).0@ != key@,
        decreases entries.len() - i,
    {
        let name = str_to_chars(entries[i].0.as_str());
        if crate::text::chars_eq(&name, &k) {
            return Some(i);
        }
        i += 1;
    }
    None
}

/// Sets the entry of `key` to `value`, adding it in its sorted place when
/// the key is new.
pub fn upsert<V>(entries: &mut Vec<(String, V)>, key: String, value: V)
    requires
        sorted_keys(old(entries)@),
    ensures
        sorted_keys(final(entries)@),
        entries_map(final(entries)@) == entries_map(old(entries)@).insert(key@, value),
        final(entries)@.len() == old(entries)@.len() + if has_key(old(entries)@, key@) {
            0int
        } else {
            1int
        },
{
    let ghost s0 = entries@;
    let k = str_to_chars(key.as_str());
    let mut i: usize = 0;
    let mut stop = false;
    while i < entries.len() && !stop
        invariant
            i <= entries.len(),
            entries@ == s0,
            k@ == key@,
            sorted_keys(s0),
            forall|j: int| 0 <= j < i ==> key_lt(#[trigger] s0[j].0@, key@),
            stop ==> i < entries.len() && !key_lt(s0[i as int].0@, key@),
        decreases 2 * (entries.len() - i) + if stop {
            0int
        } else {
            1int
        },
    {
        let name = str_to_chars(entries[i].0.as_str());
        if key_less(&name, &k) {
            i += 1;
        } else {
            stop = true;
        }
    }
    let found = if i < entries.len() {
        let name = str_to_chars(entries[i].0.as_str());
        crate::text::chars_eq(&name, &k)
    } else {
        false
    };
    if found {
        proof {
            assert forall|j: int| 0 <= j < s0.len() && j != i implies (#[trigger] s0[j]).0@ != key@ by {
                if j < i {
                    lemma_key_lt_irreflexive(key@);
                } else {
                    assert(key_lt(s0[i as int].0@, s0[j].0@));
                    lemma_key_lt_irreflexive(key@);
                }
            }
        }
        entries.set(i, (key, value));
        let ghost s1 = entries@;
        proof {
            assert(s1 =~= s0.update(i as int, s1[i as int]));
            assert forall|a: int, b: int| 0 <= a < b < s1.len() implies key_lt(
                #[trigger] s1[a].0@,
                #[trigger] s1[b].0@,
            ) by {
                assert(s0[a].0@ == s1[a].0@ || a == i);
                assert(s0[b].0@ == s1[b].0@ || b == i);
                assert(s1[i as int].0@ == s0[i as int].0@);
            }
            assert(has_key(s0, key@));
            lemma_map_update(s0, s1, i as int);
        }
    } else {
        proof {
            if i < s0.len() {
                assert(s0[i as int].0@ != key@);
                lemma_key_lt_total(s0[i as int].0@, key@);
            }
            assert forall|j: int| i <= j < s0.len() implies key_lt(key@, #[trigger] s0[j].0@) by {
                if j > i {
                    lemma_key_lt_transitive(key@, s0[i as int].0@, s0[j].0@);
                }
            }
            assert(!has_key(s0, key@)) by {
                if has_key(s0, key@) {
                    let j = choose|j: int| 0 <= j < s0.len() && (#[trigger] s0[j]).0@ == key@;
                    lemma_key_lt_irreflexive(key@);
                }
            }
        }
        entries.insert(i, (key, value));
        let ghost s1 = entries@;
        proof {
            assert(s1 =~= s0.insert(i as int, s1[i as int]));
            assert forall|a: int, b: int| 0 <= a < b < s1.len() implies key_lt(
                #[trigger] s1[a].0@,
                #[trigger] s1[b].0@,
            ) by {
                if b < i {
                    assert(s1[a] == s0[a] && s1[b] == s0[b]);
                } else if b == i {
                    assert(s1[a] == s0[a]);
                } else if a < i {
                    assert(s1[a] == s0[a] && s1[b] == s0[b - 1]);
                    lemma_key_lt_transitive(s0[a].0@, key@, s0[b - 1].0@);
                } else if a == i {
                    assert(s1[b] == s0[b - 1]);
                } else {
                    assert(s1[a] == s0[a - 1] && s1[b] == s0[b - 1]);
                }
            }
            lemma_map_insert(s0, s1, i as int);
        }
    }
}

/// Entries at different places of sorted entries have different keys.
pub proof fn lemma_distinct_keys<V>(s: Seq<(String, V)>, i: int, j: int)
    requires
        sorted_keys(s),
        0 <= i < s.len(),
        0 <= j < s.len(),
        i != j,
    ensures
        s[i].0@ != s[j].0@,
{
    if i < j {
        assert(key_lt(s[i].0@, s[j].0@));
    } else {
        assert(key_lt(s[j].0@, s[i].0@));
    }
    lemma_key_lt_irreflexive(s[i].0@);
}

proof fn lemma_map_update<V>(s0: Seq<(String, V)>, s1: Seq<(String, V)>, i: int)
    requires
        sorted_keys(s0),
        sorted_keys(s1),
        0 <= i < s0.len(),
        s1 == s0.update(i, s1[i]),
        s1[i].0@ == s0[i].0@,
    ensures
        entries_map(s1) == entries_map(s0).insert(s1[i].0@, s1[i].1),
{
    let key = s1[i].0@;
    let m0 = entries_map(s0);
    let m1 = entries_map(s1);
    assert forall|k: Seq<char>| m1.dom().contains(k) <==> m0.insert(key, s1[i].1).dom().contains(k) by {
        if has_key(s1, k) {
            let j = choose|j: int| 0 <= j < s1.len() && (#[trigger] s1[j]).0@ == k;
            if j != i {
                assert(s0[j] == s1[j]);
            }
        }
        if has_key(s0, k) {
            let j = choose|j: int| 0 <= j < s0.len() && (#[trigger] s0[j]).0@ == k;
            if j != i {
                assert(s0[j] == s1[j]);
            }
        }
    }
    assert forall|k: Seq<char>| m1.dom().contains(k) implies m1[k] == m0.insert(key, s1[i].1)[k] by {
        let j = key_index(s1, k);
        lemma_entry_in_map(s1, j);
        if j != i {
            assert(s0[j] == s1[j]);
            lemma_entry_in_map(s0, j);
            lemma_distinct_keys(s1, i, j);
        }
    }
    assert(m1 =~= m0.insert(key, s1[i].1));
}

proof fn lemma_map_insert<V>(s0: Seq<(String, V)>, s1: Seq<(String, V)>, i: int)
    requires
        sorted_keys(s0),
        sorted_keys(s1),
        0 <= i <= s0.len(),
        s1 == s0.insert(i, s1[i]),
    ensures
        entries_map(s1) == entries_map(s0).insert(s1[i].0@, s1[i].1),
{
    let key = s1[i].0@;
    let m0 = entries_map(s0);
    let m1 = entries_map(s1);
    assert forall|k: Seq<char>| m1.dom().contains(k) <==> m0.insert(key, s1[i].1).dom().contains(k) by {
        if has_key(s1, k) {
            let j = choose|j: int| 0 <= j < s1.len() && (#[trigger] s1[j]).0@ == k;
            if j < i {
                assert(s0[j] == s1[j]);
            } else if j > i {
                assert(s0[j - 1] == s1[j]);
            }
        }
        if has_key(s0, k) {
            let j = choose|j: int| 0 <= j < s0.len() && (#[trigger] s0[j]).0@ == k;
            if j < i {
                assert(s0[j] == s1[j]);
            } else {
                assert(s0[j] == s1[j + 1]);
            }
        }
    }
    assert forall|k: Seq<char>| m1.dom().contains(k) implies m1[k] == m0.insert(key, s1[i].1)[k] by {
        let j = key_index(s1, k);
        lemma_entry_in_map(s1, j);
        if j < i {
            assert(s0[j] == s1[j]);
            lemma_entry_in_map(s0, j);
            lemma_distinct_keys(s1, i, j);
        } else if j > i {
            assert(s0[j - 1] == s1[j]);
            lemma_entry_in_map(s0, j - 1);
            lemma_distinct_keys(s1, i, j);
        }
    }
    assert(m1 =~= m0.insert(key, s1[i].1));
}

} // verus!
