use vstd::prelude::*;

use crate::text::str_eq;

verus! {

/// The value a name table gives for `name`, if any.
pub open spec fn table_lookup<V>(t: Seq<(String, V)>, name: Seq<char>) -> Option<V> {
    if exists|i: int| 0 <= i < t.len() && (#[trigger] t[i]).0@ == name {
        let i = choose|i: int| 0 <= i < t.len() && (#[trigger] t[i]).0@ == name;
        Some(t[i].1)
    } else {
        None
    }
}

/// A name table with no name twice.
pub open spec fn table_unique<V>(t: Seq<(String, V)>) -> bool {
    forall|i: int, j: int|
        0 <= i < t.len() && 0 <= j < t.len() && (#[trigger] t[i]).0@ == (#[trigger] t[j]).0@ ==> i == j
}

/// The map from names to values that a name table stands for.
pub open spec fn table_map<V>(t: Seq<(String, V)>) -> Map<Seq<char>, V> {
    Map::new(|n: Seq<char>| table_lookup(t, n).is_some(), |n: Seq<char>| table_lookup(t, n).unwrap())
}

/// In a table with no name twice, each entry is what a lookup of its name finds.
pub proof fn lemma_lookup_at<V>(t: Seq<(String, V)>, i: int)
    requires
        table_unique(t),
        0 <= i < t.len(),
    ensures
        table_lookup(t, t[i].0@) == Some(t[i].1),
{
    let n = t[i].0@;
    assert(t[i].0@ == n);
    let j = choose|j: int| 0 <= j < t.len() && (#[trigger] t[j]).0@ == n;
    assert(t[j].0@ == t[i].0@);
}

/// Taking an entry out of a table takes its name out of the map.
pub proof fn lemma_table_remove<V>(t: Seq<(String, V)>, i: int)
    requires
        table_unique(t),
        0 <= i < t.len(),
    ensures
        table_unique(t.remove(i)),
        table_map(t.remove(i)) == table_map(t).remove(t[i].0@),
{
    let r = t.remove(i);
    assert forall|a: int, b: int|
        0 <= a < r.len() && 0 <= b < r.len() && (#[trigger] r[a]).0@ == (#[trigger] r[b]).0@ implies a == b by {
        let a2 = if a < i { a } else { a + 1 };
        let b2 = if b < i { b } else { b + 1 };
        assert(r[a] == t[a2]);
        assert(r[b] == t[b2]);
    }
    assert forall|n: Seq<char>| #[trigger] table_lookup(r, n) == table_map(t).remove(t[i].0@).get(n) by {
        if n == t[i].0@ {
            assert forall|a: int| 0 <= a < r.len() implies (#[trigger] r[a]).0@ != n by {
                let a2 = if a < i { a } else { a + 1 };
                assert(r[a] == t[a2]);
            }
        } else if exists|a: int| 0 <= a < t.len() && (#[trigger] t[a]).0@ == n {
            let a = choose|a: int| 0 <= a < t.len() && (#[trigger] t[a]).0@ == n;
            lemma_lookup_at(t, a);
            let a2 = if a < i { a } else { a - 1 };
            assert(r[a2] == t[a]);
            lemma_lookup_at(r, a2);
        } else {
            assert forall|a: int| 0 <= a < r.len() implies (#[trigger] r[a]).0@ != n by {
                let a2 = if a < i { a } else { a + 1 };
                assert(r[a] == t[a2]);
            }
        }
    }
    assert(table_map(r) =~= table_map(t).remove(t[i].0@));
}

/// Adding an entry under a new name adds it to the map.
pub proof fn lemma_table_push<V>(t: Seq<(String, V)>, e: (String, V))
    requires
        table_unique(t),
        table_lookup(t, e.0@).is_none(),
    ensures
        table_unique(t.push(e)),
        table_map(t.push(e)) == table_map(t).insert(e.0@, e.1),
{
    let r = t.push(e);
    assert forall|a: int, b: int|
        0 <= a < r.len() && 0 <= b < r.len() && (#[trigger] r[a]).0@ == (#[trigger] r[b]).0@ implies a == b by {
        if a < t.len() {
            assert(r[a] == t[a]);
        }
        if b < t.len() {
            assert(r[b] == t[b]);
        }
    }
    assert forall|n: Seq<char>| #[trigger] table_lookup(r, n) == table_map(t).insert(e.0@, e.1).get(n) by {
        if n == e.0@ {
            assert(r[t.len() as int] == e);
            lemma_lookup_at(r, t.len() as int);
        } else if exists|a: int| 0 <= a < t.len() && (#[trigger] t[a]).0@ == n {
            let a = choose|a: int| 0 <= a < t.len() && (#[trigger] t[a]).0@ == n;
            lemma_lookup_at(t, a);
            assert(r[a] == t[a]);
            lemma_lookup_at(r, a);
        } else {
            assert forall|a: int| 0 <= a < r.len() implies (#[trigger] r[a]).0@ != n by {
                if a < t.len() {
                    assert(r[a] == t[a]);
                }
            }
        }
    }
    assert(table_map(r) =~= table_map(t).insert(e.0@, e.1));
}

/// Takes the entry for `name` out of a name table, if there is one, and
/// says where it stood.
pub fn table_take_out<V>(t: &mut Vec<(String, V)>, name: &str) -> (r: Option<usize>)
    requires
        table_unique(old(t)@),
    ensures
        table_unique(final(t)@),
        table_map(final(t)@) == table_map(old(t)@).remove(name@),
        match r {
            Some(i) => i < old(t)@.len() && final(t)@ == old(t)@.remove(i as int),
            None => final(t)@ == old(t)@,
        },
{
    let mut i: usize = 0;
    while i < t.len()
        invariant
            t@ == old(t)@,
            table_unique(t@),
            i <= t.len(),
            forall|j: int| 0 <= j < i ==> (#[trigger] t@[j]).0@ != name@,
        decreases t.len() - i,
    {
        if str_eq(t[i].0.as_str(), name) {
            let ghost before = t@;
            t.remove(i);
            proof {
                lemma_table_remove(before, i as int);
            }
            return Some(i);
        }
        i = i + 1;
    }
    proof {
        assert(table_map(t@) =~= table_map(old(t)@).remove(name@));
    }
    None
}

/// The position in a name table that holds `name`, if any.
pub fn table_find<V>(t: &Vec<(String, V)>, name: &str) -> (r: Option<usize>)
    requires
        table_unique(t@),
    ensures
        match r {
            Some(i) => i < t.len() && t@[i as int].0@ == name@
                && table_lookup(t@, name@) == Some(t@[i as int].1)
                && table_map(t@).contains_key(name@) && table_map(t@)[name@] == t@[i as int].1,
            None => table_lookup(t@, name@).is_none() && !table_map(t@).contains_key(name@),
        },
{
    let mut i: usize = 0;
    while i < t.len()
        invariant
            table_unique(t@),
            i <= t.len(),
            forall|j: int| 0 <= j < i ==> (#[trigger] t@[j]).0@ != name@,
        decreases t.len() - i,
    {
        if str_eq(t[i].0.as_str(), name) {
            proof {
                lemma_lookup_at(t@, i as int);
            }
            return Some(i);
        }
        i = i + 1;
    }
    None
}

} // verus!
