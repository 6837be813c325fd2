//! Lists of named entries in which each name occurs once.
use vstd::prelude::*;

use crate::text::str_eq;

verus! {

/// No name occurs twice among the entries.
pub open spec fn unique_names<V>(e: Seq<(String, V)>) -> bool {
    forall|i: int, j: int| 0 <= i < j < e.len() ==> (#[trigger] e[i]).0@ != (#[trigger] e[j]).0@
}

/// The index of the entry named `k`, or -1 when there is none.
pub open spec fn index_of<V>(e: Seq<(String, V)>, k: Seq<char>) -> int {
    if exists|i: int| 0 <= i < e.len() && (#[trigger] e[i]).0@ == k {
        choose|i: int| 0 <= i < e.len() && (#[trigger] e[i]).0@ == k
    } else {
        -1
    }
}

/// The value of the entry named `k`, if there is one.
pub open spec fn lookup(e: Seq<(String, String)>, k: Seq<char>) -> Option<Seq<char>> {
    let i = index_of(e, k);
    if i < 0 {
        None
    } else {
        Some(e[i].1@)
    }
}

/// With unique names, the entry at index `i` is the one named after it.
pub proof fn lemma_index_of<V>(e: Seq<(String, V)>, i: int)
    requires
        unique_names(e),
        0 <= i < e.len(),
    ensures
        index_of(e, e[i].0@) == i,
{
    let k = e[i].0@;
    assert(exists|j: int| 0 <= j < e.len() && (#[trigger] e[j]).0@ == k);
    let j = choose|j: int| 0 <= j < e.len() && (#[trigger] e[j]).0@ == k;
    if j != i {
        if j < i {
            assert(e[j].0@ != e[i].0@);
        } else {
            assert(e[i].0@ != e[j].0@);
        }
    }
}

/// Where an index is found it names the entry; otherwise no entry has the name.
pub proof fn lemma_index_of_range<V>(e: Seq<(String, V)>, k: Seq<char>)
    ensures
        -1 <= index_of(e, k) < e.len(),
        index_of(e, k) >= 0 ==> e[index_of(e, k)].0@ == k,
        index_of(e, k) < 0 ==> forall|j: int| 0 <= j < e.len() ==> (#[trigger] e[j]).0@ != k,
{
}

/// Two lists with the same names at the same places find every name at the same place.
pub proof fn lemma_same_names<V, W>(a: Seq<(String, V)>, b: Seq<(String, W)>, k: Seq<char>)
    requires
        a.len() == b.len(),
        forall|j: int| 0 <= j < a.len() ==> (#[trigger] a[j]).0@ == b[j].0@,
        unique_names(a),
    ensures
        unique_names(b),
        index_of(a, k) == index_of(b, k),
{
    assert forall|i: int, j: int| 0 <= i < j < b.len() implies (#[trigger] b[i]).0@ != (
    #[trigger] b[j]).0@ by {
        assert(a[i].0@ == b[i].0@);
        assert(a[j].0@ == b[j].0@);
    }
    lemma_index_of_range(a, k);
    lemma_index_of_range(b, k);
    if index_of(a, k) >= 0 {
        let i = index_of(a, k);
        assert(b[i].0@ == k);
        lemma_index_of(b, i);
    } else if index_of(b, k) >= 0 {
        let i = index_of(b, k);
        assert(a[i].0@ == k);
    }
}

/// The index of the entry named `k`.
pub fn find_name<V>(e: &Vec<(String, V)>, k: &str) -> (r: Option<usize>)
    requires
        unique_names(e@),
    ensures
        match r {
            Some(i) => i == index_of(e@, k@) && i < e@.len(),
            None => index_of(e@, k@) == -1,
        },
{
    let mut i: usize = 0;
    while i < e.len()
        invariant
            unique_names(e@),
            0 <= i <= e@.len(),
            forall|j: int| 0 <= j < i ==> (#[trigger] e@[j]).0@ != k@,
        decreases e@.len() - i,
    {
        if str_eq(e[i].0.as_str(), k) {
            proof {
                lemma_index_of(e@, i as int);
            }
            return Some(i);
        }
        i = i + 1;
    }
    proof {
        lemma_index_of_range(e@, k@);
    }
    None
}

/// Gives the entry named `k` the value `v`, adding the entry if there is none.
pub fn set_name(e: &mut Vec<(String, String)>, k: String, v: String)
    requires
        unique_names(old(e)@),
    ensures
        unique_names(final(e)@),
        lookup(final(e)@, k@) == Some(v@),
        forall|k2: Seq<char>| k2 != k@ ==> lookup(final(e)@, k2) == lookup(old(e)@, k2),
{
    let ghost before = e@;
    match find_name(e, k.as_str()) {
        Some(i) => {
            e.set(i, (k, v));
            proof {
                let after = e@;
                assert forall|j: int| 0 <= j < before.len() implies (#[trigger] before[j]).0@
                    == after[j].0@ by {}
                lemma_same_names(before, after, k@);
                lemma_index_of(after, i as int);
                assert forall|k2: Seq<char>| k2 != k@ implies lookup(after, k2) == lookup(
                    before,
                    k2,
                ) by {
                    lemma_same_names(before, after, k2);
                    lemma_index_of_range(before, k2);
                    if index_of(before, k2) >= 0 {
                        assert(index_of(before, k2) != i);
                        assert(after[index_of(before, k2)] == before[index_of(before, k2)]);
                    }
                }
            }
        },
        None => {
            e.push((k, v));
            proof {
                let after = e@;
                lemma_index_of_range(before, k@);
                assert forall|a: int, b: int| 0 <= a < b < after.len() implies (
                #[trigger] after[a]).0@ != (#[trigger] after[b]).0@ by {
                    if b == before.len() {
                        assert(after[a] == before[a]);
                    } else {
                        assert(after[a] == before[a] && after[b] == before[b]);
                    }
                }
                lemma_index_of(after, before.len() as int);
                assert forall|k2: Seq<char>| k2 != k@ implies lookup(after, k2) == lookup(
                    before,
                    k2,
                ) by {
                    lemma_index_of_range(before, k2);
                    lemma_index_of_range(after, k2);
                    if index_of(before, k2) >= 0 {
                        let j = index_of(before, k2);
                        assert(after[j] == before[j]);
                        lemma_index_of(after, j);
                    } else if index_of(after, k2) >= 0 {
                        let j = index_of(after, k2);
                        if j < before.len() {
                            assert(after[j] == before[j]);
                        }
                    }
                }
            }
        },
    }
}

} // verus!
