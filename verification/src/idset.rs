//! Small sets of ids, held as vectors.
//!
//! What counts is which ids a vector holds (`to_set`), not their order.

use vstd::prelude::*;

verus! {

/// Whether `id` is among the node ids in `set`.
pub fn has_node(set: &Vec<u32>, id: u32) -> (found: bool)
    ensures
        found == set@.to_set().contains(id),
{
    let mut i: usize = 0;
    while i < set.len()
        invariant
            i <= set.len(),
            forall|k: int| 0 <= k < i ==> set@[k] != id,
        decreases set.len() - i,
    {
        if set[i] == id {
            assert(set@.contains(id));
            return true;
        }
        i = i + 1;
    }
    assert(!set@.contains(id));
    false
}

/// Puts `id` among the node ids in `set`.
pub fn add_node(set: &mut Vec<u32>, id: u32)
    ensures
        final(set)@.to_set() == old(set)@.to_set().insert(id),
{
    if !has_node(set, id) {
        set.push(id);
        assert forall|x: u32| set@.to_set().contains(x) <==> old(set)@.to_set().insert(id).contains(
            x,
        ) by {
            if old(set)@.contains(x) {
                let k = choose|k: int| 0 <= k < old(set)@.len() && old(set)@[k] == x;
                assert(set@[k] == x);
            }
            if x == id {
                assert(set@[set@.len() - 1] == x);
            }
        }
        assert(set@.to_set() =~= old(set)@.to_set().insert(id));
    } else {
        assert(set@.to_set() =~= old(set)@.to_set().insert(id));
    }
}

/// Whether `kept` holds just the ids of `from` that are not `id`.
spec fn without(kept: Seq<u32>, from: Seq<u32>, id: u32) -> bool {
    forall|x: u32|
        #![trigger kept.contains(x)]
        #![trigger from.contains(x)]
        kept.contains(x) <==> (x != id && from.contains(x))
}

/// Takes `id` out of the node ids in `set`.
pub fn drop_node(set: &mut Vec<u32>, id: u32)
    ensures
        final(set)@.to_set() == old(set)@.to_set().remove(id),
{
    let mut kept: Vec<u32> = Vec::new();
    let mut i: usize = 0;
    while i < set.len()
        invariant
            i <= set.len(),
            set@ == old(set)@,
            without(kept@, set@.take(i as int), id),
        decreases set.len() - i,
    {
        let x = set[i];
        let ghost before = kept@;
        let ghost prefix = set@.take(i as int);
        let ghost next = set@.take(i as int + 1);
        if x != id {
            kept.push(x);
        }
        proof {
            assert(next == prefix.push(x));
            assert forall|y: u32|
                #![trigger kept@.contains(y)]
                #![trigger next.contains(y)]
                kept@.contains(y) <==> (y != id && next.contains(y)) by {
                if kept@.contains(y) {
                    let k = choose|k: int| 0 <= k < kept@.len() && kept@[k] == y;
                    if k < before.len() {
                        assert(before[k] == y);
                        assert(before.contains(y));
                        let j = choose|j: int| 0 <= j < prefix.len() && prefix[j] == y;
                        assert(next[j] == y);
                    } else {
                        assert(next[i as int] == y);
                    }
                }
                if y != id && next.contains(y) {
                    let j = choose|j: int| 0 <= j < next.len() && next[j] == y;
                    if j < i {
                        assert(prefix[j] == y);
                        assert(prefix.contains(y));
                        assert(before.contains(y));
                        let k = choose|k: int| 0 <= k < before.len() && before[k] == y;
                        assert(kept@[k] == y);
                    } else {
                        assert(kept@[kept@.len() - 1] == y);
                    }
                }
            }
            assert(without(kept@, next, id));
        }
        i = i + 1;
        assert(set@.take(i as int) == next);
    }
    assert(set@.take(i as int) == set@);
    *set = kept;
    assert(set@.to_set() =~= old(set)@.to_set().remove(id));
}

/// Whether `id` is among the connection ids in `set`.
pub fn has_conn(set: &Vec<usize>, id: usize) -> (found: bool)
    ensures
        found == set@.to_set().contains(id),
{
    let mut i: usize = 0;
    while i < set.len()
        invariant
            i <= set.len(),
            forall|k: int| 0 <= k < i ==> set@[k] != id,
        decreases set.len() - i,
    {
        if set[i] == id {
            assert(set@.contains(id));
            return true;
        }
        i = i + 1;
    }
    assert(!set@.contains(id));
    false
}

/// Puts `id` among the connection ids in `set`. An id that is there already
/// is not added a second time.
pub fn add_conn(set: &mut Vec<usize>, id: usize)
    ensures
        final(set)@.to_set() == old(set)@.to_set().insert(id),
        old(set)@.no_duplicates() ==> final(set)@.no_duplicates(),
{
    if !has_conn(set, id) {
        set.push(id);
        assert forall|x: usize| set@.to_set().contains(x) <==> old(
            set,
        )@.to_set().insert(id).contains(x) by {
            if old(set)@.contains(x) {
                let k = choose|k: int| 0 <= k < old(set)@.len() && old(set)@[k] == x;
                assert(set@[k] == x);
            }
            if x == id {
                assert(set@[set@.len() - 1] == x);
            }
        }
        assert(set@.to_set() =~= old(set)@.to_set().insert(id));
        assert(old(set)@.no_duplicates() ==> set@.no_duplicates()) by {
            if old(set)@.no_duplicates() {
                assert forall|a: int, b: int|
                    0 <= a < set@.len() && 0 <= b < set@.len() && a != b implies set@[a]
                    != set@[b] by {
                    if a < old(set)@.len() && b < old(set)@.len() {
                        assert(old(set)@[a] != old(set)@[b]);
                    } else if a < old(set)@.len() {
                        assert(old(set)@.contains(old(set)@[a]));
                    } else {
                        assert(old(set)@.contains(old(set)@[b]));
                    }
                }
            }
        }
    } else {
        assert(set@.to_set() =~= old(set)@.to_set().insert(id));
    }
}

/// Puts every connection id of `more` among those in `set`.
pub fn add_conns(set: &mut Vec<usize>, more: &Vec<usize>)
    ensures
        final(set)@.to_set() == old(set)@.to_set().union(more@.to_set()),
        old(set)@.no_duplicates() ==> final(set)@.no_duplicates(),
{
    let mut i: usize = 0;
    assert(more@.take(0).to_set() =~= Set::<usize>::empty());
    assert(old(set)@.to_set().union(Set::<usize>::empty()) =~= old(set)@.to_set());
    while i < more.len()
        invariant
            i <= more.len(),
            set@.to_set() == old(set)@.to_set().union(more@.take(i as int).to_set()),
            old(set)@.no_duplicates() ==> set@.no_duplicates(),
        decreases more.len() - i,
    {
        let ghost before = set@.to_set();
        add_conn(set, more[i]);
        proof {
            let prefix = more@.take(i as int);
            let next = more@.take(i as int + 1);
            assert(next == prefix.push(more@[i as int]));
            assert forall|x: usize| next.to_set().contains(x) <==> prefix.to_set().insert(
                more@[i as int],
            ).contains(x) by {
                if next.contains(x) {
                    let j = choose|j: int| 0 <= j < next.len() && next[j] == x;
                    if j < i {
                        assert(prefix[j] == x);
                    }
                }
                if prefix.contains(x) {
                    let j = choose|j: int| 0 <= j < prefix.len() && prefix[j] == x;
                    assert(next[j] == x);
                }
                if x == more@[i as int] {
                    assert(next[i as int] == x);
                }
            }
            assert(next.to_set() =~= prefix.to_set().insert(more@[i as int]));
            assert(set@.to_set() =~= old(set)@.to_set().union(next.to_set()));
        }
        i = i + 1;
    }
    assert(more@.take(i as int) == more@);
}

/// The items among the first `i + 1` of a sequence are those among the first
/// `i`, and the `i`-th.
pub proof fn lemma_take_to_set<T>(s: Seq<T>, i: int)
    requires
        0 <= i < s.len(),
    ensures
        s.take(i + 1).to_set() == s.take(i).to_set().insert(s[i]),
{
    let prefix = s.take(i);
    let next = s.take(i + 1);
    assert forall|x: T| next.to_set().contains(x) <==> prefix.to_set().insert(s[i]).contains(
        x,
    ) by {
        if next.contains(x) {
            let j = choose|j: int| 0 <= j < next.len() && next[j] == x;
            if j < i {
                assert(prefix[j] == x);
            }
        }
        if prefix.contains(x) {
            let j = choose|j: int| 0 <= j < prefix.len() && prefix[j] == x;
            assert(next[j] == x);
        }
        if x == s[i] {
            assert(next[i] == x);
        }
    }
    assert(next.to_set() =~= prefix.to_set().insert(s[i]));
}

/// None of a sequence's items are among its first none, and all of them are
/// among its first all.
pub proof fn lemma_take_ends<T>(s: Seq<T>)
    ensures
        s.take(0).to_set() == Set::<T>::empty(),
        s.take(s.len() as int) == s,
{
    assert(s.take(0).to_set() =~= Set::<T>::empty());
    assert(s.take(s.len() as int) =~= s);
}

} // verus!
