//! What the store says lies below a list of keys, and how much of it there is.
//!
//! The store is flat: a directory names its children by key. The subtree
//! below a key is what unfolding those names reaches. It is measured by
//! unfolding to a depth; where the store is finite below the keys, every
//! depth that reaches the leaves gives the same measure.

use vstd::prelude::*;
use crate::entry::EntryView;

verus! {

/// What is summed over a subtree.
pub enum Measure {
    /// One for each file.
    Files,
    /// The size of each file.
    Bytes,
    /// One for each entry, file or directory.
    Nodes,
    /// One for each key that a walk looks at, whether the store holds it or
    /// not.
    Steps,
}

/// What one entry adds to a measure by itself. A directory adds nothing to
/// the files and nothing to the bytes.
pub open spec fn weight(m: Measure, e: EntryView) -> nat {
    match m {
        Measure::Files => if e.is_dir { 0 } else { 1 },
        Measure::Bytes => if e.is_dir { 0 } else { e.size as nat },
        Measure::Nodes => 1,
        Measure::Steps => 1,
    }
}

/// What a key that the store does not hold adds to a measure: a step of the
/// walk, and nothing else.
pub open spec fn absent_weight(m: Measure) -> nat {
    match m {
        Measure::Steps => 1,
        _ => 0,
    }
}

/// The measure of the subtree at `key`, unfolded `depth` levels down.
pub open spec fn tally_one(
    store: Map<Seq<char>, EntryView>,
    key: Seq<char>,
    depth: nat,
    m: Measure,
) -> nat
    decreases depth, 0nat,
{
    if !store.contains_key(key) {
        absent_weight(m)
    } else if store[key].is_dir && depth > 0 {
        weight(m, store[key]) + tally(store, store[key].children, (depth - 1) as nat, m)
    } else {
        weight(m, store[key])
    }
}

/// The measure of the subtrees at `keys`, each unfolded `depth` levels down.
/// A key that occurs twice counts twice.
pub open spec fn tally(
    store: Map<Seq<char>, EntryView>,
    keys: Seq<Seq<char>>,
    depth: nat,
    m: Measure,
) -> nat
    decreases depth, keys.len() + 1,
{
    if keys.len() == 0 {
        0
    } else {
        tally(store, keys.drop_last(), depth, m) + tally_one(store, keys.last(), depth, m)
    }
}

/// Unfolding `depth` levels down from `key` reaches the leaves: no directory
/// is left unopened.
pub open spec fn settles_one(store: Map<Seq<char>, EntryView>, key: Seq<char>, depth: nat) -> bool
    decreases depth, 0nat,
{
    !store.contains_key(key) || !store[key].is_dir || (depth > 0 && settles(
        store,
        store[key].children,
        (depth - 1) as nat,
    ))
}

/// Unfolding `depth` levels down from each of `keys` reaches the leaves.
pub open spec fn settles(store: Map<Seq<char>, EntryView>, keys: Seq<Seq<char>>, depth: nat) -> bool
    decreases depth, keys.len() + 1,
{
    keys.len() == 0 || (settles(store, keys.drop_last(), depth) && settles_one(
        store,
        keys.last(),
        depth,
    ))
}

/// The store is finite below `keys`: unfolding ends. This fails where a
/// directory is, through its children, below itself.
pub open spec fn finite_below(store: Map<Seq<char>, EntryView>, keys: Seq<Seq<char>>) -> bool {
    exists|depth: nat| settles(store, keys, depth)
}

/// A depth at which unfolding from `keys` has reached the leaves.
pub open spec fn depth_below(store: Map<Seq<char>, EntryView>, keys: Seq<Seq<char>>) -> nat {
    choose|depth: nat| settles(store, keys, depth)
}

/// The number of files in the subtrees at `keys`. Directories are not counted.
pub open spec fn subtree_files(store: Map<Seq<char>, EntryView>, keys: Seq<Seq<char>>) -> nat {
    tally(store, keys, depth_below(store, keys), Measure::Files)
}

/// The sum of the sizes of the files in the subtrees at `keys`.
pub open spec fn subtree_bytes(store: Map<Seq<char>, EntryView>, keys: Seq<Seq<char>>) -> nat {
    tally(store, keys, depth_below(store, keys), Measure::Bytes)
}

/// The number of keys that a walk through the subtrees at `keys` looks at.
pub open spec fn walk_length(store: Map<Seq<char>, EntryView>, keys: Seq<Seq<char>>) -> nat {
    tally(store, keys, depth_below(store, keys), Measure::Steps)
}

/// Once unfolding has reached the leaves, going deeper reaches them too and
/// measures the same.
pub proof fn lemma_deeper_one(
    store: Map<Seq<char>, EntryView>,
    key: Seq<char>,
    d1: nat,
    d2: nat,
    m: Measure,
)
    requires
        settles_one(store, key, d1),
        d1 <= d2,
    ensures
        settles_one(store, key, d2),
        tally_one(store, key, d1, m) == tally_one(store, key, d2, m),
    decreases d1, 0nat,
{
    if store.contains_key(key) && store[key].is_dir {
        lemma_deeper(store, store[key].children, (d1 - 1) as nat, (d2 - 1) as nat, m);
    }
}

/// Once unfolding has reached the leaves, going deeper reaches them too and
/// measures the same.
pub proof fn lemma_deeper(
    store: Map<Seq<char>, EntryView>,
    keys: Seq<Seq<char>>,
    d1: nat,
    d2: nat,
    m: Measure,
)
    requires
        settles(store, keys, d1),
        d1 <= d2,
    ensures
        settles(store, keys, d2),
        tally(store, keys, d1, m) == tally(store, keys, d2, m),
    decreases d1, keys.len() + 1,
{
    if keys.len() > 0 {
        lemma_deeper(store, keys.drop_last(), d1, d2, m);
        lemma_deeper_one(store, keys.last(), d1, d2, m);
    }
}

/// Two lists of keys one after the other settle where both do, and measure
/// the sum of what each measures.
pub proof fn lemma_concat(
    store: Map<Seq<char>, EntryView>,
    a: Seq<Seq<char>>,
    b: Seq<Seq<char>>,
    depth: nat,
    m: Measure,
)
    ensures
        settles(store, a + b, depth) == (settles(store, a, depth) && settles(store, b, depth)),
        tally(store, a + b, depth, m) == tally(store, a, depth, m) + tally(store, b, depth, m),
    decreases b.len(),
{
    if b.len() == 0 {
        assert(a + b =~= a);
    } else {
        assert((a + b).drop_last() =~= a + b.drop_last());
        assert((a + b).last() == b.last());
        lemma_concat(store, a, b.drop_last(), depth, m);
    }
}

/// Where the store is finite below `keys`, any depth that reaches the leaves
/// measures what `subtree_files` and `subtree_bytes` name.
pub proof fn lemma_any_depth(store: Map<Seq<char>, EntryView>, keys: Seq<Seq<char>>, depth: nat)
    requires
        settles(store, keys, depth),
    ensures
        finite_below(store, keys),
        subtree_files(store, keys) == tally(store, keys, depth, Measure::Files),
        subtree_bytes(store, keys) == tally(store, keys, depth, Measure::Bytes),
        walk_length(store, keys) == tally(store, keys, depth, Measure::Steps),
{
    let d = depth_below(store, keys);
    if d <= depth {
        lemma_deeper(store, keys, d, depth, Measure::Files);
        lemma_deeper(store, keys, d, depth, Measure::Bytes);
        lemma_deeper(store, keys, d, depth, Measure::Steps);
    } else {
        lemma_deeper(store, keys, depth, d, Measure::Files);
        lemma_deeper(store, keys, depth, d, Measure::Bytes);
        lemma_deeper(store, keys, depth, d, Measure::Steps);
    }
}

/// Any one key can be taken out of a list: the list measures what that key
/// measures and what the others measure.
pub proof fn lemma_remove(
    store: Map<Seq<char>, EntryView>,
    keys: Seq<Seq<char>>,
    i: int,
    depth: nat,
    m: Measure,
)
    requires
        0 <= i < keys.len(),
    ensures
        settles(store, keys, depth) == (settles(store, keys.remove(i), depth) && settles_one(
            store,
            keys[i],
            depth,
        )),
        tally(store, keys, depth, m) == tally(store, keys.remove(i), depth, m) + tally_one(
            store,
            keys[i],
            depth,
            m,
        ),
    decreases keys.len(),
{
    if i == keys.len() - 1 {
        assert(keys.remove(i) =~= keys.drop_last());
    } else {
        let shorter = keys.remove(i);
        assert(shorter.drop_last() =~= keys.drop_last().remove(i));
        assert(shorter.last() == keys.last());
        lemma_remove(store, keys.drop_last(), i, depth, m);
    }
}

/// Two lists that hold the same keys equally often, in whatever order,
/// settle together and measure the same.
pub proof fn lemma_permuted(
    store: Map<Seq<char>, EntryView>,
    a: Seq<Seq<char>>,
    b: Seq<Seq<char>>,
    depth: nat,
    m: Measure,
)
    requires
        a.to_multiset() == b.to_multiset(),
    ensures
        settles(store, a, depth) == settles(store, b, depth),
        tally(store, a, depth, m) == tally(store, b, depth, m),
    decreases a.len(),
{
    broadcast use vstd::multiset::group_multiset_axioms;

    a.to_multiset_ensures();
    b.to_multiset_ensures();
    if a.len() == 0 {
        assert(b.len() == 0);
    } else {
        let x = a.last();
        assert(a.contains(x));
        assert(b.to_multiset().count(x) > 0);
        assert(b.contains(x));
        let j = choose|j: int| 0 <= j < b.len() && b[j] == x;
        assert(a.remove(a.len() - 1) =~= a.drop_last());
        assert(a.drop_last().to_multiset() =~= a.to_multiset().remove(x));
        assert(b.remove(j).to_multiset() =~= b.to_multiset().remove(x));
        lemma_permuted(store, a.drop_last(), b.remove(j), depth, m);
        lemma_remove(store, b, j, depth, m);
    }
}

/// The order of the keys does not matter: two lists that hold the same keys
/// equally often are finite together and hold the same number of files and
/// the same number of bytes below them.
pub proof fn lemma_order_does_not_matter(
    store: Map<Seq<char>, EntryView>,
    a: Seq<Seq<char>>,
    b: Seq<Seq<char>>,
)
    requires
        a.to_multiset() == b.to_multiset(),
    ensures
        finite_below(store, a) == finite_below(store, b),
        finite_below(store, a) ==> subtree_files(store, a) == subtree_files(store, b)
            && subtree_bytes(store, a) == subtree_bytes(store, b),
{
    if finite_below(store, a) {
        let d = depth_below(store, a);
        lemma_permuted(store, a, b, d, Measure::Files);
        lemma_permuted(store, a, b, d, Measure::Bytes);
        lemma_any_depth(store, b, d);
    }
    if finite_below(store, b) {
        let d = depth_below(store, b);
        lemma_permuted(store, a, b, d, Measure::Files);
        lemma_any_depth(store, a, d);
    }
}

/// A directory adds nothing by itself: what lies below the key of a
/// directory is what lies below its children. A file is one file of its size,
/// and a key that the store does not hold is nothing.
pub proof fn lemma_subtree_of_one(store: Map<Seq<char>, EntryView>, key: Seq<char>)
    requires
        finite_below(store, seq![key]),
    ensures
        store.contains_key(key) && store[key].is_dir ==> finite_below(store, store[key].children)
            && subtree_files(store, seq![key]) == subtree_files(store, store[key].children)
            && subtree_bytes(store, seq![key]) == subtree_bytes(store, store[key].children),
        store.contains_key(key) && !store[key].is_dir ==> subtree_files(store, seq![key]) == 1
            && subtree_bytes(store, seq![key]) == store[key].size,
        !store.contains_key(key) ==> subtree_files(store, seq![key]) == 0 && subtree_bytes(
            store,
            seq![key],
        ) == 0,
{
    let d = depth_below(store, seq![key]);
    let one = seq![key];
    assert(one.drop_last() =~= Seq::<Seq<char>>::empty());
    assert(one.last() == key);
    assert(settles(store, one.drop_last(), d));
    assert(settles_one(store, key, d));
    assert(tally(store, one.drop_last(), d, Measure::Files) == 0);
    assert(tally(store, one.drop_last(), d, Measure::Bytes) == 0);
    assert(tally(store, one, d, Measure::Files) == tally_one(store, key, d, Measure::Files));
    assert(tally(store, one, d, Measure::Bytes) == tally_one(store, key, d, Measure::Bytes));
    if store.contains_key(key) && store[key].is_dir {
        lemma_any_depth(store, store[key].children, (d - 1) as nat);
    }
}

/// The files and the bytes below two lists of keys add up.
pub proof fn lemma_subtree_concat(
    store: Map<Seq<char>, EntryView>,
    a: Seq<Seq<char>>,
    b: Seq<Seq<char>>,
)
    requires
        finite_below(store, a),
        finite_below(store, b),
    ensures
        finite_below(store, a + b),
        subtree_files(store, a + b) == subtree_files(store, a) + subtree_files(store, b),
        subtree_bytes(store, a + b) == subtree_bytes(store, a) + subtree_bytes(store, b),
{
    let da = depth_below(store, a);
    let db = depth_below(store, b);
    let d = if da <= db {
        db
    } else {
        da
    };
    lemma_deeper(store, a, da, d, Measure::Files);
    lemma_deeper(store, b, db, d, Measure::Files);
    lemma_concat(store, a, b, d, Measure::Files);
    lemma_concat(store, a, b, d, Measure::Bytes);
    lemma_any_depth(store, a, d);
    lemma_any_depth(store, b, d);
    lemma_any_depth(store, a + b, d);
}

} // verus!
