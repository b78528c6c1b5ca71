use vstd::prelude::*;

verus! {

/// The mathematical value tree: text leaves, ordered lists, and dictionaries
/// held as entries with pairwise distinct keys.
pub enum Tree {
    Str(Seq<char>),
    List(Seq<Tree>),
    Dict(Seq<(Seq<char>, Tree)>),
}

pub open spec fn keys_unique(d: Seq<(Seq<char>, Tree)>) -> bool {
    forall|i: int, j: int| 0 <= i < d.len() && 0 <= j < d.len() && i != j ==> d[i].0 != d[j].0
}

pub open spec fn has_key(d: Seq<(Seq<char>, Tree)>, k: Seq<char>) -> bool {
    exists|i: int| 0 <= i < d.len() && d[i].0 == k
}

/// The value stored under `k`, if any.
pub open spec fn dict_get(d: Seq<(Seq<char>, Tree)>, k: Seq<char>) -> Option<Tree> {
    if has_key(d, k) {
        Some(d[choose|i: int| 0 <= i < d.len() && d[i].0 == k].1)
    } else {
        None
    }
}

/// Stores `v` under `k`: an existing entry for `k` is overwritten in place,
/// otherwise the entry is appended.
pub open spec fn set_entry(d: Seq<(Seq<char>, Tree)>, k: Seq<char>, v: Tree) -> Seq<(Seq<char>, Tree)> {
    if has_key(d, k) {
        d.update(choose|i: int| 0 <= i < d.len() && d[i].0 == k, (k, v))
    } else {
        d.push((k, v))
    }
}

/// The dictionary that results from storing each entry in turn.
pub open spec fn merged(es: Seq<(Seq<char>, Tree)>) -> Seq<(Seq<char>, Tree)>
    decreases es.len(),
{
    if es.len() == 0 {
        seq![]
    } else {
        set_entry(merged(es.drop_last()), es.last().0, es.last().1)
    }
}

/// The value of the last entry with key `k`, if any.
pub open spec fn last_value(es: Seq<(Seq<char>, Tree)>, k: Seq<char>) -> Option<Tree>
    decreases es.len(),
{
    if es.len() == 0 {
        None
    } else if es.last().0 == k {
        Some(es.last().1)
    } else {
        last_value(es.drop_last(), k)
    }
}

pub proof fn lemma_set_entry(d: Seq<(Seq<char>, Tree)>, k: Seq<char>, v: Tree)
    requires
        keys_unique(d),
    ensures
        keys_unique(set_entry(d, k, v)),
        dict_get(set_entry(d, k, v), k) == Some(v),
        forall|k2: Seq<char>| k2 != k ==> dict_get(set_entry(d, k, v), k2) == dict_get(d, k2),
{
    let r = set_entry(d, k, v);
    if has_key(d, k) {
        let i = choose|i: int| 0 <= i < d.len() && d[i].0 == k;
        assert(r[i].0 == k);
        assert(has_key(r, k));
        assert forall|k2: Seq<char>| k2 != k implies dict_get(r, k2) == dict_get(d, k2) by {
            if has_key(d, k2) {
                let j = choose|j: int| 0 <= j < d.len() && d[j].0 == k2;
                assert(r[j].0 == k2);
            }
            if has_key(r, k2) {
                let j = choose|j: int| 0 <= j < r.len() && r[j].0 == k2;
                assert(d[j].0 == k2);
            }
        }
    } else {
        assert(r[d.len() as int].0 == k);
        assert(has_key(r, k));
        assert forall|k2: Seq<char>| k2 != k implies dict_get(r, k2) == dict_get(d, k2) by {
            if has_key(d, k2) {
                let j = choose|j: int| 0 <= j < d.len() && d[j].0 == k2;
                assert(r[j].0 == k2);
            }
            if has_key(r, k2) {
                let j = choose|j: int| 0 <= j < r.len() && r[j].0 == k2;
                assert(d[j].0 == k2);
            }
        }
    }
}

/// Merging entries gives distinct keys, and each key holds the value of its
/// last entry.
pub proof fn lemma_merged(es: Seq<(Seq<char>, Tree)>)
    ensures
        keys_unique(merged(es)),
        forall|k: Seq<char>| dict_get(merged(es), k) == last_value(es, k),
    decreases es.len(),
{
    if es.len() > 0 {
        lemma_merged(es.drop_last());
        lemma_set_entry(merged(es.drop_last()), es.last().0, es.last().1);
        assert forall|k: Seq<char>| dict_get(merged(es), k) == last_value(es, k) by {
            if k != es.last().0 {
                assert(dict_get(merged(es.drop_last()), k) == last_value(es.drop_last(), k));
            }
        }
    } else {
        assert forall|k: Seq<char>| dict_get(merged(es), k) == last_value(es, k) by {
            assert(!has_key(merged(es), k));
        }
    }
}

/// Every dictionary in the tree has distinct keys.
pub open spec fn tree_wf(t: Tree) -> bool
    decreases t,
{
    match t {
        Tree::Str(_) => true,
        Tree::List(xs) => forall|i: int| 0 <= i < xs.len() ==> tree_wf(#[trigger] xs[i]),
        Tree::Dict(d) => keys_unique(d) && forall|i: int| 0 <= i < d.len() ==> #[trigger] tree_wf(d[i].1),
    }
}

pub proof fn lemma_list_wf(xs: Seq<Tree>)
    requires
        forall|i: int| 0 <= i < xs.len() ==> tree_wf(#[trigger] xs[i]),
    ensures
        tree_wf(Tree::List(xs)),
{
    assert((forall|i: int| 0 <= i < xs.len() ==> tree_wf(#[trigger] xs[i])) ==> tree_wf(
        Tree::List(xs),
    ));
}

pub open spec fn values_wf(es: Seq<(Seq<char>, Tree)>) -> bool {
    forall|i: int| 0 <= i < es.len() ==> #[trigger] tree_wf(es[i].1)
}

pub proof fn lemma_merged_values_wf(es: Seq<(Seq<char>, Tree)>)
    requires
        values_wf(es),
    ensures
        values_wf(merged(es)),
        tree_wf(Tree::Dict(merged(es))),
    decreases es.len(),
{
    lemma_merged(es);
    if es.len() > 0 {
        let init = es.drop_last();
        assert forall|i: int| 0 <= i < init.len() implies #[trigger] tree_wf(init[i].1) by {
            assert(init[i] == es[i]);
        }
        lemma_merged_values_wf(init);
        let m = merged(init);
        let r = merged(es);
        assert(tree_wf(es[es.len() - 1].1));
        assert forall|i: int| 0 <= i < r.len() implies #[trigger] tree_wf(r[i].1) by {
            if has_key(m, es.last().0) {
                let j = choose|j: int| 0 <= j < m.len() && m[j].0 == es.last().0;
                if i != j {
                    assert(r[i] == m[i]);
                }
            } else if i < m.len() {
                assert(r[i] == m[i]);
            }
        }
    }
}

} // verus!
