use vstd::prelude::*;
use crate::model::{keys_unique, set_entry, tree_wf, Tree};

verus! {

broadcast use vstd::std_specs::vec::group_vec_axioms;

/// A parsed value: a text leaf, an ordered array, or an object whose entries
/// have pairwise distinct keys.
#[derive(Debug, PartialEq, Eq)]
pub enum Value {
    String(String),
    Array(Vec<Value>),
    Object(Vec<(String, Value)>),
}

/// The tree that a value stands for.
pub open spec fn tree_of(x: &Value) -> Tree
    decreases x,
{
    match x {
        Value::String(t) => Tree::Str(t@),
        Value::Array(v) => Tree::List(
            Seq::new(v@.len(), |i: int| if 0 <= i < v@.len() { tree_of(&v@[i]) } else { Tree::List(seq![]) }),
        ),
        Value::Object(d) => Tree::Dict(
            Seq::new(
                d@.len(),
                |i: int|
                    if 0 <= i < d@.len() {
                        (d@[i].0@, tree_of(&d@[i].1))
                    } else {
                        (seq![], Tree::List(seq![]))
                    },
            ),
        ),
    }
}

impl Value {
    /// Every object in the value, at any depth, has distinct keys.
    pub open spec fn wf(&self) -> bool {
        tree_wf(self@)
    }
}

impl View for Value {
    type V = Tree;

    open spec fn view(&self) -> Tree {
        tree_of(self)
    }
}

pub open spec fn list_view(v: Seq<Value>) -> Seq<Tree> {
    Seq::new(v.len(), |i: int| if 0 <= i < v.len() { v[i]@ } else { Tree::List(seq![]) })
}

pub open spec fn dict_view(d: Seq<(String, Value)>) -> Seq<(Seq<char>, Tree)> {
    Seq::new(d.len(), |i: int| (d[i].0@, d[i].1@))
}

/// Stores `v` under `k` in the entries `d`, overwriting an entry with the same key.
pub fn store_entry(d: &mut Vec<(String, Value)>, k: String, v: Value)
    requires
        keys_unique(dict_view(old(d)@)),
    ensures
        dict_view(final(d)@) == set_entry(dict_view(old(d)@), k@, v@),
        keys_unique(dict_view(final(d)@)),
{
    let ghost before = dict_view(d@);
    let ghost kv = k@;
    let ghost vv = v@;
    let mut i: usize = 0;
    while i < d.len()
        invariant
            i <= d@.len(),
            d@ == old(d)@,
            kv == k@,
            vv == v@,
            keys_unique(before),
            before == dict_view(d@),
            forall|j: int| 0 <= j < i ==> before[j].0 != kv,
        decreases d@.len() - i,
    {
        if d[i].0.eq(&k) {
            assert(before[i as int].0 == kv);
            let ghost ix = choose|j: int| 0 <= j < before.len() && before[j].0 == kv;
            assert(ix == i);
            d[i] = (k, v);
            assert(dict_view(d@) =~= before.update(i as int, (kv, vv)));
            proof {
                crate::model::lemma_set_entry(before, kv, vv);
            }
            return;
        }
        i = i + 1;
    }
    assert(!crate::model::has_key(before, kv));
    d.push((k, v));
    assert(dict_view(d@) =~= before.push((kv, vv)));
    proof {
        crate::model::lemma_set_entry(before, kv, vv);
    }
}

} // verus!
