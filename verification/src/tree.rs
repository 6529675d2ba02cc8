//! The output tree of a parse, with its mathematical model.
//!
//! A node is either a table of key/value entries or a scalar string.
//! Tables keep their entries in insertion order; the key-uniqueness
//! invariant (`wf_entries`) is what the round-trip law rests on.

use vstd::prelude::*;

verus! {

/// A parsed tree node. A `Table` maps string keys to child nodes,
/// in insertion order with unique keys; a `Value` is a scalar string.
#[derive(Debug, PartialEq, Eq)]
pub enum VdfValue {
    Table(Vec<(String, VdfValue)>),
    Value(String),
}

/// The mathematical model of a tree node.
pub enum Node {
    Table(Seq<(Seq<char>, Node)>),
    Value(Seq<char>),
}

impl View for VdfValue {
    type V = Node;

    open spec fn view(&self) -> Node
        decreases self,
    {
        match self {
            VdfValue::Table(es) => Node::Table(VdfValue::entries_view(es@)),
            VdfValue::Value(s) => Node::Value(s@),
        }
    }
}

impl VdfValue {
    /// Model of a table's entry list: each key and child viewed in place.
    pub open spec fn entries_view(es: Seq<(String, VdfValue)>) -> Seq<(Seq<char>, Node)>
        decreases es,
    {
        if es.len() == 0 {
            Seq::empty()
        } else {
            seq![((es[0].0)@, (es[0].1)@)] + VdfValue::entries_view(es.drop_first())
        }
    }
}

/// `entries_view` is the pointwise view of the entry list.
pub proof fn lemma_entries_view(es: Seq<(String, VdfValue)>)
    ensures
        VdfValue::entries_view(es).len() == es.len(),
        forall|i: int|
            0 <= i < es.len() ==> VdfValue::entries_view(es)[i] == ((es[i].0)@, (es[i].1)@),
    decreases es.len(),
{
    if es.len() > 0 {
        lemma_entries_view(es.drop_first());
        assert(VdfValue::entries_view(es) == seq![((es[0].0)@, (es[0].1)@)]
            + VdfValue::entries_view(es.drop_first()));
        assert forall|i: int| 0 <= i < es.len() implies VdfValue::entries_view(es)[i] == ((
        es[i].0)@, (es[i].1)@) by {
            if i > 0 {
                assert(es.drop_first()[i - 1] == es[i]);
                assert(VdfValue::entries_view(es)[i] == VdfValue::entries_view(es.drop_first())[i
                    - 1]);
            } else {
                assert(VdfValue::entries_view(es)[0] == ((es[0].0)@, (es[0].1)@));
            }
        }
    }
}

/// Insertion into a table's entry list: overwrite the first entry
/// carrying this key, in place; append when the key is new.
pub open spec fn table_insert(es: Seq<(Seq<char>, Node)>, k: Seq<char>, v: Node) -> Seq<
    (Seq<char>, Node),
>
    decreases es.len(),
{
    if es.len() == 0 {
        seq![(k, v)]
    } else if es[0].0 == k {
        seq![(k, v)] + es.drop_first()
    } else {
        seq![es[0]] + table_insert(es.drop_first(), k, v)
    }
}

/// Inserting a key that no entry carries appends the new entry.
pub proof fn lemma_table_insert_absent(es: Seq<(Seq<char>, Node)>, k: Seq<char>, v: Node)
    requires
        forall|i: int| 0 <= i < es.len() ==> es[i].0 != k,
    ensures
        table_insert(es, k, v) == es.push((k, v)),
    decreases es.len(),
{
    if es.len() == 0 {
        assert(table_insert(es, k, v) =~= es.push((k, v)));
    } else {
        lemma_table_insert_absent(es.drop_first(), k, v);
        assert(table_insert(es, k, v) =~= es.push((k, v)));
    }
}

/// Inserting a key whose first occurrence is at `j` updates that entry.
pub proof fn lemma_table_insert_found(es: Seq<(Seq<char>, Node)>, k: Seq<char>, v: Node, j: int)
    requires
        0 <= j < es.len(),
        es[j].0 == k,
        forall|i: int| 0 <= i < j ==> es[i].0 != k,
    ensures
        table_insert(es, k, v) == es.update(j, (k, v)),
    decreases es.len(),
{
    if j == 0 {
        assert(table_insert(es, k, v) =~= es.update(j, (k, v)));
    } else {
        lemma_table_insert_found(es.drop_first(), k, v, j - 1);
        assert(table_insert(es, k, v) =~= es.update(j, (k, v)));
    }
}

/// No two entries of the list carry the same key.
pub open spec fn unique_keys(es: Seq<(Seq<char>, Node)>) -> bool {
    forall|i: int, j: int| 0 <= i < j < es.len() ==> es[i].0 != es[j].0
}

/// Every table of the tree, at every depth, has unique keys.
pub open spec fn wf_node(n: Node) -> bool
    decreases n, 0int,
{
    match n {
        Node::Table(es) => wf_entries(es),
        Node::Value(_) => true,
    }
}

/// Well-formedness of an entry list: unique keys, well-formed children.
pub open spec fn wf_entries(es: Seq<(Seq<char>, Node)>) -> bool
    decreases es, 1int,
{
    unique_keys(es) && wf_children(es)
}

/// Every child node of the entry list is well-formed.
pub open spec fn wf_children(es: Seq<(Seq<char>, Node)>) -> bool
    decreases es, 0int,
{
    if es.len() == 0 {
        true
    } else {
        wf_node(es[0].1) && wf_children(es.drop_first())
    }
}

/// `wf_children` is the pointwise well-formedness of the children.
pub proof fn lemma_wf_children(es: Seq<(Seq<char>, Node)>)
    ensures
        wf_children(es) <==> (forall|i: int| 0 <= i < es.len() ==> #[trigger] wf_node(es[i].1)),
    decreases es.len(),
{
    if es.len() > 0 {
        lemma_wf_children(es.drop_first());
        assert(wf_children(es) == (wf_node(es[0].1) && wf_children(es.drop_first())));
        if wf_children(es) {
            assert forall|i: int| 0 <= i < es.len() implies #[trigger] wf_node(es[i].1) by {
                if i > 0 {
                    assert(es.drop_first()[i - 1] == es[i]);
                }
            }
        }
        if forall|i: int| 0 <= i < es.len() ==> #[trigger] wf_node(es[i].1) {
            assert forall|i: int|
                0 <= i < es.drop_first().len() implies #[trigger] wf_node(
                es.drop_first()[i].1,
            ) by {
                assert(es.drop_first()[i] == es[i + 1]);
            }
        }
    }
}

/// `table_insert` preserves well-formedness of the entry list.
pub proof fn lemma_table_insert_wf(es: Seq<(Seq<char>, Node)>, k: Seq<char>, v: Node)
    requires
        wf_entries(es),
        wf_node(v),
    ensures
        wf_entries(table_insert(es, k, v)),
{
    lemma_wf_children(es);
    if exists|i: int| 0 <= i < es.len() && es[i].0 == k {
        let j0 = choose|i: int| 0 <= i < es.len() && es[i].0 == k;
        first_key_occurrence(es, k, j0);
        let j = choose|j: int|
            0 <= j < es.len() && es[j].0 == k && (forall|i: int| 0 <= i < j ==> es[i].0 != k);
        lemma_table_insert_found(es, k, v, j);
        let r = es.update(j, (k, v));
        assert forall|i: int| 0 <= i < r.len() implies #[trigger] wf_node(r[i].1) by {
            if i != j {
                assert(r[i] == es[i]);
                assert(wf_node(es[i].1));
            } else {
                assert(r[i].1 == v);
            }
        }
        assert(unique_keys(r)) by {
            assert(forall|i: int| 0 <= i < r.len() ==> r[i].0 == es[i].0);
        }
        lemma_wf_children(r);
    } else {
        lemma_table_insert_absent(es, k, v);
        let r = es.push((k, v));
        assert forall|i: int| 0 <= i < r.len() implies #[trigger] wf_node(r[i].1) by {
            if i < es.len() {
                assert(r[i] == es[i]);
                assert(wf_node(es[i].1));
            } else {
                assert(r[i].1 == v);
            }
        }
        assert(unique_keys(r)) by {
            assert(forall|i: int| 0 <= i < es.len() ==> r[i].0 == es[i].0);
            assert(r[es.len() as int].0 == k);
        }
        lemma_wf_children(r);
    }
}

/// Below any occurrence of a key there is a first occurrence.
proof fn first_key_occurrence(es: Seq<(Seq<char>, Node)>, k: Seq<char>, j0: int)
    requires
        0 <= j0 < es.len(),
        es[j0].0 == k,
    ensures
        exists|j: int|
            0 <= j < es.len() && es[j].0 == k && (forall|i: int| 0 <= i < j ==> es[i].0 != k),
    decreases j0,
{
    if forall|i: int| 0 <= i < j0 ==> es[i].0 != k {
        assert(0 <= j0 < es.len() && es[j0].0 == k && (forall|i: int|
            0 <= i < j0 ==> es[i].0 != k));
    } else {
        let j1 = choose|i: int| 0 <= i < j0 && es[i].0 == k;
        first_key_occurrence(es, k, j1);
    }
}

} // verus!
