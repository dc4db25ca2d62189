//! Laws of the tree, stated over the mathematical maps its contracts speak
//! of and over its nodes, and proved once for all inputs.

use vstd::prelude::*;

use crate::bits::lemma_prefix_unpush;
use crate::node::Node;

verus! {

/// Overwrite semantics: after an insert, a lookup at the inserted key yields
/// exactly the inserted value; a second insert with the same key replaces
/// the first; keys other than the inserted one are untouched. With `insert`
/// and `get` each contracted over the same map, a lookup therefore reflects
/// the last insert with that key.
pub proof fn lemma_insert_overwrites<V>(m: Map<Seq<bool>, V>, k: Seq<bool>, v1: V, v2: V)
    ensures
        m.insert(k, v1).dom().contains(k),
        m.insert(k, v1)[k] == v1,
        m.insert(k, v1).insert(k, v2) == m.insert(k, v2),
        forall|k2: Seq<bool>|
            k2 != k ==> #[trigger] m.insert(k, v1).dom().contains(k2) == m.dom().contains(k2),
        forall|k2: Seq<bool>|
            k2 != k && m.dom().contains(k2) ==> #[trigger] m.insert(k, v1)[k2] == m[k2],
{
    assert(m.insert(k, v1).insert(k, v2) =~= m.insert(k, v2));
}

/// Removing a key that holds no value changes nothing: neither the key
/// count nor any lookup.
pub proof fn lemma_remove_absent<V>(m: Map<Seq<bool>, V>, k: Seq<bool>)
    requires
        !m.dom().contains(k),
    ensures
        m.remove(k) == m,
{
    assert(m.remove(k) =~= m);
}

/// Removing a present key takes exactly that key out, once: the count drops
/// by one and every other key keeps its value.
pub proof fn lemma_remove_present<V>(m: Map<Seq<bool>, V>, k: Seq<bool>)
    requires
        m.dom().finite(),
        m.dom().contains(k),
    ensures
        m.remove(k).dom().len() == m.dom().len() - 1,
        !m.remove(k).dom().contains(k),
        forall|k2: Seq<bool>|
            k2 != k ==> #[trigger] m.remove(k).dom().contains(k2) == m.dom().contains(k2),
        forall|k2: Seq<bool>|
            k2 != k && m.dom().contains(k2) ==> #[trigger] m.remove(k)[k2] == m[k2],
{
    assert(m.remove(k).dom() =~= m.dom().remove(k));
}

/// `m` lies in the subtree rooted at `root`.
pub open spec fn in_subtree<V>(root: Node<V>, m: Node<V>) -> bool
    decreases root,
{
    root == m || (match root {
        Node::Branch { prefix, left, right } => in_subtree(*left, m) || in_subtree(*right, m),
        Node::Leaf { key, value } => false,
    })
}

/// Well-formedness reaches every node under a well-formed root.
pub proof fn lemma_wf_descends<V>(root: Node<V>, m: Node<V>)
    requires
        root.wf(),
        in_subtree(root, m),
    ensures
        m.wf(),
    decreases root,
{
    if root == m {
    } else if root is Branch {
        if in_subtree(root.left_node(), m) {
            lemma_wf_descends(root.left_node(), m);
        } else {
            lemma_wf_descends(root.right_node(), m);
        }
    }
}

/// At every branch reachable from a well-formed root, every key under the
/// left child carries bit `false` at the branching position (the length of
/// the branch's prefix), and every key under the right child carries `true`
/// there.
pub proof fn lemma_branch_split_bits<V>(root: Node<V>, b: Node<V>)
    requires
        root.wf(),
        in_subtree(root, b),
        b is Branch,
    ensures
        forall|k: Seq<bool>| #[trigger]
            b.left_node().as_map().dom().contains(k) ==> b.repr().len() < k.len() && k[b.repr().len() as int]
                == false,
        forall|k: Seq<bool>| #[trigger]
            b.right_node().as_map().dom().contains(k) ==> b.repr().len() < k.len() && k[b.repr().len() as int]
                == true,
{
    lemma_wf_descends(root, b);
    assert forall|k: Seq<bool>| #[trigger]
        b.left_node().as_map().dom().contains(k) implies b.repr().len() < k.len() && k[b.repr().len() as int]
        == false by {
        lemma_prefix_unpush(b.repr(), false, k);
    }
    assert forall|k: Seq<bool>| #[trigger]
        b.right_node().as_map().dom().contains(k) implies b.repr().len() < k.len() && k[b.repr().len() as int]
        == true by {
        lemma_prefix_unpush(b.repr(), true, k);
    }
}

} // verus!
