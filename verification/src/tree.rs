//! The tree wrapper owning an optional root, and its post-order iterator.
//!
//! Cloning a tree copies only the root handle; a mutation rebuilds the path
//! to the change and leaves every node of every earlier clone untouched.

use std::rc::Rc;
use vstd::prelude::*;

use crate::bits::BitVec;
use crate::node::{
    apply_update, key_fits, lemma_entries_correspond, lemma_map_basics, lemma_opt_map_finite,
    opt_map, opt_wf, rc_as_ref, rc_clone, Node, UpdateOp,
};

verus! {

/// A persistent map from bit-sequence keys to values. Mutation never alters
/// an existing node: it builds new nodes along the affected path and shares
/// everything else, so clones are O(1) and independent.
pub struct PatriciaTree<V> {
    root: Option<Rc<Node<V>>>,
}

impl<V> View for PatriciaTree<V> {
    type V = Map<Seq<bool>, V>;

    closed spec fn view(&self) -> Map<Seq<bool>, V> {
        opt_map(self.root)
    }
}

/// The entries of a branch's right child; what a popped stack element still
/// owes the traversal.
pub closed spec fn right_entries<V>(n: Node<V>) -> Seq<(Seq<bool>, V)> {
    if n is Branch {
        n.right_node().entries()
    } else {
        Seq::empty()
    }
}

impl<V> PatriciaTree<V> {
    #[verifier::type_invariant]
    spec fn inv(self) -> bool {
        opt_wf(self.root)
    }

    /// The stored pairs in post order: under every branch, everything on the
    /// left before everything on the right.
    pub closed spec fn entries(self) -> Seq<(Seq<bool>, V)> {
        match self.root {
            None => Seq::empty(),
            Some(n) => (*n).entries(),
        }
    }

    /// The empty tree.
    pub fn new() -> (r: Self)
        ensures
            r@ == Map::<Seq<bool>, V>::empty(),
            r@.dom().finite(),
    {
        let r = PatriciaTree { root: None };
        proof {
            assert(r@ =~= Map::<Seq<bool>, V>::empty());
            lemma_opt_map_finite(r.root);
        }
        r
    }

    /// Drops the root handle. Existing clones are unaffected.
    pub fn clear(&mut self)
        ensures
            final(self)@ == Map::<Seq<bool>, V>::empty(),
            final(self)@.dom().finite(),
    {
        proof {
            use_type_invariant(&*self);
        }
        self.root = None;
        proof {
            assert(self@ =~= Map::<Seq<bool>, V>::empty());
            lemma_opt_map_finite(self.root);
        }
    }

    /// Whether the tree stores nothing.
    pub fn is_empty(&self) -> (r: bool)
        ensures
            r == self@.dom().is_empty(),
    {
        proof {
            use_type_invariant(self);
        }
        match &self.root {
            None => {
                proof {
                    assert(self@.dom() =~= Set::<Seq<bool>>::empty());
                }
                true
            },
            Some(rc) => {
                let node_ref = rc_as_ref(rc);
                proof {
                    lemma_map_basics(*node_ref);
                    let w = self@.dom().choose();
                    assert(self@.dom().contains(w));
                }
                false
            },
        }
    }

    /// Applies the update engine at `key` on the root.
    pub fn apply_root_operation(&mut self, key: &BitVec, op: UpdateOp<V>)
        requires
            op is Insert ==> key_fits(old(self)@, key@),
        ensures
            final(self)@ == apply_update(old(self)@, key@, op),
            final(self)@.dom().finite(),
    {
        proof {
            use_type_invariant(&*self);
        }
        let mut temp_root = None;
        std::mem::swap(&mut self.root, &mut temp_root);
        let new_root = Node::<V>::update_node_by_key(temp_root, key, op);
        self.root = new_root;
        proof {
            lemma_opt_map_finite(self.root);
        }
    }

    /// Stores `value` at `key`, overwriting whatever the key held before.
    pub fn insert(&mut self, key: BitVec, value: V)
        requires
            key_fits(old(self)@, key@),
        ensures
            final(self)@ == old(self)@.insert(key@, value),
            final(self)@.dom().finite(),
    {
        self.apply_root_operation(&key, UpdateOp::Insert(value));
    }

    /// The value stored at `key`, when there is one.
    pub fn get(&self, key: &BitVec) -> (r: Option<&V>)
        ensures
            r matches Some(v) ==> self@.dom().contains(key@) && *v == self@[key@],
            r is None ==> !self@.dom().contains(key@),
    {
        proof {
            use_type_invariant(self);
        }
        let node = match &self.root {
            Some(rc) => Node::<V>::find_leaf_by_key(Some(rc), key),
            None => Node::<V>::find_leaf_by_key(None, key),
        };
        match node {
            Some(leaf_node) => match rc_as_ref(leaf_node) {
                Node::Leaf { key: _, value } => Some(value),
                Node::Branch { prefix: _, left: _, right: _ } => vstd::pervasive::unreached(),
            },
            None => None,
        }
    }

    /// Whether `key` holds a value.
    pub fn contains_key(&self, key: &BitVec) -> (r: bool)
        ensures
            r == self@.dom().contains(key@),
    {
        let got = self.get(key);
        got.is_some()
    }

    /// Takes the value at `key` out. Removing an absent key, whatever its
    /// shape, is a harmless no-op.
    pub fn remove(&mut self, key: &BitVec)
        ensures
            final(self)@ == old(self)@.remove(key@),
            final(self)@.dom().finite(),
    {
        self.apply_root_operation(key, UpdateOp::Remove);
    }

    /// A fresh snapshot iterator over the stored pairs, in post order. Its
    /// pairs are exactly the stored ones, each key once, as many as the tree
    /// stores.
    pub fn iter<'a>(&'a self) -> (r: PatriciaTreePostOrderIterator<'a, V>)
        ensures
            self@.dom().finite(),
            r.inv(),
            r@ == self.entries(),
            r@.len() == self@.dom().len(),
            forall|i: int| 0 <= i < r@.len() ==> #[trigger] self@.contains_pair(r@[i].0, r@[i].1),
            forall|i: int, j: int| 0 <= i < j < r@.len() ==> r@[i].0 != r@[j].0,
            forall|k: Seq<bool>|
                #[trigger] self@.dom().contains(k) ==> exists|i: int|
                    0 <= i < r@.len() && r@[i].0 == k,
    {
        PatriciaTreePostOrderIterator::<V>::from_tree(self)
    }

    /// The number of stored keys, counted by a full traversal.
    pub fn len(&self) -> (r: usize)
        requires
            self@.dom().len() <= usize::MAX,
        ensures
            r == self@.dom().len(),
            self@.dom().finite(),
    {
        let mut it = self.iter();
        let ghost total = it@.len();
        let mut count: usize = 0;
        loop
            invariant
                it.inv(),
                count + it@.len() == total,
                total <= usize::MAX,
            ensures
                count == total,
            decreases it@.len(),
        {
            let n = it.next_node();
            match n {
                Some(_) => {
                    count = count + 1;
                },
                None => {
                    break ;
                },
            }
        }
        count
    }
}

impl<V> Clone for PatriciaTree<V> {
    /// The "deep" clone is a shallow copy of the root handle: the clone
    /// shares every node with the original and stores the same map, and a
    /// later mutation of either tree never changes the other.
    fn clone(&self) -> (r: Self)
        ensures
            r@ == self@,
            r@.dom().finite(),
    {
        proof {
            use_type_invariant(self);
            lemma_opt_map_finite(self.root);
        }
        match &self.root {
            None => PatriciaTree { root: None },
            Some(rc) => PatriciaTree { root: Some(rc_clone(rc)) },
        }
    }
}

/// A snapshot traversal of one tree version: an explicit stack of the
/// branches whose right side is still owed, and the primed current leaf.
pub struct PatriciaTreePostOrderIterator<'a, V> {
    branch_stack: Vec<&'a Node<V>>,
    current: Option<&'a Node<V>>,
}

impl<'a, V> View for PatriciaTreePostOrderIterator<'a, V> {
    type V = Seq<(Seq<bool>, V)>;

    /// The pairs still to be yielded, in order.
    closed spec fn view(&self) -> Seq<(Seq<bool>, V)> {
        (match self.current {
            Some(n) => (*n).entries(),
            None => Seq::empty(),
        }) + Self::stack_entries(self.branch_stack@)
    }
}

impl<'a, V> PatriciaTreePostOrderIterator<'a, V> {
    /// What the stacked branches still owe: the right-side entries of each,
    /// topmost first.
    pub closed spec fn stack_entries(s: Seq<&'a Node<V>>) -> Seq<(Seq<bool>, V)>
        decreases s.len(),
    {
        if s.len() == 0 {
            Seq::empty()
        } else {
            right_entries(*s.last()) + Self::stack_entries(s.drop_last())
        }
    }

    /// The iterator has no primed current leaf.
    pub closed spec fn unprimed(self) -> bool {
        self.current is None
    }

    /// The stacked branches, oldest first.
    pub closed spec fn stack_view(self) -> Seq<&'a Node<V>> {
        self.branch_stack@
    }

    /// Every stacked node is a well-formed branch.
    pub closed spec fn stack_wf(self) -> bool {
        forall|i: int|
            0 <= i < self.branch_stack@.len() ==> (*#[trigger] self.branch_stack@[i]) is Branch
                && (*self.branch_stack@[i]).wf()
    }

    /// The iterator is well-formed: the current node, when primed, is a
    /// leaf, and an unprimed iterator is exhausted.
    pub closed spec fn inv(self) -> bool {
        &&& self.stack_wf()
        &&& match self.current {
            Some(n) => (*n) is Leaf,
            None => self.branch_stack@.len() == 0,
        }
    }

    /// A fresh iterator over the tree's current root.
    pub fn from_tree(tree: &'a PatriciaTree<V>) -> (r: Self)
        ensures
            tree@.dom().finite(),
            r.inv(),
            r@ == tree.entries(),
            r@.len() == tree@.dom().len(),
            forall|i: int| 0 <= i < r@.len() ==> #[trigger] tree@.contains_pair(r@[i].0, r@[i].1),
            forall|i: int, j: int| 0 <= i < j < r@.len() ==> r@[i].0 != r@[j].0,
            forall|k: Seq<bool>|
                #[trigger] tree@.dom().contains(k) ==> exists|i: int|
                    0 <= i < r@.len() && r@[i].0 == k,
    {
        proof {
            use_type_invariant(tree);
            lemma_opt_map_finite(tree.root);
        }
        let mut ret = Self { branch_stack: Vec::new(), current: None };
        proof {
            assert(ret.branch_stack@ =~= Seq::<&'a Node<V>>::empty());
            assert(ret@ =~= Seq::<(Seq<bool>, V)>::empty());
        }
        match &tree.root {
            Some(node) => {
                let node_ref = rc_as_ref(node);
                proof {
                    lemma_entries_correspond(*node_ref);
                }
                ret.next_leaf(node);
            },
            None => {
                proof {
                    assert(tree@.dom() =~= Set::<Seq<bool>>::empty());
                }
            },
        }
        ret
    }

    /// Primes the iterator on `subtree`: descends along left children,
    /// stacking each visited branch, until a leaf becomes current.
    pub fn next_leaf(&mut self, subtree: &'a Rc<Node<V>>)
        requires
            old(self).stack_wf(),
            old(self).unprimed(),
            (**subtree).wf(),
        ensures
            final(self).inv(),
            final(self)@ == (**subtree).entries() + Self::stack_entries(old(self).stack_view()),
    {
        let ghost init_stack = self.branch_stack@;
        let mut node = rc_as_ref(subtree);
        proof {
            assert((*node).entries() + Self::stack_entries(self.branch_stack@) == (
            **subtree).entries() + Self::stack_entries(init_stack));
        }
        loop
            invariant
                self.stack_wf(),
                self.current is None,
                (*node).wf(),
                (*node).entries() + Self::stack_entries(self.branch_stack@) == (
                **subtree).entries() + Self::stack_entries(init_stack),
            ensures
                (*node) is Leaf,
                (*node).entries() + Self::stack_entries(self.branch_stack@) == (
                **subtree).entries() + Self::stack_entries(init_stack),
                self.stack_wf(),
                self.current is None,
            decreases *node,
        {
            match node {
                Node::Branch { prefix: _, left, right: _ } => {
                    let ghost pre_stack = self.branch_stack@;
                    self.branch_stack.push(node);
                    proof {
                        assert(self.branch_stack@.drop_last() =~= pre_stack);
                        assert(Self::stack_entries(self.branch_stack@) == right_entries(*node)
                            + Self::stack_entries(pre_stack));
                    }
                    let next = rc_as_ref(left);
                    proof {
                        assert((*node).entries() == (*next).entries() + right_entries(*node));
                        assert((*next).entries() + (right_entries(*node) + Self::stack_entries(
                            pre_stack,
                        )) =~= ((*next).entries() + right_entries(*node)) + Self::stack_entries(
                            pre_stack,
                        ));
                    }
                    node = next;
                },
                Node::Leaf { key: _, value: _ } => {
                    break ;
                },
            }
        }
        self.current = Some(node);
    }

    /// Yields the current leaf and advances: pops the newest stacked branch
    /// and primes its right child; with nothing stacked, the traversal ends.
    pub fn next_node(&mut self) -> (r: Option<&'a Node<V>>)
        requires
            old(self).inv(),
        ensures
            final(self).inv(),
            old(self)@.len() == 0 ==> r is None && final(self)@ == old(self)@,
            old(self)@.len() > 0 ==> (r matches Some(n) && (*n) is Leaf && ((*n).repr(), (
            *n).leaf_value()) == old(self)@[0] && final(self)@ == old(self)@.drop_first()),
    {
        let ret = self.current;
        self.current = None;
        let ghost pre_stack = self.branch_stack@;
        let popped = self.branch_stack.pop();
        match popped {
            Some(br) => {
                proof {
                    assert(pre_stack.last() == br);
                    assert(pre_stack.drop_last() =~= self.branch_stack@);
                    assert(Self::stack_entries(pre_stack) == right_entries(*br)
                        + Self::stack_entries(self.branch_stack@));
                }
                match br {
                    Node::Branch { prefix: _, left: _, right } => {
                        self.next_leaf(right);
                        proof {
                            let cur = ret.unwrap();
                            assert((*cur).entries() =~= seq![((*cur).repr(), (*cur).leaf_value())]);
                            assert(old(self)@.drop_first() =~= final(self)@);
                        }
                    },
                    Node::Leaf { key: _, value: _ } => {
                        proof {
                            assert(false);
                        }
                    },
                }
            },
            None => {
                proof {
                    if ret is Some {
                        let cur = ret.unwrap();
                        assert((*cur).entries() =~= seq![((*cur).repr(), (*cur).leaf_value())]);
                        assert(Self::stack_entries(self.branch_stack@) =~= Seq::<
                            (Seq<bool>, V),
                        >::empty());
                        assert(old(self)@.drop_first() =~= final(self)@);
                    }
                }
            },
        }
        ret
    }

    /// Reads a yielded node as its key/value pair.
    pub fn into_tuple(node: Option<&'a Node<V>>) -> (r: Option<(&'a BitVec, &'a V)>)
        requires
            node matches Some(n) ==> (*n) is Leaf,
        ensures
            r is Some <==> node is Some,
            r matches Some(t) ==> node matches Some(n) && t.0@ == (*n).repr() && *t.1 == (
            *n).leaf_value(),
    {
        match node {
            Some(leaf) => match leaf {
                Node::Leaf { key, value } => Some((key, value)),
                Node::Branch { prefix: _, left: _, right: _ } => vstd::pervasive::unreached(),
            },
            None => None,
        }
    }

    /// Yields the next stored pair, left subtrees before right ones.
    pub fn next(&mut self) -> (r: Option<(&'a BitVec, &'a V)>)
        requires
            old(self).inv(),
        ensures
            final(self).inv(),
            old(self)@.len() == 0 ==> r is None && final(self)@ == old(self)@,
            old(self)@.len() > 0 ==> (r matches Some(t) && t.0@ == old(self)@[0].0 && *t.1 == old(
                self,
            )@[0].1 && final(self)@ == old(self)@.drop_first()),
    {
        let n = self.next_node();
        Self::into_tuple(n)
    }
}

} // verus!
