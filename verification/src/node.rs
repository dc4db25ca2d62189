//! The nodes of the Patricia tree and the algorithms on them: the unified
//! insert/remove primitive, prefix merging, and lookup.
//!
//! A node is immutable once built; children are shared, reference-counted
//! handles that are never mutated after construction. A mutation rebuilds
//! only the path from the root to the change and reuses every untouched
//! sibling.

use std::rc::Rc;
use vstd::prelude::*;
use vstd::set_lib::lemma_set_disjoint_lens;
use vstd::string::StringExecFns;

use crate::bits::{
    bits_chars, is_prefix, is_strict_prefix, lemma_prefix_comparable, lemma_prefix_diverge,
    lemma_prefix_refl, lemma_prefix_trans, lemma_prefix_unpush, BitVec,
};

verus! {

/// A node: either one stored mapping, or a fork below a shared prefix.
///
/// In a `Branch`, `prefix` is a common prefix of every key beneath the node,
/// strictly shorter than any of them; keys under `left` carry bit `false`
/// right after `prefix`, keys under `right` carry `true` there.
pub enum Node<V> {
    Leaf { key: BitVec, value: V },
    Branch { prefix: BitVec, left: Rc<Node<V>>, right: Rc<Node<V>> },
}

/// The one operation of the update engine: emplace a value at the key, or
/// take out whatever the key holds.
pub enum UpdateOp<V> {
    Insert(V),
    Remove,
}

/// What `op` at `key` does to a map.
pub open spec fn apply_update<V>(
    m: Map<Seq<bool>, V>,
    key: Seq<bool>,
    op: UpdateOp<V>,
) -> Map<Seq<bool>, V> {
    match op {
        UpdateOp::Insert(v) => m.insert(key, v),
        UpdateOp::Remove => m.remove(key),
    }
}

/// `key` is neither a strict prefix nor a strict extension of any key of
/// `m`: the one shape of key the trie can hold next to them. Equal keys are
/// allowed (an overwrite).
pub open spec fn key_fits<V>(m: Map<Seq<bool>, V>, key: Seq<bool>) -> bool {
    forall|k: Seq<bool>| #[trigger]
        m.dom().contains(k) ==> !is_strict_prefix(k, key) && !is_strict_prefix(key, k)
}

/// The stored keys fork exactly at `key`: one stored key extends it with
/// bit `false` and another with bit `true`. In a well-formed tree this holds
/// precisely when the lookup descent meets a branch carrying `key` as its
/// prefix.
pub open spec fn forks_at<V>(m: Map<Seq<bool>, V>, key: Seq<bool>) -> bool {
    exists|k1: Seq<bool>, k2: Seq<bool>|
        #![trigger m.dom().contains(k1), m.dom().contains(k2)]
        m.dom().contains(k1) && m.dom().contains(k2) && is_prefix(key.push(false), k1)
            && is_prefix(key.push(true), k2)
}

/// The map a possibly empty subtree stands for.
pub open spec fn opt_map<V>(o: Option<Rc<Node<V>>>) -> Map<Seq<bool>, V> {
    match o {
        None => Map::empty(),
        Some(n) => (*n).as_map(),
    }
}

/// Well-formedness of a possibly empty subtree.
pub open spec fn opt_wf<V>(o: Option<Rc<Node<V>>>) -> bool {
    match o {
        None => true,
        Some(n) => (*n).wf(),
    }
}

/// The node a non-empty subtree handle holds.
pub open spec fn opt_node<V>(o: Option<Rc<Node<V>>>) -> Node<V>
    recommends
        o is Some,
{
    match o {
        Some(n) => *n,
        None => vstd::pervasive::arbitrary(),
    }
}

/// A well-formed subtree stores finitely many keys.
pub proof fn lemma_opt_map_finite<V>(o: Option<Rc<Node<V>>>)
    requires
        opt_wf(o),
    ensures
        opt_map(o).dom().finite(),
{
    if o is Some {
        lemma_map_basics(opt_node(o));
    } else {
        assert(opt_map(o).dom() =~= Set::<Seq<bool>>::empty());
    }
}

/// The map a borrowed, possibly empty subtree stands for.
pub open spec fn opt_ref_map<V>(o: Option<&Rc<Node<V>>>) -> Map<Seq<bool>, V> {
    match o {
        None => Map::empty(),
        Some(n) => (**n).as_map(),
    }
}

/// Well-formedness of a borrowed, possibly empty subtree.
pub open spec fn opt_ref_wf<V>(o: Option<&Rc<Node<V>>>) -> bool {
    match o {
        None => true,
        Some(n) => (**n).wf(),
    }
}

/// Relies on `Rc::clone`: the returned handle points at the same node, so it
/// stands for the same value; nothing is copied.
#[verifier::external_body]
pub(crate) fn rc_clone<V>(rc: &Rc<Node<V>>) -> (r: Rc<Node<V>>)
    ensures
        r == *rc,
{
    Rc::clone(rc)
}

/// Relies on `Rc::as_ref`: borrowing through the handle yields the node it
/// points at.
#[verifier::external_body]
pub(crate) fn rc_as_ref<V>(rc: &Rc<Node<V>>) -> (r: &Node<V>)
    ensures
        *r == **rc,
{
    rc.as_ref()
}

impl<V> Node<V> {
    /// The finite map of key/value pairs this subtree stores.
    pub open spec fn as_map(self) -> Map<Seq<bool>, V>
        decreases self,
    {
        match self {
            Node::Leaf { key, value } => Map::empty().insert(key@, value),
            Node::Branch { prefix, left, right } => (*left).as_map().union_prefer_right(
                (*right).as_map(),
            ),
        }
    }

    /// The representative bit sequence of the node: a leaf's key, a branch's
    /// prefix.
    pub open spec fn repr(self) -> Seq<bool> {
        match self {
            Node::Leaf { key, value } => key@,
            Node::Branch { prefix, left, right } => prefix@,
        }
    }

    /// Structural well-formedness: under every branch, the keys of the left
    /// subtree extend the prefix with bit `false` and the keys of the right
    /// subtree extend it with bit `true`.
    pub open spec fn wf(self) -> bool
        decreases self,
    {
        match self {
            Node::Leaf { key, value } => true,
            Node::Branch { prefix, left, right } => {
                &&& (*left).wf()
                &&& (*right).wf()
                &&& forall|k: Seq<bool>|
                    (*left).as_map().dom().contains(k) ==> is_prefix(prefix@.push(false), k)
                &&& forall|k: Seq<bool>|
                    (*right).as_map().dom().contains(k) ==> is_prefix(prefix@.push(true), k)
            },
        }
    }

    /// The stored pairs in post order: everything under a branch's left
    /// child strictly before everything under its right child.
    pub open spec fn entries(self) -> Seq<(Seq<bool>, V)>
        decreases self,
    {
        match self {
            Node::Leaf { key, value } => seq![(key@, value)],
            Node::Branch { prefix, left, right } => (*left).entries() + (*right).entries(),
        }
    }

    /// The left child of a branch.
    pub open spec fn left_node(self) -> Node<V>
        recommends
            self is Branch,
    {
        match self {
            Node::Branch { prefix, left, right } => *left,
            Node::Leaf { key, value } => vstd::pervasive::arbitrary(),
        }
    }

    /// The right child of a branch.
    pub open spec fn right_node(self) -> Node<V>
        recommends
            self is Branch,
    {
        match self {
            Node::Branch { prefix, left, right } => *right,
            Node::Leaf { key, value } => vstd::pervasive::arbitrary(),
        }
    }

    /// The value stored in a leaf.
    pub open spec fn leaf_value(self) -> V
        recommends
            self is Leaf,
    {
        match self {
            Node::Leaf { key, value } => value,
            Node::Branch { prefix, left, right } => vstd::pervasive::arbitrary(),
        }
    }

    /// The diagnostic rendering of the subtree: a leaf as its key, a branch
    /// as its prefix with both children rendered recursively.
    pub open spec fn rendered(self) -> Seq<char>
        decreases self,
    {
        match self {
            Node::Leaf { key, value } => "(Leaf "@ + bits_chars(key@) + ")"@,
            Node::Branch { prefix, left, right } => "(Branch prefix: "@ + bits_chars(prefix@)
                + " Left: "@ + (*left).rendered() + " Right: "@ + (*right).rendered() + ")"@,
        }
    }

    /// Renders the subtree as text, for debugging only: not meant to be
    /// parsed back.
    pub fn to_string(&self) -> (r: String)
        ensures
            r@ == self.rendered(),
        decreases *self,
    {
        match self {
            Node::Leaf { key, value: _ } => {
                let mut s = String::new();
                s.append("(Leaf ");
                let ks = key.bit_string();
                s.append(ks.as_str());
                s.append(")");
                proof {
                    assert(s@ =~= self.rendered());
                }
                s
            },
            Node::Branch { prefix, left, right } => {
                let left_ref = rc_as_ref(left);
                let right_ref = rc_as_ref(right);
                let mut s = String::new();
                s.append("(Branch prefix: ");
                let ps = prefix.bit_string();
                s.append(ps.as_str());
                s.append(" Left: ");
                let ls = left_ref.to_string();
                s.append(ls.as_str());
                s.append(" Right: ");
                let rs = right_ref.to_string();
                s.append(rs.as_str());
                s.append(")");
                proof {
                    assert(s@ =~= self.rendered());
                }
                s
            },
        }
    }
}

impl<V> Node<V> {
    /// Recursive descent by the bit right after each branch prefix. Returns
    /// the node whose representative sequence equals `lookup_key`: the leaf
    /// holding `lookup_key` when the key is stored, the branch whose prefix
    /// is `lookup_key` when the stored keys fork exactly there (never a
    /// stored value), and nothing otherwise.
    pub fn find_node_by_key<'a>(
        maybe_node: Option<&'a Rc<Node<V>>>,
        lookup_key: &BitVec,
    ) -> (r: Option<&'a Rc<Node<V>>>)
        requires
            opt_ref_wf(maybe_node),
        ensures
            opt_ref_map(maybe_node).dom().contains(lookup_key@) <==> (r matches Some(n)
                && (**n) is Leaf),
            r is Some <==> opt_ref_map(maybe_node).dom().contains(lookup_key@) || forks_at(
                opt_ref_map(maybe_node),
                lookup_key@,
            ),
            maybe_node is None ==> r is None,
            r matches Some(n) ==> (**n).repr() == lookup_key@,
            r matches Some(n) ==> ((**n) is Leaf ==> opt_ref_map(maybe_node)[lookup_key@] == (
            **n).leaf_value()),
    {
        if let Some(node) = maybe_node {
            Self::find_node_in(node, lookup_key)
        } else {
            proof {
                if forks_at(Map::<Seq<bool>, V>::empty(), lookup_key@) {
                    let (k1, k2) = choose|k1: Seq<bool>, k2: Seq<bool>|
                        Map::<Seq<bool>, V>::empty().dom().contains(k1) && Map::<
                            Seq<bool>,
                            V,
                        >::empty().dom().contains(k2) && is_prefix(lookup_key@.push(false), k1)
                            && is_prefix(lookup_key@.push(true), k2);
                    assert(false);
                }
            }
            None
        }
    }

    /// The descent of `find_node_by_key`, on a necessarily non-empty
    /// subtree.
    fn find_node_in<'a>(node: &'a Rc<Node<V>>, lookup_key: &BitVec) -> (r: Option<
        &'a Rc<Node<V>>,
    >)
        requires
            (**node).wf(),
        ensures
            (**node).as_map().dom().contains(lookup_key@) <==> (r matches Some(n)
                && (**n) is Leaf),
            r is Some <==> (**node).as_map().dom().contains(lookup_key@) || forks_at(
                (**node).as_map(),
                lookup_key@,
            ),
            r matches Some(n) ==> (**n).repr() == lookup_key@,
            r matches Some(n) ==> ((**n) is Leaf ==> (**node).as_map()[lookup_key@] == (
            **n).leaf_value()),
        decreases **node,
    {
        let node_ref = rc_as_ref(node);
        let ghost m = node_ref.as_map();
        match node_ref {
            Node::Leaf { key, value: _ } => {
                let ghost stored = key@;
                if key.equals(lookup_key) {
                    Some(node)
                } else {
                    proof {
                        // One stored key cannot fork: it would have to carry
                        // both bits right after `lookup_key`.
                        if forks_at(m, lookup_key@) {
                            let (k1, k2) = choose|k1: Seq<bool>, k2: Seq<bool>|
                                m.dom().contains(k1) && m.dom().contains(k2) && is_prefix(
                                    lookup_key@.push(false),
                                    k1,
                                ) && is_prefix(lookup_key@.push(true), k2);
                            assert(k1 == stored && k2 == stored);
                            lemma_prefix_unpush(lookup_key@, false, k1);
                            lemma_prefix_unpush(lookup_key@, true, k2);
                            assert(false);
                        }
                    }
                    None
                }
            },
            Node::Branch { prefix, left, right } => {
                let ghost lnode = node_ref.left_node();
                let ghost rnode = node_ref.right_node();
                let ghost p = prefix@;
                proof {
                    assert(**node == *node_ref);
                    lemma_map_basics(lnode);
                    lemma_map_basics(rnode);
                    lemma_children_disjoint(p, lnode, rnode);
                    assert(m == lnode.as_map().union_prefer_right(rnode.as_map()));
                }
                if prefix.len() < lookup_key.len() {
                    let branching_bit = lookup_key.get(prefix.len());
                    proof {
                        // A fork at `lookup_key` lies wholly in the child the
                        // bit selects: everything past `lookup_key` agrees
                        // with it at the branching position.
                        if forks_at(m, lookup_key@) {
                            let (k1, k2) = choose|k1: Seq<bool>, k2: Seq<bool>|
                                m.dom().contains(k1) && m.dom().contains(k2) && is_prefix(
                                    lookup_key@.push(false),
                                    k1,
                                ) && is_prefix(lookup_key@.push(true), k2);
                            lemma_prefix_unpush(lookup_key@, false, k1);
                            lemma_prefix_unpush(lookup_key@, true, k2);
                            assert(k1[p.len() as int] == lookup_key@[p.len() as int]);
                            assert(k2[p.len() as int] == lookup_key@[p.len() as int]);
                            if lnode.as_map().dom().contains(k1) {
                                lemma_prefix_unpush(p, false, k1);
                            } else {
                                lemma_prefix_unpush(p, true, k1);
                            }
                            if lnode.as_map().dom().contains(k2) {
                                lemma_prefix_unpush(p, false, k2);
                            } else {
                                lemma_prefix_unpush(p, true, k2);
                            }
                            if !branching_bit {
                                assert(lnode.as_map().dom().contains(k1));
                                assert(lnode.as_map().dom().contains(k2));
                                assert(forks_at(lnode.as_map(), lookup_key@));
                            } else {
                                assert(rnode.as_map().dom().contains(k1));
                                assert(rnode.as_map().dom().contains(k2));
                                assert(forks_at(rnode.as_map(), lookup_key@));
                            }
                        }
                        if forks_at(lnode.as_map(), lookup_key@) {
                            let (k1, k2) = choose|k1: Seq<bool>, k2: Seq<bool>|
                                lnode.as_map().dom().contains(k1) && lnode.as_map().dom().contains(
                                    k2,
                                ) && is_prefix(lookup_key@.push(false), k1) && is_prefix(
                                    lookup_key@.push(true),
                                    k2,
                                );
                            assert(m.dom().contains(k1) && m.dom().contains(k2));
                            assert(forks_at(m, lookup_key@));
                        }
                        if forks_at(rnode.as_map(), lookup_key@) {
                            let (k1, k2) = choose|k1: Seq<bool>, k2: Seq<bool>|
                                rnode.as_map().dom().contains(k1) && rnode.as_map().dom().contains(
                                    k2,
                                ) && is_prefix(lookup_key@.push(false), k1) && is_prefix(
                                    lookup_key@.push(true),
                                    k2,
                                );
                            assert(m.dom().contains(k1) && m.dom().contains(k2));
                            assert(forks_at(m, lookup_key@));
                        }
                    }
                    let r = if !branching_bit {
                        proof {
                            if rnode.as_map().dom().contains(lookup_key@) {
                                lemma_prefix_unpush(p, true, lookup_key@);
                            }
                        }
                        Self::find_node_in(left, lookup_key)
                    } else {
                        proof {
                            if lnode.as_map().dom().contains(lookup_key@) {
                                lemma_prefix_unpush(p, false, lookup_key@);
                            }
                        }
                        Self::find_node_in(right, lookup_key)
                    };
                    r
                } else if prefix.equals(lookup_key) {
                    proof {
                        // No stored key equals a branch prefix: every key
                        // beneath is strictly longer.
                        if lnode.as_map().dom().contains(lookup_key@) {
                            lemma_prefix_unpush(p, false, lookup_key@);
                        }
                        if rnode.as_map().dom().contains(lookup_key@) {
                            lemma_prefix_unpush(p, true, lookup_key@);
                        }
                        // The two children are themselves the fork at
                        // `lookup_key`.
                        let w0 = lnode.as_map().dom().choose();
                        assert(lnode.as_map().dom().contains(w0));
                        let w1 = rnode.as_map().dom().choose();
                        assert(rnode.as_map().dom().contains(w1));
                        assert(m.dom().contains(w0) && m.dom().contains(w1));
                        assert(is_prefix(lookup_key@.push(false), w0));
                        assert(is_prefix(lookup_key@.push(true), w1));
                        assert(forks_at(m, lookup_key@));
                    }
                    Some(node)
                } else {
                    proof {
                        if m.dom().contains(lookup_key@) {
                            lemma_map_basics(*node_ref);
                            assert(is_prefix(p, lookup_key@));
                            assert(p =~= lookup_key@);
                        }
                        // No fork either: its keys would put `lookup_key`
                        // strictly inside the prefix, whose bit there cannot
                        // be both `false` and `true`.
                        if forks_at(m, lookup_key@) {
                            let (k1, k2) = choose|k1: Seq<bool>, k2: Seq<bool>|
                                m.dom().contains(k1) && m.dom().contains(k2) && is_prefix(
                                    lookup_key@.push(false),
                                    k1,
                                ) && is_prefix(lookup_key@.push(true), k2);
                            lemma_prefix_unpush(lookup_key@, false, k1);
                            lemma_prefix_unpush(lookup_key@, true, k2);
                            lemma_map_basics(*node_ref);
                            lemma_prefix_comparable(lookup_key@, p, k1);
                            if lookup_key@.len() == p.len() {
                                assert(lookup_key@ =~= p);
                            }
                            assert(p[lookup_key@.len() as int] == k1[lookup_key@.len() as int]);
                            assert(p[lookup_key@.len() as int] == k2[lookup_key@.len() as int]);
                            assert(false);
                        }
                    }
                    None
                }
            },
        }
    }

    /// Core primitive of insert and removal. Applies `op` at the position of
    /// `key` in the subtree and returns the updated subtree: a new path down
    /// to the change, with every untouched sibling shared unchanged.
    pub fn update_node_by_key(maybe_node: Option<Rc<Node<V>>>, key: &BitVec, op: UpdateOp<V>) -> (r:
        Option<Rc<Node<V>>>)
        requires
            opt_wf(maybe_node),
            op is Insert ==> key_fits(opt_map(maybe_node), key@),
        ensures
            opt_wf(r),
            opt_map(r) == apply_update(opt_map(maybe_node), key@, op),
    {
        match maybe_node {
            Some(node) => Self::update_in(node, key, op),
            None => match op {
                UpdateOp::Insert(v) => {
                    let r = Some(Rc::new(Node::Leaf { key: key.clone(), value: v }));
                    proof {
                        assert(opt_map(r) =~= Map::<Seq<bool>, V>::empty().insert(key@, v));
                    }
                    r
                },
                UpdateOp::Remove => {
                    proof {
                        assert(Map::<Seq<bool>, V>::empty().remove(key@)
                            =~= Map::<Seq<bool>, V>::empty());
                    }
                    None
                },
            },
        }
    }

    /// The descent of `update_node_by_key`, on a necessarily non-empty
    /// subtree.
    fn update_in(node: Rc<Node<V>>, key: &BitVec, op: UpdateOp<V>) -> (r: Option<Rc<Node<V>>>)
        requires
            (*node).wf(),
            op is Insert ==> key_fits((*node).as_map(), key@),
        ensures
            opt_wf(r),
            opt_map(r) == apply_update((*node).as_map(), key@, op),
        decreases *node,
    {
        let node_ref = rc_as_ref(&node);
        let ghost m = node_ref.as_map();
        match node_ref {
            Node::Leaf { key: node_key, value: _ } => {
                let ghost stored = node_key@;
                if node_key.equals(key) {
                    match op {
                        UpdateOp::Insert(v) => {
                            let r = Some(Rc::new(Node::Leaf { key: key.clone(), value: v }));
                            proof {
                                assert(opt_map(r) =~= m.insert(key@, v));
                            }
                            r
                        },
                        UpdateOp::Remove => {
                            proof {
                                assert(m.remove(key@) =~= Map::<Seq<bool>, V>::empty());
                            }
                            None
                        },
                    }
                } else {
                    proof {
                        assert(m.dom().contains(stored));
                        if is_prefix(key@, stored) && key@.len() == stored.len() {
                            assert(key@ =~= stored);
                        }
                        if is_prefix(stored, key@) && key@.len() == stored.len() {
                            assert(stored =~= key@);
                        }
                    }
                    match op {
                        UpdateOp::Insert(v) => {
                            let new_node = Rc::new(Node::Leaf { key: key.clone(), value: v });
                            let merged = Some(Rc::new(Node::make_branch(new_node, node)));
                            proof {
                                assert(opt_map(merged) =~= m.insert(key@, v));
                            }
                            merged
                        },
                        UpdateOp::Remove => {
                            proof {
                                assert(m.remove(key@) =~= m);
                            }
                            Some(node)
                        },
                    }
                }
            },
            Node::Branch { prefix, left, right } => {
                let ghost lnode = node_ref.left_node();
                let ghost rnode = node_ref.right_node();
                let ghost p = prefix@;
                proof {
                    assert(*node == *node_ref);
                    lemma_map_basics(lnode);
                    lemma_map_basics(rnode);
                    lemma_children_disjoint(p, lnode, rnode);
                    assert(m == lnode.as_map().union_prefer_right(rnode.as_map()));
                }
                if key.begins_with(prefix) && prefix.len() < key.len() {
                    proof {
                        assert(p.push(key@[p.len() as int]) =~= key@.subrange(
                            0,
                            p.len() as int + 1,
                        ));
                    }
                    let branching_bit = key.get(prefix.len());
                    if !branching_bit {
                        proof {
                            assert forall|k: Seq<bool>| #[trigger]
                                lnode.as_map().dom().contains(k) implies m.dom().contains(
                                k,
                            ) by {}
                        }
                        let maybe_new_left = Self::update_in(rc_clone(left), key, op);
                        match maybe_new_left {
                            Some(new_left) => {
                                let nl_ref = rc_as_ref(&new_left);
                                proof {
                                    assert forall|k: Seq<bool>| #[trigger]
                                        nl_ref.as_map().dom().contains(k) implies is_prefix(
                                        p.push(false),
                                        k,
                                    ) by {
                                        if k != key@ {
                                            assert(lnode.as_map().dom().contains(k));
                                        }
                                    }
                                    lemma_repr_extends(*nl_ref, p.push(false));
                                    lemma_repr_extends(rnode, p.push(true));
                                    lemma_prefix_diverge(p, nl_ref.repr(), rnode.repr());
                                }
                                let merged = Some(
                                    Rc::new(Node::make_branch(new_left, rc_clone(right))),
                                );
                                proof {
                                    if rnode.as_map().dom().contains(key@) {
                                        lemma_prefix_unpush(p, true, key@);
                                    }
                                    assert(opt_map(merged) =~= apply_update(m, key@, op));
                                }
                                merged
                            },
                            None => {
                                proof {
                                    if op is Insert {
                                        assert(apply_update(lnode.as_map(), key@, op)
                                            .dom().contains(key@));
                                        assert(false);
                                    }
                                    if rnode.as_map().dom().contains(key@) {
                                        lemma_prefix_unpush(p, true, key@);
                                    }
                                    assert(op is Remove);
                                    assert(lnode.as_map().remove(key@) =~= Map::<
                                        Seq<bool>,
                                        V,
                                    >::empty());
                                    assert forall|k: Seq<bool>| #[trigger]
                                        m.dom().contains(k) && k != key@ implies rnode.as_map()
                                        .dom().contains(k) by {
                                        if lnode.as_map().dom().contains(k) {
                                            assert(lnode.as_map().remove(key@).dom().contains(k));
                                        }
                                    }
                                    assert(m.remove(key@) =~= rnode.as_map());
                                }
                                Some(rc_clone(right))
                            },
                        }
                    } else {
                        proof {
                            assert forall|k: Seq<bool>| #[trigger]
                                rnode.as_map().dom().contains(k) implies m.dom().contains(
                                k,
                            ) by {}
                        }
                        let maybe_new_right = Self::update_in(rc_clone(right), key, op);
                        match maybe_new_right {
                            Some(new_right) => {
                                let nr_ref = rc_as_ref(&new_right);
                                proof {
                                    assert forall|k: Seq<bool>| #[trigger]
                                        nr_ref.as_map().dom().contains(k) implies is_prefix(
                                        p.push(true),
                                        k,
                                    ) by {
                                        if k != key@ {
                                            assert(rnode.as_map().dom().contains(k));
                                        }
                                    }
                                    lemma_repr_extends(*nr_ref, p.push(true));
                                    lemma_repr_extends(lnode, p.push(false));
                                    lemma_prefix_diverge(p, lnode.repr(), nr_ref.repr());
                                }
                                let merged = Some(
                                    Rc::new(Node::make_branch(rc_clone(left), new_right)),
                                );
                                proof {
                                    if lnode.as_map().dom().contains(key@) {
                                        lemma_prefix_unpush(p, false, key@);
                                    }
                                    assert(opt_map(merged) =~= apply_update(m, key@, op));
                                }
                                merged
                            },
                            None => {
                                proof {
                                    if op is Insert {
                                        assert(apply_update(rnode.as_map(), key@, op)
                                            .dom().contains(key@));
                                        assert(false);
                                    }
                                    if lnode.as_map().dom().contains(key@) {
                                        lemma_prefix_unpush(p, false, key@);
                                    }
                                    assert(op is Remove);
                                    assert(rnode.as_map().remove(key@) =~= Map::<
                                        Seq<bool>,
                                        V,
                                    >::empty());
                                    assert forall|k: Seq<bool>| #[trigger]
                                        m.dom().contains(k) && k != key@ implies lnode.as_map()
                                        .dom().contains(k) by {
                                        if rnode.as_map().dom().contains(k) {
                                            assert(rnode.as_map().remove(key@).dom().contains(k));
                                        }
                                    }
                                    assert(m.remove(key@) =~= lnode.as_map());
                                }
                                Some(rc_clone(left))
                            },
                        }
                    }
                } else {
                    proof {
                        // `key` diverges from the prefix, or ends at or
                        // inside it: it is stored nowhere beneath, since
                        // every key here strictly extends the prefix.
                        if m.dom().contains(key@) {
                            lemma_map_basics(*node_ref);
                            assert(is_prefix(p, key@));
                            if lnode.as_map().dom().contains(key@) {
                                lemma_prefix_unpush(p, false, key@);
                            } else {
                                lemma_prefix_unpush(p, true, key@);
                            }
                            assert(false);
                        }
                    }
                    match op {
                        UpdateOp::Insert(v) => {
                            proof {
                                // The new key and the branch prefix diverge:
                                // were either a prefix of the other, the key
                                // would be a strict prefix of a stored key.
                                if is_prefix(p, key@) {
                                    assert(key@ =~= p);
                                    let w = lnode.as_map().dom().choose();
                                    assert(lnode.as_map().dom().contains(w));
                                    assert(m.dom().contains(w));
                                    lemma_prefix_unpush(p, false, w);
                                    assert(is_strict_prefix(key@, w));
                                    assert(false);
                                }
                                if is_prefix(key@, p) {
                                    let w = lnode.as_map().dom().choose();
                                    assert(lnode.as_map().dom().contains(w));
                                    assert(m.dom().contains(w));
                                    lemma_prefix_unpush(p, false, w);
                                    lemma_prefix_trans(key@, p, w);
                                    assert(is_strict_prefix(key@, w));
                                    assert(false);
                                }
                            }
                            let new_node = Rc::new(Node::Leaf { key: key.clone(), value: v });
                            let merged = Some(Rc::new(Node::make_branch(new_node, node)));
                            proof {
                                assert(opt_map(merged) =~= m.insert(key@, v));
                            }
                            merged
                        },
                        UpdateOp::Remove => {
                            proof {
                                assert(m.remove(key@) =~= m);
                            }
                            Some(node)
                        },
                    }
                }
            },
        }
    }

    /// Lookup of a stored key: `find_node_by_key`, rejecting a match that is
    /// a branch rather than a leaf.
    pub fn find_leaf_by_key<'a>(
        maybe_node: Option<&'a Rc<Node<V>>>,
        lookup_key: &BitVec,
    ) -> (r: Option<&'a Rc<Node<V>>>)
        requires
            opt_ref_wf(maybe_node),
        ensures
            opt_ref_map(maybe_node).dom().contains(lookup_key@) <==> r is Some,
            r matches Some(n) ==> (**n) is Leaf && (**n).repr() == lookup_key@ && opt_ref_map(
                maybe_node,
            )[lookup_key@] == (**n).leaf_value(),
    {
        if let Some(found_node) = Self::find_node_by_key(maybe_node, lookup_key) {
            return match rc_as_ref(found_node) {
                Node::Leaf { key: _, value: _ } => Some(found_node),
                Node::Branch { prefix: _, left: _, right: _ } => None,
            };
        }
        None
    }
}

/// A well-formed subtree stores at least one key, finitely many in all, and
/// each of them extends the node's representative sequence.
pub proof fn lemma_map_basics<V>(n: Node<V>)
    requires
        n.wf(),
    ensures
        n.as_map().dom().finite(),
        n.as_map().dom().len() >= 1,
        forall|k: Seq<bool>| #[trigger] n.as_map().dom().contains(k) ==> is_prefix(n.repr(), k),
    decreases n,
{
    if n is Leaf {
        assert(n.as_map().dom() =~= Set::empty().insert(n.repr()));
        lemma_prefix_refl(n.repr());
    } else {
        let p = n.repr();
        let l = n.left_node();
        let r = n.right_node();
        assert(n.as_map() == l.as_map().union_prefer_right(r.as_map()));
        lemma_map_basics(l);
        lemma_map_basics(r);
        assert(n.as_map().dom() =~= l.as_map().dom() + r.as_map().dom());
        lemma_children_disjoint(p, l, r);
        lemma_set_disjoint_lens(l.as_map().dom(), r.as_map().dom());
        assert forall|k: Seq<bool>| #[trigger]
            n.as_map().dom().contains(k) implies is_prefix(n.repr(), k) by {
            if l.as_map().dom().contains(k) {
                lemma_prefix_unpush(p, false, k);
            } else {
                lemma_prefix_unpush(p, true, k);
            }
        }
        let w = l.as_map().dom().choose();
        assert(l.as_map().dom().contains(w));
        assert(n.as_map().dom().contains(w));
    }
}

/// Any common prefix of all keys of a well-formed subtree is a prefix of the
/// node's representative sequence.
pub proof fn lemma_repr_extends<V>(n: Node<V>, q: Seq<bool>)
    requires
        n.wf(),
        forall|k: Seq<bool>| #[trigger] n.as_map().dom().contains(k) ==> is_prefix(q, k),
    ensures
        is_prefix(q, n.repr()),
{
    if n is Leaf {
        assert(n.as_map().dom().contains(n.repr()));
    } else {
        let p = n.repr();
        let l = n.left_node();
        let r = n.right_node();
        lemma_map_basics(l);
        lemma_map_basics(r);
        let k0 = l.as_map().dom().choose();
        assert(l.as_map().dom().contains(k0));
        let k1 = r.as_map().dom().choose();
        assert(r.as_map().dom().contains(k1));
        assert(n.as_map().dom().contains(k0));
        assert(n.as_map().dom().contains(k1));
        lemma_prefix_unpush(p, false, k0);
        lemma_prefix_unpush(p, true, k1);
        if q.len() > p.len() {
            // `q` would cover the branching position in both `k0` and `k1`,
            // which disagree there.
            assert(forall|i: int| 0 <= i < q.len() ==> q[i] == #[trigger] k0[i]);
            assert(forall|i: int| 0 <= i < q.len() ==> q[i] == #[trigger] k1[i]);
            assert(k0[p.len() as int] == false);
            assert(k1[p.len() as int] == true);
            assert(false);
        }
        lemma_prefix_comparable(q, p, k0);
    }
}

/// The keys of the two children of a well-formed branch are disjoint: they
/// disagree at the branching position.
pub proof fn lemma_children_disjoint<V>(prefix: Seq<bool>, left: Node<V>, right: Node<V>)
    requires
        forall|k: Seq<bool>|
            left.as_map().dom().contains(k) ==> is_prefix(prefix.push(false), k),
        forall|k: Seq<bool>|
            right.as_map().dom().contains(k) ==> is_prefix(prefix.push(true), k),
    ensures
        left.as_map().dom().disjoint(right.as_map().dom()),
{
    assert forall|k: Seq<bool>|
        left.as_map().dom().contains(k) implies !right.as_map().dom().contains(k) by {
        lemma_prefix_unpush(prefix, false, k);
        if right.as_map().dom().contains(k) {
            lemma_prefix_unpush(prefix, true, k);
        }
    }
}

/// The post-order entry sequence of a well-formed subtree lists exactly the
/// stored pairs: every entry is a stored pair, no key repeats, every stored
/// key appears, and the count equals the size of the map.
pub proof fn lemma_entries_correspond<V>(n: Node<V>)
    requires
        n.wf(),
    ensures
        n.entries().len() == n.as_map().dom().len(),
        forall|i: int|
            0 <= i < n.entries().len() ==> #[trigger] n.as_map().contains_pair(
                n.entries()[i].0,
                n.entries()[i].1,
            ),
        forall|i: int, j: int|
            0 <= i < j < n.entries().len() ==> n.entries()[i].0 != n.entries()[j].0,
        forall|k: Seq<bool>|
            #[trigger] n.as_map().dom().contains(k) ==> exists|i: int|
                0 <= i < n.entries().len() && n.entries()[i].0 == k,
    decreases n,
{
    lemma_map_basics(n);
    if n is Leaf {
        assert(n.as_map().dom() =~= Set::empty().insert(n.repr()));
        assert(n.entries()[0].0 == n.repr());
        assert(n.as_map().contains_pair(n.repr(), n.leaf_value()));
    } else {
        let p = n.repr();
        let l = n.left_node();
        let r = n.right_node();
        let le = l.entries();
        let re = r.entries();
        lemma_map_basics(l);
        lemma_map_basics(r);
        lemma_children_disjoint(p, l, r);
        lemma_entries_correspond(l);
        lemma_entries_correspond(r);
        assert(n.entries() == le + re);
        assert(n.as_map().dom() =~= l.as_map().dom() + r.as_map().dom());
        lemma_set_disjoint_lens(l.as_map().dom(), r.as_map().dom());
        assert forall|i: int| 0 <= i < n.entries().len() implies #[trigger] n.as_map()
            .contains_pair(n.entries()[i].0, n.entries()[i].1) by {
            if i < le.len() {
                assert(l.as_map().contains_pair(le[i].0, le[i].1));
                assert(!r.as_map().dom().contains(le[i].0));
            } else {
                assert(r.as_map().contains_pair(re[i - le.len()].0, re[i - le.len()].1));
            }
        }
        assert forall|i: int, j: int|
            0 <= i < j < n.entries().len() implies n.entries()[i].0 != n.entries()[j].0 by {
            if i < le.len() && j >= le.len() {
                assert(l.as_map().contains_pair(le[i].0, le[i].1));
                assert(r.as_map().contains_pair(re[j - le.len()].0, re[j - le.len()].1));
                assert(!r.as_map().dom().contains(le[i].0));
            }
        }
        assert forall|k: Seq<bool>| #[trigger] n.as_map().dom().contains(k) implies exists|i: int|
            0 <= i < n.entries().len() && n.entries()[i].0 == k by {
            if l.as_map().dom().contains(k) {
                let i = choose|i: int| 0 <= i < le.len() && le[i].0 == k;
                assert(n.entries()[i].0 == k);
            } else {
                let i = choose|i: int| 0 <= i < re.len() && re[i].0 == k;
                assert(n.entries()[i + le.len()].0 == k);
            }
        }
    }
}

impl<V> Node<V> {
    /// The representative bit sequence of the node, executably: a leaf's
    /// key, a branch's prefix.
    pub fn key_or_prefix(&self) -> (r: &BitVec)
        ensures
            r@ == self.repr(),
    {
        match self {
            Node::Leaf { key, value: _ } => key,
            Node::Branch { prefix, left: _, right: _ } => prefix,
        }
    }

    /// Merges two subtrees whose representative sequences diverge into one
    /// branch, reusing both unchanged. The branching position is the length
    /// of their longest common prefix; the subtree carrying bit `false`
    /// there becomes the left child.
    pub fn make_branch(one: Rc<Node<V>>, other: Rc<Node<V>>) -> (r: Node<V>)
        requires
            (*one).wf(),
            (*other).wf(),
            !is_prefix((*one).repr(), (*other).repr()),
            !is_prefix((*other).repr(), (*one).repr()),
        ensures
            r.wf(),
            r is Branch,
            r.as_map() == (*one).as_map().union_prefer_right((*other).as_map()),
    {
        let n1 = rc_as_ref(&one);
        let n2 = rc_as_ref(&other);
        let v1 = n1.key_or_prefix();
        let v2 = n2.key_or_prefix();
        let common = BitVec::common_prefix(v1, v2);
        proof {
            if common@.len() == v1@.len() {
                assert(common@ =~= v1@);
            }
            if common@.len() == v2@.len() {
                assert(common@ =~= v2@);
            }
            lemma_map_basics(*n1);
            lemma_map_basics(*n2);
        }
        let branching_bit = common.len();
        let b1 = v1.get(branching_bit);
        let b2 = v2.get(branching_bit);
        proof {
            assert(b1 != b2);
            assert(common@.push(b1) =~= v1@.subrange(0, common@.len() as int + 1));
            assert(common@.push(b2) =~= v2@.subrange(0, common@.len() as int + 1));
            assert(is_prefix(common@.push(b1), v1@));
            assert(is_prefix(common@.push(b2), v2@));
            assert forall|k: Seq<bool>| #[trigger]
                (*one).as_map().dom().contains(k) implies is_prefix(common@.push(b1), k) by {
                lemma_prefix_trans(common@.push(b1), (*one).repr(), k);
            }
            assert forall|k: Seq<bool>| #[trigger]
                (*other).as_map().dom().contains(k) implies is_prefix(common@.push(b2), k) by {
                lemma_prefix_trans(common@.push(b2), (*other).repr(), k);
            }
        }
        let ghost one_map = n1.as_map();
        let ghost other_map = n2.as_map();
        let result = if !b1 {
            Node::Branch { prefix: common, left: one, right: other }
        } else {
            Node::Branch { prefix: common, left: other, right: one }
        };
        proof {
            lemma_children_disjoint(
                result.repr(),
                result.left_node(),
                result.right_node(),
            );
            assert(result.as_map() =~= one_map.union_prefer_right(other_map));
        }
        result
    }
}

} // verus!
