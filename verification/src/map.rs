//! An ordered map implemented as an AA tree: a simplified variation of a
//! red-black tree in which red (horizontal) links may only go to the right,
//! kept balanced by two local rotations (`skew` and `split`).
//!
//! Each node carries a balance level. The structural invariants are:
//! a node's left child sits exactly one level below it; its right child sits
//! at the same level (a horizontal link) or one below; and two consecutive
//! right-horizontal links never occur. Together with the search-order
//! invariant these bound the height logarithmically in the element count.

use core::cmp::Ordering;
use core::marker::PhantomData;
use vstd::prelude::*;

use crate::order::lt_under;
use crate::Bound;
use crate::order::natural;
use crate::order::navigates;
use crate::order::three_way;
use crate::order::Comparator;
use crate::order::Natural;
use vstd::laws_cmp::obeys_cmp;
use vstd::laws_eq::obeys_concrete_eq;

verus! {

/// One node of the tree: a key, its value, up to two owned children, and the
/// AA balance level (leaves are level 1).
pub struct TreeNode<K, V> {
    key: K,
    value: V,
    left: Option<Box<TreeNode<K, V>>>,
    right: Option<Box<TreeNode<K, V>>>,
    level: usize,
}

/// The map interpretation of an optional subtree.
pub closed spec fn opt_as_map<K, V>(node: Option<Box<TreeNode<K, V>>>) -> Map<K, V>
    decreases node,
{
    match node {
        None => Map::empty(),
        Some(n) => n.as_map(),
    }
}

/// The ascending key-value sequence of an optional subtree.
pub closed spec fn opt_seq<K, V>(node: Option<Box<TreeNode<K, V>>>) -> Seq<(K, V)>
    decreases node,
{
    match node {
        None => Seq::empty(),
        Some(n) => n.as_seq(),
    }
}

/// The AA level of an optional subtree: 0 for an empty one.
pub closed spec fn opt_level<K, V>(node: Option<Box<TreeNode<K, V>>>) -> int {
    match node {
        None => 0,
        Some(n) => n.level as int,
    }
}

/// The AA balance invariant of an optional subtree.
pub closed spec fn opt_aa_ok<K, V>(node: Option<Box<TreeNode<K, V>>>) -> bool {
    match node {
        None => true,
        Some(n) => n.aa_ok(),
    }
}

/// The search-order invariant of an optional subtree under `cmp`.
pub closed spec fn opt_ord_ok<K, V, C: Comparator<K>>(
    node: Option<Box<TreeNode<K, V>>>,
    cmp: C,
) -> bool {
    match node {
        None => true,
        Some(n) => n.ord_ok(cmp),
    }
}

impl<K, V> TreeNode<K, V> {
    /// The map this subtree holds: every key in it, bound to its value.
    pub closed spec fn as_map(self) -> Map<K, V>
        decreases self,
    {
        opt_as_map(self.left).union_prefer_right(opt_as_map(self.right)).insert(
            self.key,
            self.value,
        )
    }

    /// The key-value pairs of this subtree, in symmetric (ascending) order.
    pub closed spec fn as_seq(self) -> Seq<(K, V)>
        decreases self,
    {
        opt_seq(self.left) + seq![(self.key, self.value)] + opt_seq(self.right)
    }

    /// The AA balance invariant: levels start at 1 in the leaves, the left
    /// child is exactly one level down, the right child at most one level
    /// down, and a right-horizontal link is never followed by another.
    pub closed spec fn aa_ok(self) -> bool
        decreases self,
    {
        &&& self.level >= 1
        &&& opt_level(self.left) + 1 == self.level
        &&& (opt_level(self.right) == self.level || opt_level(self.right) + 1 == self.level)
        &&& (match self.right {
            Some(r) => opt_level(r.right) < self.level,
            None => true,
        })
        &&& (match self.left {
            Some(l) => l.aa_ok(),
            None => true,
        })
        &&& (match self.right {
            Some(r) => r.aa_ok(),
            None => true,
        })
    }

    /// The search-order invariant: keys in the left subtree come strictly
    /// before this node's key under `cmp`, keys in the right subtree strictly
    /// after, recursively.
    pub closed spec fn ord_ok<C: Comparator<K>>(self, cmp: C) -> bool
        decreases self,
    {
        &&& (forall|k: K|
            #[trigger] opt_as_map(self.left).dom().contains(k) ==> lt_under(cmp, k, self.key))
        &&& (forall|k: K|
            #[trigger] opt_as_map(self.right).dom().contains(k) ==> lt_under(cmp, self.key, k))
        &&& (match self.left {
            Some(l) => l.ord_ok(cmp),
            None => true,
        })
        &&& (match self.right {
            Some(r) => r.ord_ok(cmp),
            None => true,
        })
    }

    /// The level-1 node holding exactly `key` and `value`.
    pub closed spec fn leaf(key: K, value: V) -> TreeNode<K, V> {
        TreeNode { key, value, left: None, right: None, level: 1 }
    }

    /// Creates a new tree node: a leaf holding `key` and `value`.
    #[inline]
    pub fn new(key: K, value: V) -> (n: TreeNode<K, V>)
        ensures
            n == TreeNode::leaf(key, value),
    {
        TreeNode { key, value, left: None, right: None, level: 1 }
    }
}

/// An ordered map from keys `K` to values `V`, kept in the order that the
/// comparator `C` defines; by default the natural order of `K`.
pub struct TreeMap<K, V, C: Comparator<K> = Natural<K>> {
    root: Option<Box<TreeNode<K, V>>>,
    length: usize,
    cmp: C,
}

impl<K, V, C: Comparator<K>> View for TreeMap<K, V, C> {
    type V = Map<K, V>;

    closed spec fn view(&self) -> Map<K, V> {
        opt_as_map(self.root)
    }
}

impl<K, V, C: Comparator<K>> TreeMap<K, V, C> {
    /// The comparator value this map orders its keys by.
    pub closed spec fn spec_cmp(self) -> C {
        self.cmp
    }

    /// The map's contents in ascending key order.
    pub closed spec fn to_seq(self) -> Seq<(K, V)> {
        opt_seq(self.root)
    }

    /// Well-formedness: the comparator is a lawful total order, the AA
    /// balance invariants and the search-order invariant hold of every
    /// reachable node, and the stored count equals the number of nodes.
    /// Every constructor establishes this and every operation preserves it.
    pub closed spec fn well_formed(self) -> bool {
        &&& self.cmp.valid()
        &&& opt_aa_ok(self.root)
        &&& opt_ord_ok(self.root, self.cmp)
        &&& self.length == opt_seq(self.root).len()
    }

    /// Creates an empty `TreeMap` ordered according to the given comparator.
    pub fn with_comparator(cmp: C) -> (r: TreeMap<K, V, C>)
        requires
            cmp.valid(),
        ensures
            r.well_formed(),
            r@ == Map::<K, V>::empty(),
            r.to_seq() == Seq::<(K, V)>::empty(),
            r.spec_cmp() == cmp,
    {
        proof {
            assert(opt_as_map(None::<Box<TreeNode<K, V>>>) =~= Map::<K, V>::empty());
            assert(opt_seq(None::<Box<TreeNode<K, V>>>) =~= Seq::<(K, V)>::empty());
        }
        TreeMap { root: None, length: 0, cmp }
    }

    /// Returns the comparator according to which the `TreeMap` is ordered.
    pub fn comparator(&self) -> (r: &C)
        ensures
            *r == self.spec_cmp(),
    {
        &self.cmp
    }

    /// Return the number of elements in the map.
    pub fn len(&self) -> (r: usize)
        requires
            self.well_formed(),
        ensures
            r == self.to_seq().len(),
    {
        self.length
    }

    /// Return true if the map contains no elements.
    #[inline]
    pub fn is_empty(&self) -> (r: bool)
        requires
            self.well_formed(),
        ensures
            r <==> self.to_seq() == Seq::<(K, V)>::empty(),
    {
        proof {
            if self.to_seq().len() == 0 {
                assert(self.to_seq() =~= Seq::<(K, V)>::empty());
            }
        }
        self.length == 0
    }

    /// Clears the map, removing all values.
    pub fn clear(&mut self)
        requires
            old(self).well_formed(),
        ensures
            final(self).well_formed(),
            final(self)@ == Map::<K, V>::empty(),
            final(self).to_seq() == Seq::<(K, V)>::empty(),
            final(self).spec_cmp() == old(self).spec_cmp(),
    {
        proof {
            assert(opt_as_map(None::<Box<TreeNode<K, V>>>) =~= Map::<K, V>::empty());
            assert(opt_seq(None::<Box<TreeNode<K, V>>>) =~= Seq::<(K, V)>::empty());
        }
        self.root = None;
        self.length = 0;
    }

    /// Returns a reference to the value corresponding to the key.
    pub fn get(&self, key: &K) -> (r: Option<&V>)
        requires
            self.well_formed(),
        ensures
            (match r {
                Some(v) => self@.dom().contains(*key) && *v == self@[*key],
                None => !self@.dom().contains(*key),
            }),
    {
        let mut cur: &Option<Box<TreeNode<K, V>>> = &self.root;
        loop
            invariant
                self.well_formed(),
                opt_ord_ok(*cur, self.cmp),
                opt_as_map(*cur).dom().contains(*key) == self@.dom().contains(*key),
                opt_as_map(*cur).dom().contains(*key) ==> opt_as_map(*cur)[*key] == self@[*key],
            decreases opt_seq(*cur).len(),
        {
            match cur {
                None => {
                    return None;
                },
                Some(node) => {
                    proof {
                        lemma_as_seq_len_parts(**node);
                    }
                    match self.cmp.compare(key, &node.key) {
                        Ordering::Equal => {
                            proof {
                                assert(node.as_map().dom().contains(*key));
                                assert(node.as_map()[*key] == node.value);
                            }
                            return Some(&node.value);
                        },
                        Ordering::Less => {
                            proof {
                                if opt_as_map(node.right).dom().contains(*key) {
                                    self.cmp.lemma_antisymmetric(*key, node.key);
                                }
                                assert(opt_as_map(node.left).dom().contains(*key)
                                    == node.as_map().dom().contains(*key));
                            }
                            cur = &node.left;
                        },
                        Ordering::Greater => {
                            proof {
                                if opt_as_map(node.left).dom().contains(*key) {
                                    self.cmp.lemma_antisymmetric(node.key, *key);
                                }
                                assert(opt_as_map(node.right).dom().contains(*key)
                                    == node.as_map().dom().contains(*key));
                            }
                            cur = &node.right;
                        },
                    }
                },
            }
        }
    }

    /// Inserts a key-value pair into the map. If the key already had a value
    /// present in the map, that value is returned and replaced. Otherwise,
    /// `None` is returned.
    pub fn insert(&mut self, key: K, value: V) -> (r: Option<V>)
        requires
            old(self).well_formed(),
            old(self).to_seq().len() + 1 < usize::MAX as int,
        ensures
            final(self).well_formed(),
            final(self)@ == old(self)@.insert(key, value),
            final(self).spec_cmp() == old(self).spec_cmp(),
            (match r {
                Some(v) => old(self)@.dom().contains(key) && v == old(self)@[key] && final(self).to_seq().len() == old(self).to_seq().len(),
                None => !old(self)@.dom().contains(key) && final(self).to_seq().len() == old(self).to_seq().len() + 1,
            }),
    {
        let r = insert(&mut self.root, key, value, &self.cmp);
        if r.is_none() {
            self.length = self.length + 1;
        }
        r
    }

    /// Removes a key from the map, returning the value at the key if the key
    /// was previously in the map.
    pub fn remove(&mut self, key: &K) -> (r: Option<V>)
        requires
            old(self).well_formed(),
        ensures
            final(self).well_formed(),
            final(self)@ == old(self)@.remove(*key),
            final(self).spec_cmp() == old(self).spec_cmp(),
            (match r {
                Some(v) => old(self)@.dom().contains(*key) && v == old(self)@[*key] && final(self).to_seq().len() + 1 == old(self).to_seq().len(),
                None => !old(self)@.dom().contains(*key) && final(self).to_seq().len() == old(self).to_seq().len(),
            }),
    {
        let r = remove(&mut self.root, key, &self.cmp);
        if r.is_some() {
            self.length = self.length - 1;
        }
        r
    }

    /// Returns a mutable reference to the value corresponding to the key.
    pub fn get_mut(&mut self, key: &K) -> (r: Option<&mut V>)
        requires
            old(self).well_formed(),
        ensures
            (match r {
                Some(v) => old(self)@.dom().contains(*key) && *v == old(self)@[*key] && final(self)@ == old(self)@.insert(*key, *final(v)) && final(self).well_formed() && final(self).to_seq().len() == old(self).to_seq().len() && final(self).spec_cmp() == old(self).spec_cmp(),
                None => !old(self)@.dom().contains(*key) && *final(self) == *old(self),
            }),
    {
        node_get_mut(&mut self.root, key, &self.cmp)
    }

    /// Returns a reference to the value corresponding to the key, which must
    /// be present.
    pub fn index(&self, key: &K) -> (r: &V)
        requires
            self.well_formed(),
            self@.dom().contains(*key),
        ensures
            *r == self@[*key],
    {
        match self.get(key) {
            Some(v) => v,
            None => unreached(),
        }
    }

    /// Returns the value for which `f(key)` returns `Equal`. `f` is invoked
    /// with the current key and guides the tree navigation, so it should be
    /// aware of the tree's order: whenever `f` answers as the three-way
    /// comparison of some probe against its argument, the search finds
    /// exactly that probe's entry.
    #[inline]
    pub fn find_with<F: Fn(&K) -> Ordering>(&self, f: F) -> (r: Option<&V>)
        requires
            self.well_formed(),
            forall|k: K| #[trigger] call_requires(f, (&k,)),
        ensures
            (match r {
                Some(v) => exists|k: K|
                    #[trigger] call_ensures(f, (&k,), Ordering::Equal) && self@.dom().contains(k)
                        && self@[k] == *v,
                None => true,
            }),
            forall|probe: K| #[trigger]
                navigates(f, self.spec_cmp(), probe) ==> (match r {
                    Some(v) => self@.dom().contains(probe) && *v == self@[probe],
                    None => !self@.dom().contains(probe),
                }),
    {
        tree_find_with::<K, V, C, F>(&self.root, f, Ghost(self.cmp))
    }

    /// Returns a mutable reference to the value for which `f(key)` returns
    /// `Equal`, navigating as `find_with` does.
    #[inline]
    pub fn find_with_mut<F: Fn(&K) -> Ordering>(&mut self, f: F) -> (r: Option<&mut V>)
        requires
            old(self).well_formed(),
            forall|k: K| #[trigger] call_requires(f, (&k,)),
        ensures
            (match r {
                Some(v) => (exists|k: K|
                    #[trigger] call_ensures(f, (&k,), Ordering::Equal) && old(self)@.dom().contains(
                        k,
                    ) && old(self)@[k] == *v && final(self)@ == old(self)@.insert(k, *final(v)))
                    && final(self).well_formed() && final(self).to_seq().len() == old(self).to_seq().len() && final(self).spec_cmp() == old(self).spec_cmp(),
                None => *final(self) == *old(self),
            }),
            forall|probe: K| #[trigger]
                navigates(f, old(self).spec_cmp(), probe) ==> (match r {
                    Some(v) => old(self)@.dom().contains(probe) && *v == old(self)@[probe]
                        && final(self)@ == old(self)@.insert(probe, *final(v)),
                    None => !old(self)@.dom().contains(probe),
                }),
    {
        tree_find_with_mut::<K, V, C, F>(&mut self.root, f, Ghost(self.cmp))
    }

    /// If a value for `key` does not exist, create one by calling `default`.
    /// Returns a mutable reference to the new or existing value; `default`
    /// runs only when the key was absent.
    pub fn get_or_insert<F: FnOnce() -> V>(&mut self, key: K, default: F) -> (r: &mut V) where
        K: Copy,

        requires
            old(self).well_formed(),
            old(self).to_seq().len() + 1 < usize::MAX as int,
            call_requires(default, ()),
        ensures
            final(self).well_formed(),
            final(self).spec_cmp() == old(self).spec_cmp(),
            final(self)@ == old(self)@.insert(key, *final(r)),
            old(self)@.dom().contains(key) ==> *r == old(self)@[key] && final(self).to_seq().len()
                == old(self).to_seq().len(),
            !old(self)@.dom().contains(key) ==> call_ensures(default, (), *r) && final(self).to_seq().len() == old(self).to_seq().len() + 1,
    {
        let ghost m0 = self@;
        if !self.contains_key(&key) {
            let v = default();
            self.insert(key, v);
        }
        let ghost m1 = self@;
        proof {
            assert forall|nv: V| #[trigger] m1.insert(key, nv) == m0.insert(key, nv) by {
                assert(m1.insert(key, nv) =~= m0.insert(key, nv));
            }
        }
        match self.get_mut(&key) {
            Some(r) => r,
            None => unreached(),
        }
    }

    /// Extends the map with a sequence of key-value pairs; on a repeated
    /// key the later entry overwrites the earlier one.
    pub fn extend(&mut self, entries: Vec<(K, V)>)
        requires
            old(self).well_formed(),
            old(self).to_seq().len() + entries@.len() + 1 < usize::MAX as int,
        ensures
            final(self).well_formed(),
            final(self)@ == extended(old(self)@, entries@),
            final(self).spec_cmp() == old(self).spec_cmp(),
            final(self).to_seq().len() <= old(self).to_seq().len() + entries@.len(),
    {
        let mut entries = entries;
        let ghost entries0 = entries@;
        let ghost bound = old(self).to_seq().len() + entries@.len();
        while entries.len() > 0
            invariant
                self.well_formed(),
                self.spec_cmp() == old(self).spec_cmp(),
                self.to_seq().len() + entries@.len() <= bound,
                bound + 1 < usize::MAX as int,
                extended(self@, entries@) == extended(old(self)@, entries0),
            decreases entries@.len(),
        {
            let ghost pre = entries@;
            let pair = entries.remove(0);
            proof {
                assert(pre[0] == pair);
                assert(entries@ == pre.drop_first());
            }
            self.insert(pair.0, pair.1);
        }
        proof {
            assert(entries@.len() == 0);
            assert(extended(self@, entries@) == self@);
        }
    }

    /// Returns true if the map contains a value for the specified key.
    #[inline]
    pub fn contains_key(&self, key: &K) -> (r: bool)
        requires
            self.well_formed(),
        ensures
            r == self@.dom().contains(*key),
    {
        self.get(key).is_some()
    }
}

/// The in-order sequence of a node is its left part, itself, then its right
/// part; in particular it is longer than either child's sequence.
proof fn lemma_as_seq_len_parts<K, V>(node: TreeNode<K, V>)
    ensures
        node.as_seq().len() == opt_seq(node.left).len() + 1 + opt_seq(node.right).len(),
{
}

/// In a balanced subtree the level never exceeds the node count.
proof fn lemma_level_le_size<K, V>(node: TreeNode<K, V>)
    requires
        node.aa_ok(),
    ensures
        node.level <= node.as_seq().len(),
    decreases node,
{
    match node.left {
        Some(l) => lemma_level_le_size(*l),
        None => {},
    }
}

/// `u` is `t` rotated right: `t`'s left child has become the subtree root
/// and `t` itself its right child.
spec fn rot_right_rel<K, V>(t: TreeNode<K, V>, u: TreeNode<K, V>) -> bool {
    &&& t.left is Some
    &&& u.right is Some
    &&& ({
        let l = t.left.unwrap();
        let m = u.right.unwrap();
        &&& u.key == l.key
        &&& u.value == l.value
        &&& u.left == l.left
        &&& m.key == t.key
        &&& m.value == t.value
        &&& m.left == l.right
        &&& m.right == t.right
    })
}

/// `u` is `t` rotated left: `t`'s right child has become the subtree root
/// and `t` itself its left child.
spec fn rot_left_rel<K, V>(t: TreeNode<K, V>, u: TreeNode<K, V>) -> bool {
    &&& t.right is Some
    &&& u.left is Some
    &&& ({
        let r = t.right.unwrap();
        let m = u.left.unwrap();
        &&& u.key == r.key
        &&& u.value == r.value
        &&& u.right == r.right
        &&& m.key == t.key
        &&& m.value == t.value
        &&& m.left == t.left
        &&& m.right == r.left
    })
}

/// The keys of `s` are strictly ascending under `cmp`.
pub open spec fn sorted_by<K, V, C: Comparator<K>>(cmp: C, s: Seq<(K, V)>) -> bool {
    forall|i: int, j: int| 0 <= i < j < s.len() ==> lt_under(cmp, s[i].0, s[j].0)
}

/// In a well-ordered subtree the in-order sequence is strictly ascending and
/// carries exactly the subtree's map: a key is bound if and only if it occurs
/// in the sequence, to the value it is paired with there.
proof fn lemma_node_bridge<K, V, C: Comparator<K>>(cmp: C, node: TreeNode<K, V>)
    requires
        cmp.valid(),
        node.ord_ok(cmp),
    ensures
        sorted_by(cmp, node.as_seq()),
        forall|k: K|
            #[trigger] node.as_map().dom().contains(k) ==> exists|i: int|
                0 <= i < node.as_seq().len() && node.as_seq()[i].0 == k,
        forall|i: int|
            0 <= i < node.as_seq().len() ==> node.as_map().dom().contains(
                #[trigger] node.as_seq()[i].0,
            ) && node.as_map()[node.as_seq()[i].0] == node.as_seq()[i].1,
    decreases node,
{
    let lm = opt_as_map(node.left);
    let rm = opt_as_map(node.right);
    let ls = opt_seq(node.left);
    let rs = opt_seq(node.right);
    let s = node.as_seq();
    assert(s == ls + seq![(node.key, node.value)] + rs);
    assert(node.as_map() == lm.union_prefer_right(rm).insert(node.key, node.value));
    match node.left {
        Some(l) => {
            lemma_node_bridge(cmp, *l);
            assert(lm == l.as_map());
            assert(ls == l.as_seq());
        },
        None => {
            assert(lm.dom() =~= Set::<K>::empty());
        },
    }
    match node.right {
        Some(r) => {
            lemma_node_bridge(cmp, *r);
            assert(rm == r.as_map());
            assert(rs == r.as_seq());
        },
        None => {
            assert(rm.dom() =~= Set::<K>::empty());
        },
    }
    // keys of the left part, the node and the right part never collide
    assert forall|k: K| !(lm.dom().contains(k) && rm.dom().contains(k)) by {
        if lm.dom().contains(k) && rm.dom().contains(k) {
            cmp.lemma_antisymmetric(k, node.key);
        }
    }
    assert(!lm.dom().contains(node.key));
    assert(!rm.dom().contains(node.key));
    // every sequence slot is bound in the map, to the paired value
    assert forall|i: int| 0 <= i < s.len() implies node.as_map().dom().contains(s[i].0)
        && node.as_map()[s[i].0] == s[i].1 by {
        if i < ls.len() {
            assert(s[i] == ls[i]);
            assert(lm.dom().contains(ls[i].0));
            assert(lt_under(cmp, ls[i].0, node.key));
        } else if i == ls.len() {
            assert(s[i] == (node.key, node.value));
        } else {
            assert(s[i] == rs[i - ls.len() - 1]);
            assert(rm.dom().contains(s[i].0));
            assert(lt_under(cmp, node.key, s[i].0));
        }
    }
    // every bound key occurs in the sequence
    assert forall|k: K| #[trigger] node.as_map().dom().contains(k) implies exists|i: int|
        0 <= i < s.len() && s[i].0 == k by {
        if k == node.key {
            assert(s[ls.len() as int].0 == k);
        } else if lm.dom().contains(k) {
            let i = choose|i: int| 0 <= i < ls.len() && ls[i].0 == k;
            assert(s[i].0 == k);
        } else {
            assert(rm.dom().contains(k));
            let i = choose|i: int| 0 <= i < rs.len() && rs[i].0 == k;
            assert(s[ls.len() + 1 + i].0 == k);
        }
    }
    // ascending order across the three parts
    assert forall|i: int, j: int| 0 <= i < j < s.len() implies lt_under(cmp, s[i].0, s[j].0) by {
        let mid = ls.len() as int;
        if i < mid {
            assert(s[i] == ls[i]);
            assert(lm.dom().contains(ls[i].0));
            assert(lt_under(cmp, s[i].0, node.key));
        }
        if j < mid {
            assert(s[j] == ls[j]);
        }
        if i > mid {
            assert(s[i] == rs[i - mid - 1]);
            assert(rm.dom().contains(s[i].0));
        }
        if j > mid {
            assert(s[j] == rs[j - mid - 1]);
            assert(rm.dom().contains(s[j].0));
            assert(lt_under(cmp, node.key, s[j].0));
        }
        if i < mid && j > mid {
            crate::order::lemma_lt_under_transitive(cmp, s[i].0, node.key, s[j].0);
        }
    }
}

/// Two well-ordered subtrees with the same in-order sequence hold the same
/// map.
proof fn lemma_map_from_seq<K, V, C: Comparator<K>>(cmp: C, a: TreeNode<K, V>, b: TreeNode<K, V>)
    requires
        cmp.valid(),
        a.ord_ok(cmp),
        b.ord_ok(cmp),
        a.as_seq() == b.as_seq(),
    ensures
        a.as_map() == b.as_map(),
{
    lemma_node_bridge(cmp, a);
    lemma_node_bridge(cmp, b);
    assert forall|k: K| a.as_map().dom().contains(k) implies b.as_map().dom().contains(k)
        && b.as_map()[k] == a.as_map()[k] by {
        let i = choose|i: int| 0 <= i < a.as_seq().len() && a.as_seq()[i].0 == k;
        assert(b.as_map().dom().contains(b.as_seq()[i].0));
    }
    assert forall|k: K| b.as_map().dom().contains(k) implies a.as_map().dom().contains(k) by {
        let i = choose|i: int| 0 <= i < b.as_seq().len() && b.as_seq()[i].0 == k;
        assert(a.as_map().dom().contains(a.as_seq()[i].0));
    }
    assert(a.as_map() =~= b.as_map());
}

/// A right rotation keeps the in-order sequence, the map contents and the
/// search-order invariant of the subtree.
proof fn lemma_rot_right<K, V, C: Comparator<K>>(cmp: C, t: TreeNode<K, V>, u: TreeNode<K, V>)
    requires
        cmp.valid(),
        t.ord_ok(cmp),
        rot_right_rel(t, u),
    ensures
        u.as_seq() == t.as_seq(),
        u.as_map() == t.as_map(),
        u.ord_ok(cmp),
{
    let l = t.left.unwrap();
    let m = u.right.unwrap();
    assert(opt_as_map(t.left) == l.as_map());
    assert(opt_as_map(u.right) == m.as_map());
    assert(opt_seq(t.left) == l.as_seq());
    assert(opt_seq(u.right) == m.as_seq());
    assert(t.as_seq() == l.as_seq() + seq![(t.key, t.value)] + opt_seq(t.right));
    assert(u.as_seq() == opt_seq(l.left) + seq![(l.key, l.value)] + m.as_seq());
    assert(l.as_seq() == opt_seq(l.left) + seq![(l.key, l.value)] + opt_seq(l.right));
    assert(m.as_seq() == opt_seq(l.right) + seq![(t.key, t.value)] + opt_seq(t.right));
    assert(t.as_map() == opt_as_map(t.left).union_prefer_right(opt_as_map(t.right)).insert(
        t.key,
        t.value,
    ));
    assert(u.as_map() == opt_as_map(u.left).union_prefer_right(opt_as_map(u.right)).insert(
        u.key,
        u.value,
    ));
    assert(l.as_map() == opt_as_map(l.left).union_prefer_right(opt_as_map(l.right)).insert(
        l.key,
        l.value,
    ));
    assert(m.as_map() == opt_as_map(m.left).union_prefer_right(opt_as_map(m.right)).insert(
        m.key,
        m.value,
    ));
    assert(l.ord_ok(cmp));
    assert(u.as_seq() =~= t.as_seq());
    assert(l.as_map().dom().contains(l.key));
    assert(lt_under(cmp, l.key, t.key));
    // the lowered node `m` stays ordered
    assert forall|k: K| #[trigger] opt_as_map(m.left).dom().contains(k) implies lt_under(
        cmp,
        k,
        m.key,
    ) by {
        assert(l.as_map().dom().contains(k));
        assert(opt_as_map(t.left).dom().contains(k));
    }
    assert forall|k: K| #[trigger] opt_as_map(m.right).dom().contains(k) implies lt_under(
        cmp,
        m.key,
        k,
    ) by {
        assert(opt_as_map(t.right).dom().contains(k));
    }
    assert(m.ord_ok(cmp));
    // the raised node `u` stays ordered
    assert forall|k: K| #[trigger] opt_as_map(u.right).dom().contains(k) implies lt_under(
        cmp,
        u.key,
        k,
    ) by {
        assert(m.as_map().dom().contains(k));
        if k == m.key {
        } else if opt_as_map(m.left).dom().contains(k) {
            assert(opt_as_map(l.right).dom().contains(k));
        } else {
            assert(opt_as_map(m.right).dom().contains(k));
            assert(opt_as_map(t.right).dom().contains(k));
            crate::order::lemma_lt_under_transitive(cmp, u.key, t.key, k);
        }
    }
    assert(u.ord_ok(cmp));
    lemma_map_from_seq(cmp, u, t);
}

/// A left rotation keeps the in-order sequence, the map contents and the
/// search-order invariant of the subtree.
proof fn lemma_rot_left<K, V, C: Comparator<K>>(cmp: C, t: TreeNode<K, V>, u: TreeNode<K, V>)
    requires
        cmp.valid(),
        t.ord_ok(cmp),
        rot_left_rel(t, u),
    ensures
        u.as_seq() == t.as_seq(),
        u.as_map() == t.as_map(),
        u.ord_ok(cmp),
{
    let r = t.right.unwrap();
    let m = u.left.unwrap();
    assert(opt_as_map(t.right) == r.as_map());
    assert(opt_as_map(u.left) == m.as_map());
    assert(opt_seq(t.right) == r.as_seq());
    assert(opt_seq(u.left) == m.as_seq());
    assert(t.as_seq() == opt_seq(t.left) + seq![(t.key, t.value)] + r.as_seq());
    assert(u.as_seq() == m.as_seq() + seq![(r.key, r.value)] + opt_seq(r.right));
    assert(r.as_seq() == opt_seq(r.left) + seq![(r.key, r.value)] + opt_seq(r.right));
    assert(m.as_seq() == opt_seq(t.left) + seq![(t.key, t.value)] + opt_seq(r.left));
    assert(t.as_map() == opt_as_map(t.left).union_prefer_right(opt_as_map(t.right)).insert(
        t.key,
        t.value,
    ));
    assert(u.as_map() == opt_as_map(u.left).union_prefer_right(opt_as_map(u.right)).insert(
        u.key,
        u.value,
    ));
    assert(r.as_map() == opt_as_map(r.left).union_prefer_right(opt_as_map(r.right)).insert(
        r.key,
        r.value,
    ));
    assert(m.as_map() == opt_as_map(m.left).union_prefer_right(opt_as_map(m.right)).insert(
        m.key,
        m.value,
    ));
    assert(r.ord_ok(cmp));
    assert(u.as_seq() =~= t.as_seq());
    assert(r.as_map().dom().contains(r.key));
    assert(lt_under(cmp, t.key, r.key));
    // the lowered node `m` stays ordered
    assert forall|k: K| #[trigger] opt_as_map(m.right).dom().contains(k) implies lt_under(
        cmp,
        m.key,
        k,
    ) by {
        assert(r.as_map().dom().contains(k));
        assert(opt_as_map(t.right).dom().contains(k));
    }
    assert forall|k: K| #[trigger] opt_as_map(m.left).dom().contains(k) implies lt_under(
        cmp,
        k,
        m.key,
    ) by {
        assert(opt_as_map(t.left).dom().contains(k));
    }
    assert(m.ord_ok(cmp));
    // the raised node `u` stays ordered
    assert forall|k: K| #[trigger] opt_as_map(u.left).dom().contains(k) implies lt_under(
        cmp,
        k,
        u.key,
    ) by {
        assert(m.as_map().dom().contains(k));
        if k == m.key {
        } else if opt_as_map(m.right).dom().contains(k) {
            assert(opt_as_map(r.left).dom().contains(k));
        } else {
            assert(opt_as_map(m.left).dom().contains(k));
            assert(opt_as_map(t.left).dom().contains(k));
            crate::order::lemma_lt_under_transitive(cmp, k, t.key, u.key);
        }
    }
    assert(u.ord_ok(cmp));
    lemma_map_from_seq(cmp, u, t);
}

// Remove a left horizontal link by rotating right.
fn skew<K, V>(node: &mut TreeNode<K, V>)
    ensures
        ({
            let t = *old(node);
            let u = *final(node);
            if t.left is Some && t.left.unwrap().level == t.level {
                &&& rot_right_rel(t, u)
                &&& u.level == t.level
                &&& u.right.unwrap().level == t.level
                &&& u.as_seq() == t.as_seq()
            } else {
                u == t
            }
        }),
{
    let rotate = match &node.left {
        Some(l) => l.level == node.level,
        None => false,
    };
    if rotate {
        let mut save: Box<TreeNode<K, V>> = node.left.take().unwrap();
        core::mem::swap(&mut node.left, &mut save.right);
        core::mem::swap(node, &mut *save);
        node.right = Some(save);
        proof {
            let t = *old(node);
            let u = *node;
            let l = t.left.unwrap();
            let m = u.right.unwrap();
            assert(opt_seq(t.left) == l.as_seq());
            assert(opt_seq(u.right) == m.as_seq());
            assert(t.as_seq() == l.as_seq() + seq![(t.key, t.value)] + opt_seq(t.right));
            assert(u.as_seq() == opt_seq(l.left) + seq![(l.key, l.value)] + m.as_seq());
            assert(l.as_seq() == opt_seq(l.left) + seq![(l.key, l.value)] + opt_seq(l.right));
            assert(m.as_seq() == opt_seq(l.right) + seq![(t.key, t.value)] + opt_seq(t.right));
            assert(u.as_seq() =~= t.as_seq());
        }
    }
}

// Remove a double right horizontal link by rotating left and increasing the
// level of the new subtree root.
fn split<K, V>(node: &mut TreeNode<K, V>)
    requires
        opt_level(old(node).right) < usize::MAX as int,
    ensures
        ({
            let t = *old(node);
            let u = *final(node);
            if t.right is Some && t.right.unwrap().right is Some && t.right.unwrap().right.unwrap().level
                == t.level {
                &&& rot_left_rel(t, u)
                &&& u.level == t.right.unwrap().level + 1
                &&& u.left.unwrap().level == t.level
                &&& u.as_seq() == t.as_seq()
            } else {
                u == t
            }
        }),
{
    let rotate = match &node.right {
        Some(r) => match &r.right {
            Some(rr) => rr.level == node.level,
            None => false,
        },
        None => false,
    };
    if rotate {
        let mut save: Box<TreeNode<K, V>> = node.right.take().unwrap();
        core::mem::swap(&mut node.right, &mut save.left);
        save.level = save.level + 1;
        core::mem::swap(node, &mut *save);
        node.left = Some(save);
        proof {
            let t = *old(node);
            let u = *node;
            let r = t.right.unwrap();
            let m = u.left.unwrap();
            assert(opt_seq(t.right) == r.as_seq());
            assert(opt_seq(u.left) == m.as_seq());
            assert(t.as_seq() == opt_seq(t.left) + seq![(t.key, t.value)] + r.as_seq());
            assert(u.as_seq() == m.as_seq() + seq![(r.key, r.value)] + opt_seq(r.right));
            assert(r.as_seq() == opt_seq(r.left) + seq![(r.key, r.value)] + opt_seq(r.right));
            assert(m.as_seq() == opt_seq(t.left) + seq![(t.key, t.value)] + opt_seq(r.left));
            assert(u.as_seq() =~= t.as_seq());
        }
    }
}

impl<K, V> TreeNode<K, V> {
    /// Recursive insertion step at an occupied node: descend by the
    /// comparator, then rebalance with `skew` and `split` on the way out.
    fn insert_node<C: Comparator<K>>(&mut self, key: K, value: V, cmp: &C) -> (r: Option<V>)
        requires
            cmp.valid(),
            old(self).aa_ok(),
            old(self).ord_ok(*cmp),
            old(self).as_seq().len() + 1 < usize::MAX as int,
        ensures
            final(self).aa_ok(),
            final(self).ord_ok(*cmp),
            final(self).as_map() == old(self).as_map().insert(key, value),
            (match r {
                Some(v) => old(self).as_map().dom().contains(key) && v == old(self).as_map()[key]
                    && final(self).as_seq().len() == old(self).as_seq().len(),
                None => !old(self).as_map().dom().contains(key) && final(self).as_seq().len()
                    == old(self).as_seq().len() + 1,
            }),
            final(self).level == old(self).level || final(self).level == old(self).level + 1,
            final(self).level == old(self).level + 1 ==> opt_level(final(self).right)
                < final(self).level && opt_level(old(self).right) == old(self).level,
        decreases old(self).as_seq().len(), 0int,
    {
        proof {
            lemma_as_seq_len_parts(*old(self));
            lemma_level_le_size(*old(self));
        }
        match cmp.compare(&key, &self.key) {
            Ordering::Equal => {
                let mut v = value;
                core::mem::swap(&mut self.value, &mut v);
                proof {
                    let t = *old(self);
                    let u = *self;
                    assert(key == t.key);
                    assert(u.as_seq() == opt_seq(t.left) + seq![(t.key, value)] + opt_seq(t.right));
                    assert(t.as_seq() == opt_seq(t.left) + seq![(t.key, t.value)] + opt_seq(
                        t.right,
                    ));
                    assert(u.as_map() == opt_as_map(t.left).union_prefer_right(
                        opt_as_map(t.right),
                    ).insert(t.key, value));
                    assert(t.as_map() == opt_as_map(t.left).union_prefer_right(
                        opt_as_map(t.right),
                    ).insert(t.key, t.value));
                    assert(u.as_map() =~= t.as_map().insert(key, value));
                    assert(t.as_map().dom().contains(key));
                    assert(t.as_map()[key] == t.value);
                    assert(u.aa_ok());
                    assert(u.ord_ok(*cmp));
                }
                Some(v)
            },
            Ordering::Less => {
                let ghost s0 = *old(self);
                let r = insert(&mut self.left, key, value, cmp);
                let ghost s1 = *self;
                proof {
                    let lv = s0.level as int;
                    assert(lt_under(*cmp, key, s0.key));
                    // the key being inserted cannot sit to the right
                    if opt_as_map(s0.right).dom().contains(key) {
                        cmp.lemma_antisymmetric(key, s0.key);
                    }
                    // the changed node keeps the search order
                    assert forall|k: K| #[trigger] opt_as_map(s1.left).dom().contains(k) implies
                        lt_under(*cmp, k, s1.key) by {
                        if k != key {
                            assert(opt_as_map(s0.left).dom().contains(k));
                        }
                    }
                    assert(s1.ord_ok(*cmp));
                    // the changed node holds the inserted pair
                    assert(s1.as_map() == opt_as_map(s1.left).union_prefer_right(
                        opt_as_map(s1.right),
                    ).insert(s1.key, s1.value));
                    assert(s0.as_map() == opt_as_map(s0.left).union_prefer_right(
                        opt_as_map(s0.right),
                    ).insert(s0.key, s0.value));
                    assert(s1.as_map() =~= s0.as_map().insert(key, value));
                    assert(s1.as_seq() == opt_seq(s1.left) + seq![(s1.key, s1.value)] + opt_seq(
                        s1.right,
                    ));
                    assert(s0.as_map().dom().contains(key) == opt_as_map(s0.left).dom().contains(
                        key,
                    ));
                    if opt_as_map(s0.left).dom().contains(key) {
                        assert(s0.as_map()[key] == opt_as_map(s0.left)[key]);
                    }
                }
                skew(self);
                let ghost s2 = *self;
                proof {
                    let lv = s0.level as int;
                    if opt_level(s1.left) == lv {
                        // the child rose and sits level with us: skew rotated
                        let l1 = s1.left.unwrap();
                        assert(l1.aa_ok());
                        assert(rot_right_rel(s1, s2));
                        lemma_rot_right(*cmp, s1, s2);
                        let m = s2.right.unwrap();
                        assert(opt_level(l1.right) < lv);
                        assert(m.aa_ok());
                    } else {
                        assert(opt_level(s1.left) + 1 == lv);
                        assert(s2 == s1);
                        assert(s1.aa_ok());
                    }
                    assert(opt_level(s2.right) <= lv);
                    assert(lv < usize::MAX as int);
                }
                split(self);
                proof {
                    let lv = s0.level as int;
                    let u = *self;
                    if opt_level(s1.left) == lv {
                        let l1 = s1.left.unwrap();
                        let m = s2.right.unwrap();
                        if opt_level(s0.right) == lv {
                            // double right horizontal after the skew: split fires
                            let rr = s0.right.unwrap();
                            assert(m.right == s0.right);
                            assert(rr.level == s2.level);
                            assert(rot_left_rel(s2, u));
                            lemma_rot_left(*cmp, s2, u);
                            let m2 = u.left.unwrap();
                            assert(m2.aa_ok());
                            assert(u.aa_ok());
                            assert(u.level == lv + 1);
                        } else {
                            assert(opt_level(m.right) + 1 == lv);
                            assert(u == s2);
                            assert(u.aa_ok());
                            assert(u.level == lv);
                        }
                    } else {
                        assert(s2 == s1);
                        assert(s2.right == s0.right);
                        if s2.right is Some {
                            assert(opt_level(s2.right.unwrap().right) < lv);
                        }
                        assert(u == s2);
                    }
                    assert(u.as_map() == s0.as_map().insert(key, value));
                    assert(u.as_seq().len() == s1.as_seq().len());
                }
                r
            },
            Ordering::Greater => {
                let ghost s0 = *old(self);
                let r = insert(&mut self.right, key, value, cmp);
                let ghost s1 = *self;
                proof {
                    let lv = s0.level as int;
                    assert(lt_under(*cmp, s0.key, key));
                    if opt_as_map(s0.left).dom().contains(key) {
                        cmp.lemma_antisymmetric(s0.key, key);
                    }
                    assert forall|k: K| #[trigger] opt_as_map(s1.right).dom().contains(k) implies
                        lt_under(*cmp, s1.key, k) by {
                        if k != key {
                            assert(opt_as_map(s0.right).dom().contains(k));
                        }
                    }
                    assert(s1.ord_ok(*cmp));
                    assert(s1.as_map() == opt_as_map(s1.left).union_prefer_right(
                        opt_as_map(s1.right),
                    ).insert(s1.key, s1.value));
                    assert(s0.as_map() == opt_as_map(s0.left).union_prefer_right(
                        opt_as_map(s0.right),
                    ).insert(s0.key, s0.value));
                    assert(s1.as_map() =~= s0.as_map().insert(key, value));
                    assert(s1.as_seq() == opt_seq(s1.left) + seq![(s1.key, s1.value)] + opt_seq(
                        s1.right,
                    ));
                    assert(s0.as_map().dom().contains(key) == opt_as_map(s0.right).dom().contains(
                        key,
                    ));
                    if opt_as_map(s0.right).dom().contains(key) {
                        assert(s0.as_map()[key] == opt_as_map(s0.right)[key]);
                    }
                    // the left child is untouched, so no skew can fire
                    assert(opt_level(s1.left) + 1 == lv);
                    // a right child that was already horizontal cannot rise
                    if opt_level(s0.right) == lv && opt_level(s1.right) == lv + 1 {
                        assert(opt_level(s0.right.unwrap().right) == lv);
                        assert(false);
                    }
                }
                skew(self);
                proof {
                    assert(*self == s1);
                    assert(opt_level(s1.right) <= s0.level as int);
                    assert(s0.level < usize::MAX);
                }
                split(self);
                proof {
                    let lv = s0.level as int;
                    let u = *self;
                    let r1 = s1.right.unwrap();
                    assert(r1.aa_ok());
                    if opt_level(r1.right) == lv {
                        // a new double right horizontal link: split fires
                        if r1.level == lv + 1 {
                            assert(opt_level(s1.right) == opt_level(s0.right) + 1);
                            assert(opt_level(s0.right) == lv);
                            assert(opt_level(s0.right.unwrap().right) == opt_level(s0.right));
                            assert(false);
                        }
                        assert(r1.level == lv);
                        assert(rot_left_rel(s1, u));
                        lemma_rot_left(*cmp, s1, u);
                        let m2 = u.left.unwrap();
                        assert(opt_level(s1.right) == lv);
                        assert(m2.level == lv);
                        assert(opt_level(m2.left) + 1 == lv);
                        assert(m2.right == r1.left);
                        assert(opt_level(r1.left) + 1 == r1.level);
                        match m2.right {
                            Some(mr) => {
                                assert(mr.aa_ok());
                                assert(opt_level(mr.right) <= mr.level);
                            },
                            None => {},
                        }
                        assert(m2.aa_ok());
                        assert(u.right == r1.right);
                        match u.right {
                            Some(ur) => {
                                assert(ur.aa_ok());
                                assert(opt_level(ur.right) <= ur.level);
                            },
                            None => {},
                        }
                        assert(u.aa_ok());
                        assert(u.level == lv + 1);
                        if opt_level(s1.right) == opt_level(s0.right) + 1 {
                            assert(opt_level(r1.right) < r1.level);
                            assert(false);
                        }
                        assert(opt_level(s0.right) == lv);
                    } else {
                        assert(u == s1);
                        assert(u.aa_ok());
                        assert(u.level == lv);
                    }
                    assert(u.as_map() == s0.as_map().insert(key, value));
                    assert(u.as_seq().len() == s1.as_seq().len());
                }
                r
            },
        }
    }
}

/// Recursive insertion into an optional subtree: an empty slot becomes a new
/// level-1 leaf; an occupied node descends and rebalances.
fn insert<K, V, C: Comparator<K>>(
    node: &mut Option<Box<TreeNode<K, V>>>,
    key: K,
    value: V,
    cmp: &C,
) -> (r: Option<V>)
    requires
        cmp.valid(),
        opt_aa_ok(*old(node)),
        opt_ord_ok(*old(node), *cmp),
        opt_seq(*old(node)).len() + 1 < usize::MAX as int,
    ensures
        opt_aa_ok(*final(node)),
        opt_ord_ok(*final(node), *cmp),
        opt_as_map(*final(node)) == opt_as_map(*old(node)).insert(key, value),
        (match r {
            Some(v) => opt_as_map(*old(node)).dom().contains(key)
                && v == opt_as_map(*old(node))[key]
                && opt_seq(*final(node)).len() == opt_seq(*old(node)).len(),
            None => !opt_as_map(*old(node)).dom().contains(key) && opt_seq(*final(node)).len()
                == opt_seq(*old(node)).len() + 1,
        }),
        opt_level(*final(node)) == opt_level(*old(node)) || opt_level(*final(node)) == opt_level(
            *old(node),
        ) + 1,
        opt_level(*final(node)) == opt_level(*old(node)) + 1 ==> (*final(node)) is Some
            && opt_level(final(node).unwrap().right) < opt_level(*final(node)) && ((*old(node))
            is None || opt_level(old(node).unwrap().right) == opt_level(*old(node))),
    decreases opt_seq(*old(node)).len(), 1int,
{
    match node.take() {
        None => {
            *node = Some(Box::new(TreeNode::new(key, value)));
            proof {
                let u = (*node).unwrap();
                assert(opt_as_map(None::<Box<TreeNode<K, V>>>).dom() =~= Set::<K>::empty());
                assert(u.as_seq() =~= seq![(key, value)]);
                assert(u.as_map() =~= opt_as_map(*old(node)).insert(key, value));
                assert(u.aa_ok());
                assert(u.ord_ok(*cmp));
            }
            None
        },
        Some(mut b) => {
            let r = (&mut *b).insert_node(key, value, cmp);
            *node = Some(b);
            r
        },
    }
}

/// A key is bound in a subtree's map exactly when it occurs in its in-order
/// sequence, ordered or not.
proof fn lemma_node_keys<K, V>(node: TreeNode<K, V>)
    ensures
        forall|k: K|
            #[trigger] node.as_map().dom().contains(k) <==> exists|i: int|
                0 <= i < node.as_seq().len() && node.as_seq()[i].0 == k,
    decreases node,
{
    let lm = opt_as_map(node.left);
    let rm = opt_as_map(node.right);
    let ls = opt_seq(node.left);
    let rs = opt_seq(node.right);
    let s = node.as_seq();
    assert(s == ls + seq![(node.key, node.value)] + rs);
    assert(node.as_map() == lm.union_prefer_right(rm).insert(node.key, node.value));
    match node.left {
        Some(l) => {
            lemma_node_keys(*l);
            assert(lm == l.as_map());
            assert(ls == l.as_seq());
        },
        None => {
            assert(lm.dom() =~= Set::<K>::empty());
        },
    }
    match node.right {
        Some(r) => {
            lemma_node_keys(*r);
            assert(rm == r.as_map());
            assert(rs == r.as_seq());
        },
        None => {
            assert(rm.dom() =~= Set::<K>::empty());
        },
    }
    assert forall|k: K| #[trigger] node.as_map().dom().contains(k) implies exists|i: int|
        0 <= i < s.len() && s[i].0 == k by {
        if k == node.key {
            assert(s[ls.len() as int].0 == k);
        } else if lm.dom().contains(k) {
            let i = choose|i: int| 0 <= i < ls.len() && ls[i].0 == k;
            assert(s[i].0 == k);
        } else {
            assert(rm.dom().contains(k));
            let i = choose|i: int| 0 <= i < rs.len() && rs[i].0 == k;
            assert(s[ls.len() + 1 + i].0 == k);
        }
    }
    assert forall|k: K, i: int| 0 <= i < s.len() && s[i].0 == k implies node.as_map().dom().contains(
        k,
    ) by {
        if i < ls.len() {
            assert(ls[i].0 == k);
            assert(lm.dom().contains(k));
        } else if i == ls.len() {
        } else {
            assert(rs[i - ls.len() - 1].0 == k);
            assert(rm.dom().contains(k));
        }
    }
}

/// A subtree whose in-order sequence is strictly ascending is well ordered.
proof fn lemma_sorted_implies_ord<K, V, C: Comparator<K>>(cmp: C, node: TreeNode<K, V>)
    requires
        cmp.valid(),
        sorted_by(cmp, node.as_seq()),
    ensures
        node.ord_ok(cmp),
    decreases node,
{
    let lm = opt_as_map(node.left);
    let rm = opt_as_map(node.right);
    let ls = opt_seq(node.left);
    let rs = opt_seq(node.right);
    let s = node.as_seq();
    let mid = ls.len() as int;
    assert(s == ls + seq![(node.key, node.value)] + rs);
    assert(s[mid].0 == node.key);
    assert(sorted_by(cmp, ls)) by {
        assert forall|i: int, j: int| 0 <= i < j < ls.len() implies lt_under(
            cmp,
            ls[i].0,
            ls[j].0,
        ) by {
            assert(s[i] == ls[i]);
            assert(s[j] == ls[j]);
        }
    }
    assert(sorted_by(cmp, rs)) by {
        assert forall|i: int, j: int| 0 <= i < j < rs.len() implies lt_under(
            cmp,
            rs[i].0,
            rs[j].0,
        ) by {
            assert(s[mid + 1 + i] == rs[i]);
            assert(s[mid + 1 + j] == rs[j]);
        }
    }
    match node.left {
        Some(l) => {
            lemma_node_keys(*l);
            lemma_sorted_implies_ord(cmp, *l);
            assert(lm == l.as_map());
            assert(ls == l.as_seq());
        },
        None => {
            assert(lm.dom() =~= Set::<K>::empty());
        },
    }
    match node.right {
        Some(r) => {
            lemma_node_keys(*r);
            lemma_sorted_implies_ord(cmp, *r);
            assert(rm == r.as_map());
            assert(rs == r.as_seq());
        },
        None => {
            assert(rm.dom() =~= Set::<K>::empty());
        },
    }
    assert forall|k: K| #[trigger] lm.dom().contains(k) implies lt_under(cmp, k, node.key) by {
        let i = choose|i: int| 0 <= i < ls.len() && ls[i].0 == k;
        assert(s[i] == ls[i]);
        assert(lt_under(cmp, s[i].0, s[mid].0));
    }
    assert forall|k: K| #[trigger] rm.dom().contains(k) implies lt_under(cmp, node.key, k) by {
        let i = choose|i: int| 0 <= i < rs.len() && rs[i].0 == k;
        assert(s[mid + 1 + i] == rs[i]);
        assert(lt_under(cmp, s[mid].0, s[mid + 1 + i].0));
    }
}

/// No right-horizontal link at the root of an optional subtree.
spec fn opt_sngl<K, V>(node: Option<Box<TreeNode<K, V>>>) -> bool {
    match node {
        None => true,
        Some(n) => opt_level(n.right) < n.level,
    }
}

/// The right spine of a subtree in mid-rebalance, after the three skews:
/// each spine node sits at level `lp` with its left arm one level down and
/// balanced, until (within `d` steps) the spine reaches a balanced subtree.
spec fn spine_node<K, V>(s: TreeNode<K, V>, lp: int, d: nat) -> bool
    decreases d, 0int,
{
    &&& (s.level == lp || s.level + 1 == lp)
    &&& (if s.level + 1 == lp || d == 0 {
        s.aa_ok()
    } else {
        &&& opt_level(s.left) + 1 == lp
        &&& opt_aa_ok(s.left)
        &&& spine(s.right, lp, (d - 1) as nat)
    })
}

/// `spine_node`, lifted to an optional subtree.
spec fn spine<K, V>(o: Option<Box<TreeNode<K, V>>>, lp: int, d: nat) -> bool
    decreases d, 1int,
{
    match o {
        None => lp == 1,
        Some(s) => spine_node(*s, lp, d),
    }
}

// After a removal lowered one child too far, restore the AA invariants:
// lower this node's level (capping a higher right child down to it), then
// reapply skew to the node, to its right child and to that child's right
// child, then split to the node and to its new right child.
#[verifier::rlimit(100)]
fn rebalance_remove<K, V>(node: &mut TreeNode<K, V>)
    requires
        old(node).level >= 1,
        (match old(node).left {
            Some(l) => l.aa_ok(),
            None => true,
        }),
        (match old(node).right {
            Some(r) => r.aa_ok(),
            None => true,
        }),
        opt_level(old(node).left) + 1 == old(node).level || opt_level(old(node).left) + 2 == old(
            node,
        ).level,
        opt_level(old(node).right) <= old(node).level,
        opt_level(old(node).right) + 2 >= old(node).level,
        opt_level(old(node).right) == old(node).level ==> opt_level(
            old(node).right.unwrap().right,
        ) < old(node).level,
    ensures
        final(node).aa_ok(),
        final(node).as_seq() == old(node).as_seq(),
        final(node).level == old(node).level || final(node).level + 1 == old(node).level,
        final(node).level == old(node).level && opt_level(old(node).right) < old(node).level
            ==> opt_level(final(node).right) < final(node).level,
{
    let left_level = match &node.left {
        Some(l) => l.level,
        None => 0,
    };
    let right_level = match &node.right {
        Some(r) => r.level,
        None => 0,
    };
    if left_level < node.level - 1 || right_level < node.level - 1 {
        proof {
            assert(node.level >= 2);
        }
        let ghost t = *old(node);
        let ghost lv = t.level as int;
        let ghost lp = lv - 1;
        let ghost rho = opt_level(t.right);
        node.level = node.level - 1;
        if right_level > node.level {
            match &mut node.right {
                Some(r) => {
                    r.level = node.level;
                },
                None => {},
            }
        }
        let ghost g0 = *node;
        proof {
            assert(g0.level == lp);
            assert(g0.left == t.left);
            match (t.right, g0.right) {
                (Some(a), Some(b)) => {
                    assert(b.left == a.left && b.right == a.right && b.key == a.key && b.value
                        == a.value);
                    assert(b.as_seq() == a.as_seq());
                    assert(opt_seq(t.right) == opt_seq(g0.right));
                },
                (None, None) => {},
                _ => {
                    assert(false);
                },
            }
            assert(g0.as_seq() == t.as_seq());
            // the lowered node's children, before any rotation
            assert(opt_level(g0.left) == lp - 1 || opt_level(g0.left) == lp);
            match g0.right {
                None => {
                    assert(lp == 1);
                },
                Some(r) => {
                    assert(r.level == lp - 1 || r.level == lp);
                    assert(opt_aa_ok(r.left));
                    assert(opt_aa_ok(r.right));
                    if rho == lv {
                        assert(r.level == lp);
                        assert(opt_level(r.left) == lp);
                        assert(opt_level(r.right) == lp);
                    } else {
                        assert(r.aa_ok());
                    }
                },
            }
            // a left child level with the node means the right side was lowered
            if opt_level(g0.left) == lp {
                assert(rho + 1 < lv);
                assert(rho == lp - 1);
            }
        }
        skew(node);
        let ghost g1 = *node;
        proof {
            assert(g1.as_seq() == g0.as_seq());
            if opt_level(g0.left) == lp {
                // the left child was horizontal: the skew rotated it up
                let l0 = g0.left.unwrap();
                assert(rot_right_rel(g0, g1));
                let nm = g1.right.unwrap();
                assert(g1.level == lp && nm.level == lp);
                assert(g1.left == l0.left && opt_level(g1.left) + 1 == lp && opt_aa_ok(g1.left));
                assert(nm.left == l0.right && opt_aa_ok(nm.left));
                assert(opt_level(nm.left) == lp || opt_level(nm.left) == lp - 1);
                assert(nm.right == g0.right && opt_level(nm.right) == lp - 1 && opt_aa_ok(
                    nm.right,
                ));
                if opt_level(nm.left) == lp {
                    assert(opt_level(l0.right.unwrap().right) < lp);
                }
            } else {
                assert(g1 == g0);
            }
        }
        let r_taken = node.right.take();
        match r_taken {
            Some(mut rbox) => {
                let ghost r0 = *rbox;
                proof {
                    assert(g1.right == Some(rbox));
                }
                skew(&mut *rbox);
                let ghost r1 = *rbox;
                proof {
                    assert(r1.as_seq() == r0.as_seq());
                    if r0.left is Some && opt_level(r0.left) == r0.level as int {
                        assert(rot_right_rel(r0, r1));
                    } else {
                        assert(r1 == r0);
                    }
                }
                let rr_taken = rbox.right.take();
                match rr_taken {
                    Some(mut rrbox) => {
                        let ghost rr0 = *rrbox;
                        proof {
                            assert(r1.right == Some(rrbox));
                        }
                        skew(&mut *rrbox);
                        proof {
                            assert((*rrbox).as_seq() == rr0.as_seq());
                            if rr0.left is Some && opt_level(rr0.left) == rr0.level as int {
                                assert(rot_right_rel(rr0, *rrbox));
                            } else {
                                assert(*rrbox == rr0);
                            }
                        }
                        rbox.right = Some(rrbox);
                    },
                    None => {},
                }
                proof {
                    let r2 = *rbox;
                    assert(r2.as_seq() == opt_seq(r2.left) + seq![(r2.key, r2.value)] + opt_seq(
                        r2.right,
                    ));
                    assert(r1.as_seq() == opt_seq(r1.left) + seq![(r1.key, r1.value)] + opt_seq(
                        r1.right,
                    ));
                    assert(opt_seq(r2.right) == opt_seq(r1.right));
                    assert(r2.as_seq() == r0.as_seq());
                    // establish the spine shape, case by case
                    if opt_level(g0.left) == lp {
                        // the node was skewed: r0 is the lowered node itself
                        let l0 = g0.left.unwrap();
                        assert(r0 == g1.right.unwrap());
                        assert(r0.level == lp);
                        assert(r0.left == l0.right && r0.right == g0.right);
                        if opt_level(r0.left) == lp {
                            // the inner skew rotated the middle link
                            let d = r0.left.unwrap();
                            assert(d.aa_ok());
                            assert(opt_level(d.right) < lp);
                            assert(opt_level(d.right) + 1 == lp || opt_level(d.right) + 2
                                == d.level);
                            assert(rot_right_rel(r0, r1));
                            let m = r1.right.unwrap();
                            assert(m.level == lp && m.left == d.right && m.right == r0.right);
                            assert(opt_level(m.left) + 1 == lp);
                            assert(r2 == r1);
                            assert(spine(m.right, lp, 1nat));
                            assert(spine_node(*m, lp, 2nat));
                            assert(spine_node(r2, lp, 3nat));
                        } else {
                            assert(r1 == r0);
                            assert(r2 == r0);
                            assert(opt_level(r0.left) + 1 == lp);
                            assert(spine(r2.right, lp, 2nat));
                            assert(spine_node(r2, lp, 3nat));
                        }
                        // the removal lowered the right side here
                        assert(rho < lv);
                        if r2.level == lp {
                            match r2.right {
                                Some(s2) => {
                                    if s2.level == lp {
                                        assert(opt_level(s2.right) < lp);
                                    }
                                },
                                None => {},
                            }
                        }
                    } else {
                        assert(g1 == g0);
                        assert(r0 == g0.right.unwrap());
                        if rho == lv {
                            // the right child was capped down: its left arm
                            // sits level with it and the skew rotated it up
                            let a = r0.left.unwrap();
                            assert(a.level == lp && a.aa_ok());
                            let b = r0.right.unwrap();
                            assert(b.level == lp && b.aa_ok());
                            assert(rot_right_rel(r0, r1));
                            assert(r1.level == lp);
                            assert(r1.left == a.left && opt_level(r1.left) + 1 == lp
                                && opt_aa_ok(r1.left));
                            let m = r1.right.unwrap();
                            assert(m.level == lp && m.left == a.right && m.right == r0.right);
                            assert(r2.level == lp && r2.left == r1.left);
                            if opt_level(a.right) == lp {
                                // a second horizontal link: the innermost skew fired
                                let c = a.right.unwrap();
                                assert(c.aa_ok());
                                assert(opt_level(c.right) < lp);
                                assert(opt_level(c.right) + 1 == lp);
                                let w = *r2.right.unwrap();
                                assert(rot_right_rel(*m, w));
                                assert(w.level == lp);
                                assert(w.left == c.left && opt_level(w.left) + 1 == lp
                                    && opt_aa_ok(w.left));
                                let m2 = w.right.unwrap();
                                assert(m2.level == lp && m2.left == c.right && m2.right == m.right);
                                assert(opt_level(m2.left) + 1 == lp && opt_aa_ok(m2.left));
                                assert(spine(m2.right, lp, 0nat));
                                assert(spine_node(*m2, lp, 1nat));
                                assert(spine_node(w, lp, 2nat));
                                assert(spine_node(r2, lp, 3nat));
                            } else {
                                assert(opt_level(m.left) + 1 == lp);
                                assert(r2.right == r1.right);
                                assert(spine(b.right, lp, 0nat));
                                assert(spine_node(*b, lp, 1nat));
                                assert(spine_node(*m, lp, 2nat));
                                assert(spine_node(r2, lp, 3nat));
                            }
                        } else {
                            // no cap: the right child was already balanced
                            assert(r0.aa_ok());
                            assert(r1 == r0);
                            assert(r2 == r0);
                            if r2.level + 1 == lp {
                                assert(spine_node(r2, lp, 3nat));
                            } else {
                                assert(r2.level == lp);
                                match r2.right {
                                    None => {
                                        assert(lp == 1);
                                    },
                                    Some(s2) => {
                                        assert(s2.aa_ok());
                                        if s2.level == lp {
                                            assert(opt_level(s2.right) < lp);
                                            match s2.right {
                                                None => {
                                                    assert(lp == 1);
                                                },
                                                Some(s3) => {
                                                    assert(s3.aa_ok());
                                                    assert(s3.level + 1 == lp);
                                                    assert(spine_node(*s3, lp, 1nat));
                                                },
                                            }
                                            assert(spine(s2.right, lp, 1nat));
                                            assert(spine_node(*s2, lp, 2nat));
                                        } else {
                                            assert(spine_node(*s2, lp, 2nat));
                                        }
                                        assert(spine(r2.right, lp, 2nat));
                                    },
                                }
                                assert(spine_node(r2, lp, 3nat));
                            }
                            if r2.level == lp {
                                match r2.right {
                                    Some(s2) => {
                                        if s2.level == lp {
                                            assert(opt_level(s2.right) < lp);
                                        }
                                    },
                                    None => {},
                                }
                            }
                        }
                    }
                }
                node.right = Some(rbox);
            },
            None => {},
        }
        let ghost g2 = *node;
        proof {
            assert(g2.as_seq() == opt_seq(g2.left) + seq![(g2.key, g2.value)] + opt_seq(g2.right));
            assert(g1.as_seq() == opt_seq(g1.left) + seq![(g1.key, g1.value)] + opt_seq(g1.right));
            assert(opt_seq(g2.right) == opt_seq(g1.right));
            assert(g2.as_seq() == g1.as_seq());
            assert(g2.level == lp);
            assert(opt_level(g2.left) + 1 == lp && opt_aa_ok(g2.left));
            assert(spine(g2.right, lp, 3nat));
            assert(rho < lv ==> (match g2.right {
                Some(s1) => s1.level == lp ==> (match s1.right {
                    Some(s2) => s2.level == lp ==> opt_level(s2.right) < lp,
                    None => true,
                }),
                None => true,
            }));
        }
        split(node);
        let ghost g3 = *node;
        proof {
            assert(g3.as_seq() == g2.as_seq());
            if g2.right is Some && g2.right.unwrap().right is Some
                && g2.right.unwrap().right.unwrap().level == lp {
                let s1 = g2.right.unwrap();
                let s2 = s1.right.unwrap();
                assert(s1.level == lp);
                assert(rot_left_rel(g2, g3));
                assert(g3.level == lp + 1);
                let nm = g3.left.unwrap();
                assert(nm.level == lp && nm.left == g2.left && nm.right == s1.left);
                assert(nm.aa_ok());
                assert(g3.right == s1.right);
            } else {
                assert(g3 == g2);
            }
            assert(opt_level(g3.right) <= lp);
        }
        let r_taken2 = node.right.take();
        match r_taken2 {
            Some(mut rbox2) => {
                let ghost q0 = *rbox2;
                proof {
                    assert(g3.right == Some(rbox2));
                    assert(opt_level(q0.right) <= lp);
                }
                split(&mut *rbox2);
                proof {
                    assert((*rbox2).as_seq() == q0.as_seq());
                }
                node.right = Some(rbox2);
            },
            None => {},
        }
        proof {
            let g4 = *node;
            assert(g4.as_seq() == opt_seq(g4.left) + seq![(g4.key, g4.value)] + opt_seq(g4.right));
            assert(g3.as_seq() == opt_seq(g3.left) + seq![(g3.key, g3.value)] + opt_seq(g3.right));
            assert(opt_seq(g4.right) == opt_seq(g3.right));
            assert(g4.as_seq() == g3.as_seq());
            assert(g4.as_seq() == t.as_seq());
            if g3.level == lp + 1 {
                // the first split rebuilt the old level: examine its right arm
                let s1 = g2.right.unwrap();
                let s2 = s1.right.unwrap();
                assert(s2.level == lp);
                assert(opt_level(s2.left) + 1 == lp && opt_aa_ok(s2.left));
                assert(spine(s2.right, lp, 1nat));
                assert(g4.left == g3.left && g4.level == g3.level && g4.key == g3.key);
                if s2.right is Some && s2.right.unwrap().right is Some
                    && s2.right.unwrap().right.unwrap().level == lp {
                    // a chain of three: the second split raises the middle
                    let s3 = s2.right.unwrap();
                    let s4 = s3.right.unwrap();
                    assert(s3.level == lp && s4.level == lp);
                    assert(s4.aa_ok());
                    assert(rho == lv);
                    let w = g4.right.unwrap();
                    assert(rot_left_rel(*s2, *w));
                    assert(w.level == lp + 1);
                    let m2 = w.left.unwrap();
                    assert(m2.level == lp && m2.left == s2.left && m2.right == s3.left);
                    assert(opt_level(s3.left) + 1 == lp && opt_aa_ok(s3.left));
                    assert(m2.aa_ok());
                    assert(w.right == s3.right);
                    assert(w.aa_ok());
                    assert(g4.aa_ok());
                } else {
                    assert(g4.right == g3.right);
                    assert(g4.right == Some(s2));
                    match s2.right {
                        None => {
                            assert(lp == 1);
                            assert(s2.aa_ok());
                        },
                        Some(s3) => {
                            if s3.level == lp {
                                // its right arm sits lower, else the second
                                // split had fired
                                match s3.right {
                                    None => {
                                        assert(lp == 1);
                                    },
                                    Some(s4) => {
                                        assert(s4.level + 1 == lp);
                                        assert(s4.aa_ok());
                                    },
                                }
                                assert(s3.aa_ok());
                            } else {
                                assert(s3.aa_ok());
                            }
                            assert(s2.aa_ok());
                        },
                    }
                    assert(g4.aa_ok());
                }
                assert(g4.level == lv);
                if rho < lv {
                    assert(opt_level(g4.right) < g4.level);
                }
            } else {
                assert(g3 == g2);
                match g2.right {
                    None => {
                        assert(lp == 1);
                    },
                    Some(s1) => {
                        if s1.level + 1 == lp {
                            assert(s1.aa_ok());
                        } else {
                            assert(s1.level == lp);
                            match s1.right {
                                None => {
                                    assert(lp == 1);
                                },
                                Some(s2) => {
                                    // were it level with us, the split had fired
                                    assert(s2.level + 1 == lp);
                                    assert(s2.aa_ok());
                                },
                            }
                            assert(s1.aa_ok());
                        }
                    },
                }
                assert(g4.right == g3.right);
                assert(g4 == g2);
                assert(g4.aa_ok());
                assert(g4.level == lp);
            }
            assert(g4.level == lp || g4.level == lv);
        }
    } else {
        proof {
            assert((*node).aa_ok());
        }
    }
}

/// Detaches the greatest entry of a nonempty subtree, rebalancing on the way
/// back up.
fn remove_max<K, V, C: Comparator<K>>(
    node: &mut Option<Box<TreeNode<K, V>>>,
    cmp: &C,
) -> (kv: (K, V))
    requires
        cmp.valid(),
        (*old(node)) is Some,
        opt_aa_ok(*old(node)),
        opt_ord_ok(*old(node), *cmp),
    ensures
        opt_aa_ok(*final(node)),
        opt_ord_ok(*final(node), *cmp),
        opt_as_map(*old(node)).dom().contains(kv.0),
        opt_as_map(*old(node))[kv.0] == kv.1,
        forall|k: K|
            #[trigger] opt_as_map(*old(node)).dom().contains(k) && k != kv.0 ==> lt_under(
                *cmp,
                k,
                kv.0,
            ),
        opt_as_map(*final(node)) == opt_as_map(*old(node)).remove(kv.0),
        opt_seq(*final(node)).len() + 1 == opt_seq(*old(node)).len(),
        opt_level(*final(node)) == opt_level(*old(node)) || opt_level(*final(node)) + 1
            == opt_level(*old(node)),
        opt_level(*final(node)) == opt_level(*old(node)) && opt_sngl(*old(node)) ==> opt_sngl(
            *final(node),
        ),
    decreases opt_seq(*old(node)).len(),
{
    let mut b: Box<TreeNode<K, V>> = node.take().unwrap();
    let ghost t0 = *b;
    proof {
        lemma_as_seq_len_parts(t0);
    }
    if b.right.is_some() {
        let kv = remove_max(&mut b.right, cmp);
        let ghost b1 = *b;
        proof {
            let lv = t0.level as int;
            assert(kv.0 != t0.key && lt_under(*cmp, t0.key, kv.0));
            if opt_as_map(t0.left).dom().contains(kv.0) {
                cmp.lemma_antisymmetric(kv.0, t0.key);
            }
            // the shrunken node keeps the search order
            assert forall|k: K| #[trigger] opt_as_map(b1.right).dom().contains(k) implies
                lt_under(*cmp, b1.key, k) by {
                assert(opt_as_map(t0.right).dom().contains(k));
            }
            assert(b1.ord_ok(*cmp));
            assert(b1.as_map() == opt_as_map(b1.left).union_prefer_right(
                opt_as_map(b1.right),
            ).insert(b1.key, b1.value));
            assert(t0.as_map() == opt_as_map(t0.left).union_prefer_right(
                opt_as_map(t0.right),
            ).insert(t0.key, t0.value));
            assert(b1.as_map() =~= t0.as_map().remove(kv.0));
            assert(b1.as_seq() == opt_seq(b1.left) + seq![(b1.key, b1.value)] + opt_seq(b1.right));
            // the greatest entry of the whole subtree sat on the right
            assert(t0.as_map()[kv.0] == opt_as_map(t0.right)[kv.0]);
            assert forall|k: K|
                #[trigger] t0.as_map().dom().contains(k) && k != kv.0 implies lt_under(
                *cmp,
                k,
                kv.0,
            ) by {
                if k == t0.key {
                } else if opt_as_map(t0.left).dom().contains(k) {
                    crate::order::lemma_lt_under_transitive(*cmp, k, t0.key, kv.0);
                } else {
                    assert(opt_as_map(t0.right).dom().contains(k));
                }
            }
            // the removal can only have lowered the right arm by one
            assert(opt_level(b1.right) + 2 >= lv);
            if opt_level(b1.right) == lv {
                assert(opt_level(t0.right) == lv);
                assert(opt_sngl(t0.right));
                assert(opt_level(b1.right.unwrap().right) < lv);
            }
        }
        rebalance_remove(&mut *b);
        proof {
            let lv = t0.level as int;
            let b2 = *b;
            assert(b2.as_seq() == b1.as_seq());
            lemma_node_bridge(*cmp, b1);
            lemma_sorted_implies_ord(*cmp, b2);
            lemma_map_from_seq(*cmp, b2, b1);
            assert(b2.aa_ok());
            assert(opt_as_map(Some(b)) == b2.as_map());
            assert(opt_seq(Some(b)) == b2.as_seq());
            assert(b2.as_seq().len() + 1 == t0.as_seq().len());
            if b2.level == lv && opt_sngl(Some(b)) == false {
                assert(opt_level(t0.right) == lv || !(opt_level(b1.right) < lv));
            }
        }
        *node = Some(b);
        kv
    } else {
        proof {
            // with no right child this node is a level-1 leaf
            assert(t0.level == 1);
            match t0.left {
                Some(l) => {
                    assert(l.aa_ok());
                    assert(false);
                },
                None => {},
            }
            assert(opt_as_map(t0.left).dom() =~= Set::<K>::empty());
            assert(opt_as_map(t0.right).dom() =~= Set::<K>::empty());
            assert(t0.as_map() =~= Map::<K, V>::empty().insert(t0.key, t0.value));
            assert(opt_as_map(None::<Box<TreeNode<K, V>>>) =~= t0.as_map().remove(t0.key));
            assert(opt_seq(None::<Box<TreeNode<K, V>>>).len() == 0);
        }
        let dead = *b;
        let TreeNode { key, value, .. } = dead;
        *node = None;
        (key, value)
    }
}

/// Recursive removal from an optional subtree: descend by the comparator,
/// splice out or replace the matching node by its in-order predecessor, and
/// rebalance on the way back up.
fn remove<K, V, C: Comparator<K>>(
    node: &mut Option<Box<TreeNode<K, V>>>,
    key: &K,
    cmp: &C,
) -> (r: Option<V>)
    requires
        cmp.valid(),
        opt_aa_ok(*old(node)),
        opt_ord_ok(*old(node), *cmp),
    ensures
        opt_aa_ok(*final(node)),
        opt_ord_ok(*final(node), *cmp),
        opt_as_map(*final(node)) == opt_as_map(*old(node)).remove(*key),
        (match r {
            Some(v) => opt_as_map(*old(node)).dom().contains(*key)
                && v == opt_as_map(*old(node))[*key]
                && opt_seq(*final(node)).len() + 1 == opt_seq(*old(node)).len(),
            None => !opt_as_map(*old(node)).dom().contains(*key)
                && opt_seq(*final(node)).len() == opt_seq(*old(node)).len(),
        }),
        opt_level(*final(node)) == opt_level(*old(node)) || opt_level(*final(node)) + 1
            == opt_level(*old(node)),
        opt_level(*final(node)) == opt_level(*old(node)) && opt_sngl(*old(node)) ==> opt_sngl(
            *final(node),
        ),
    decreases opt_seq(*old(node)).len(),
{
    match node.take() {
        None => {
            proof {
                assert(opt_as_map(None::<Box<TreeNode<K, V>>>).dom() =~= Set::<K>::empty());
                assert(opt_as_map(None::<Box<TreeNode<K, V>>>) =~= opt_as_map(
                    None::<Box<TreeNode<K, V>>>,
                ).remove(*key));
            }
            None
        },
        Some(mut b) => {
            let ghost t0 = *b;
            proof {
                lemma_as_seq_len_parts(t0);
            }
            match cmp.compare(key, &b.key) {
                Ordering::Less => {
                    let r = remove(&mut b.left, key, cmp);
                    let ghost b1 = *b;
                    proof {
                        let lv = t0.level as int;
                        assert(lt_under(*cmp, *key, t0.key));
                        if opt_as_map(t0.right).dom().contains(*key) {
                            cmp.lemma_antisymmetric(*key, t0.key);
                        }
                        assert forall|k: K| #[trigger] opt_as_map(b1.left).dom().contains(k)
                            implies lt_under(*cmp, k, b1.key) by {
                            assert(opt_as_map(t0.left).dom().contains(k));
                        }
                        assert(b1.ord_ok(*cmp));
                        assert(b1.as_map() == opt_as_map(b1.left).union_prefer_right(
                            opt_as_map(b1.right),
                        ).insert(b1.key, b1.value));
                        assert(t0.as_map() == opt_as_map(t0.left).union_prefer_right(
                            opt_as_map(t0.right),
                        ).insert(t0.key, t0.value));
                        assert(b1.as_map() =~= t0.as_map().remove(*key));
                        assert(b1.as_seq() == opt_seq(b1.left) + seq![(b1.key, b1.value)]
                            + opt_seq(b1.right));
                        assert(t0.as_map().dom().contains(*key) == opt_as_map(
                            t0.left,
                        ).dom().contains(*key));
                        if opt_as_map(t0.left).dom().contains(*key) {
                            assert(t0.as_map()[*key] == opt_as_map(t0.left)[*key]);
                        }
                    }
                    rebalance_remove(&mut *b);
                    proof {
                        let lv = t0.level as int;
                        let b2 = *b;
                        assert(b2.as_seq() == b1.as_seq());
                        lemma_node_bridge(*cmp, b1);
                        lemma_sorted_implies_ord(*cmp, b2);
                        lemma_map_from_seq(*cmp, b2, b1);
                        if b2.level == lv && opt_sngl(Some(b)) == false {
                            assert(!(opt_level(b1.right) < lv));
                        }
                    }
                    *node = Some(b);
                    r
                },
                Ordering::Greater => {
                    let r = remove(&mut b.right, key, cmp);
                    let ghost b1 = *b;
                    proof {
                        let lv = t0.level as int;
                        assert(lt_under(*cmp, t0.key, *key));
                        if opt_as_map(t0.left).dom().contains(*key) {
                            cmp.lemma_antisymmetric(t0.key, *key);
                        }
                        assert forall|k: K| #[trigger] opt_as_map(b1.right).dom().contains(k)
                            implies lt_under(*cmp, b1.key, k) by {
                            assert(opt_as_map(t0.right).dom().contains(k));
                        }
                        assert(b1.ord_ok(*cmp));
                        assert(b1.as_map() == opt_as_map(b1.left).union_prefer_right(
                            opt_as_map(b1.right),
                        ).insert(b1.key, b1.value));
                        assert(t0.as_map() == opt_as_map(t0.left).union_prefer_right(
                            opt_as_map(t0.right),
                        ).insert(t0.key, t0.value));
                        assert(b1.as_map() =~= t0.as_map().remove(*key));
                        assert(b1.as_seq() == opt_seq(b1.left) + seq![(b1.key, b1.value)]
                            + opt_seq(b1.right));
                        assert(t0.as_map().dom().contains(*key) == opt_as_map(
                            t0.right,
                        ).dom().contains(*key));
                        if opt_as_map(t0.right).dom().contains(*key) {
                            assert(t0.as_map()[*key] == opt_as_map(t0.right)[*key]);
                        }
                        assert(opt_level(b1.right) + 2 >= lv);
                        if opt_level(b1.right) == lv {
                            assert(opt_level(t0.right) == lv);
                            assert(opt_sngl(t0.right));
                            assert(opt_level(b1.right.unwrap().right) < lv);
                        }
                    }
                    rebalance_remove(&mut *b);
                    proof {
                        let lv = t0.level as int;
                        let b2 = *b;
                        assert(b2.as_seq() == b1.as_seq());
                        lemma_node_bridge(*cmp, b1);
                        lemma_sorted_implies_ord(*cmp, b2);
                        lemma_map_from_seq(*cmp, b2, b1);
                        if b2.level == lv && opt_sngl(Some(b)) == false {
                            assert(!(opt_level(b1.right) < lv));
                        }
                    }
                    *node = Some(b);
                    r
                },
                Ordering::Equal => {
                    proof {
                        assert(*key == t0.key);
                        assert(!opt_as_map(t0.left).dom().contains(t0.key));
                        assert(!opt_as_map(t0.right).dom().contains(t0.key));
                        assert(t0.as_map().dom().contains(t0.key));
                        assert(t0.as_map()[t0.key] == t0.value);
                    }
                    if b.left.is_some() {
                        proof {
                            // a left child forces a right child here
                            assert(t0.level >= 2);
                            match t0.right {
                                None => {
                                    assert(false);
                                },
                                Some(x) => {},
                            }
                        }
                        // replace this entry by its in-order predecessor, the
                        // greatest entry of the left subtree
                        let (k2, v2) = remove_max(&mut b.left, cmp);
                        let mut vv = v2;
                        core::mem::swap(&mut b.value, &mut vv);
                        b.key = k2;
                        let ghost b1 = *b;
                        proof {
                            let lv = t0.level as int;
                            assert(b1.key == k2 && b1.value == v2);
                            assert(opt_as_map(t0.left).dom().contains(k2));
                            assert(lt_under(*cmp, k2, t0.key));
                            if opt_as_map(t0.right).dom().contains(k2) {
                                cmp.lemma_antisymmetric(t0.key, k2);
                            }
                            assert forall|k: K| #[trigger] opt_as_map(b1.left).dom().contains(k)
                                implies lt_under(*cmp, k, b1.key) by {
                                assert(opt_as_map(t0.left).dom().contains(k));
                                assert(opt_as_map(t0.left).remove(k2).dom().contains(k));
                                assert(k != k2);
                            }
                            assert forall|k: K| #[trigger] opt_as_map(b1.right).dom().contains(k)
                                implies lt_under(*cmp, b1.key, k) by {
                                assert(opt_as_map(t0.right).dom().contains(k));
                                crate::order::lemma_lt_under_transitive(*cmp, k2, t0.key, k);
                            }
                            assert(b1.ord_ok(*cmp));
                            assert(b1.as_map() == opt_as_map(b1.left).union_prefer_right(
                                opt_as_map(b1.right),
                            ).insert(b1.key, b1.value));
                            assert(t0.as_map() == opt_as_map(t0.left).union_prefer_right(
                                opt_as_map(t0.right),
                            ).insert(t0.key, t0.value));
                            assert(b1.as_map() =~= t0.as_map().remove(t0.key));
                            assert(b1.as_seq() == opt_seq(b1.left) + seq![(b1.key, b1.value)]
                                + opt_seq(b1.right));
                        }
                        rebalance_remove(&mut *b);
                        proof {
                            let lv = t0.level as int;
                            let b2 = *b;
                            assert(b2.as_seq() == b1.as_seq());
                            lemma_node_bridge(*cmp, b1);
                            lemma_sorted_implies_ord(*cmp, b2);
                            lemma_map_from_seq(*cmp, b2, b1);
                            if b2.level == lv && opt_sngl(Some(b)) == false {
                                assert(!(opt_level(b1.right) < lv));
                            }
                        }
                        *node = Some(b);
                        Some(vv)
                    } else if b.right.is_some() {
                        proof {
                            // only a horizontal right leaf can hang here
                            assert(t0.level == 1);
                            match t0.right {
                                Some(x) => {
                                    assert(x.aa_ok());
                                    assert(x.level >= 1);
                                },
                                None => {},
                            }
                            assert(opt_level(t0.right) == 1);
                            assert(opt_as_map(t0.left).dom() =~= Set::<K>::empty());
                            assert(t0.as_map() =~= opt_as_map(t0.right).insert(
                                t0.key,
                                t0.value,
                            ));
                            assert(opt_as_map(t0.right) =~= t0.as_map().remove(t0.key));
                        }
                        let rchild = b.right.take();
                        let dead = *b;
                        let TreeNode { value, .. } = dead;
                        *node = rchild;
                        Some(value)
                    } else {
                        proof {
                            assert(t0.level == 1);
                            assert(opt_as_map(t0.left).dom() =~= Set::<K>::empty());
                            assert(opt_as_map(t0.right).dom() =~= Set::<K>::empty());
                            assert(t0.as_map() =~= Map::<K, V>::empty().insert(t0.key, t0.value));
                            assert(opt_as_map(None::<Box<TreeNode<K, V>>>) =~= t0.as_map().remove(
                                t0.key,
                            ));
                        }
                        let dead = *b;
                        let TreeNode { value, .. } = dead;
                        *node = None;
                        Some(value)
                    }
                },
            }
        },
    }
}

/// Replacing a left subtree by one that holds the same keys except for a
/// changed value keeps the node ordered and balanced, and changes exactly
/// that one binding.
proof fn lemma_replace_left<K, V, C: Comparator<K>>(cmp: C, t0: TreeNode<K, V>)
    requires
        cmp.valid(),
        t0.aa_ok(),
        t0.ord_ok(cmp),
    ensures
        forall|l1: Option<Box<TreeNode<K, V>>>, nv: V, k: K|
            #![trigger opt_as_map(l1), opt_as_map(t0.left).insert(k, nv)]
            (opt_as_map(l1) == opt_as_map(t0.left).insert(k, nv) && lt_under(cmp, k, t0.key)
                && opt_aa_ok(l1) && opt_ord_ok(
                l1,
                cmp,
            ) && opt_seq(l1).len() == opt_seq(t0.left).len() && opt_level(l1) == opt_level(
                t0.left,
            )) ==> ({
                let t1 = TreeNode {
                    key: t0.key,
                    value: t0.value,
                    left: l1,
                    right: t0.right,
                    level: t0.level,
                };
                &&& t1.as_map() == t0.as_map().insert(k, nv)
                &&& t1.aa_ok()
                &&& t1.ord_ok(cmp)
                &&& t1.as_seq().len() == t0.as_seq().len()
            }),
{
    assert forall|l1: Option<Box<TreeNode<K, V>>>, nv: V, k: K|
        (opt_as_map(l1) == opt_as_map(t0.left).insert(k, nv) && lt_under(cmp, k, t0.key)
            && opt_aa_ok(l1) && opt_ord_ok(
            l1,
            cmp,
        ) && opt_seq(l1).len() == opt_seq(t0.left).len() && opt_level(l1) == opt_level(
            t0.left,
        )) implies ({
        let t1 = TreeNode {
            key: t0.key,
            value: t0.value,
            left: l1,
            right: t0.right,
            level: t0.level,
        };
        &&& t1.as_map() == t0.as_map().insert(k, nv)
        &&& t1.aa_ok()
        &&& t1.ord_ok(cmp)
        &&& t1.as_seq().len() == t0.as_seq().len()
    }) by {
        if opt_as_map(t0.right).dom().contains(k) {
            cmp.lemma_antisymmetric(k, t0.key);
        }
        let t1 = TreeNode {
            key: t0.key,
            value: t0.value,
            left: l1,
            right: t0.right,
            level: t0.level,
        };
        assert(t1.as_map() == opt_as_map(l1).union_prefer_right(opt_as_map(t0.right)).insert(
            t1.key,
            t1.value,
        ));
        assert(t0.as_map() == opt_as_map(t0.left).union_prefer_right(opt_as_map(t0.right)).insert(
            t0.key,
            t0.value,
        ));
        assert(t1.as_map() =~= t0.as_map().insert(k, nv));
        assert forall|k2: K| #[trigger] opt_as_map(t1.left).dom().contains(k2) implies lt_under(
            cmp,
            k2,
            t1.key,
        ) by {
            if k2 != k {
                assert(opt_as_map(t0.left).dom().contains(k2));
            }
        }
        assert(t1.ord_ok(cmp));
        assert(t1.aa_ok());
        assert(t1.as_seq() == opt_seq(l1) + seq![(t1.key, t1.value)] + opt_seq(t0.right));
        assert(t0.as_seq() == opt_seq(t0.left) + seq![(t0.key, t0.value)] + opt_seq(t0.right));
    }
}

/// The mirror image of `lemma_replace_left`, for the right subtree.
proof fn lemma_replace_right<K, V, C: Comparator<K>>(cmp: C, t0: TreeNode<K, V>)
    requires
        cmp.valid(),
        t0.aa_ok(),
        t0.ord_ok(cmp),
    ensures
        forall|r1: Option<Box<TreeNode<K, V>>>, nv: V, k: K|
            #![trigger opt_as_map(r1), opt_as_map(t0.right).insert(k, nv)]
            (opt_as_map(r1) == opt_as_map(t0.right).insert(k, nv) && lt_under(cmp, t0.key, k)
                && opt_aa_ok(r1) && opt_ord_ok(
                r1,
                cmp,
            ) && opt_seq(r1).len() == opt_seq(t0.right).len() && opt_level(r1) == opt_level(
                t0.right,
            ) && opt_sngl(r1) == opt_sngl(t0.right)) ==> ({
                let t1 = TreeNode {
                    key: t0.key,
                    value: t0.value,
                    left: t0.left,
                    right: r1,
                    level: t0.level,
                };
                &&& t1.as_map() == t0.as_map().insert(k, nv)
                &&& t1.aa_ok()
                &&& t1.ord_ok(cmp)
                &&& t1.as_seq().len() == t0.as_seq().len()
            }),
{
    assert forall|r1: Option<Box<TreeNode<K, V>>>, nv: V, k: K|
        (opt_as_map(r1) == opt_as_map(t0.right).insert(k, nv) && lt_under(cmp, t0.key, k)
            && opt_aa_ok(r1) && opt_ord_ok(
            r1,
            cmp,
        ) && opt_seq(r1).len() == opt_seq(t0.right).len() && opt_level(r1) == opt_level(
            t0.right,
        ) && opt_sngl(r1) == opt_sngl(t0.right)) implies ({
        let t1 = TreeNode {
            key: t0.key,
            value: t0.value,
            left: t0.left,
            right: r1,
            level: t0.level,
        };
        &&& t1.as_map() == t0.as_map().insert(k, nv)
        &&& t1.aa_ok()
        &&& t1.ord_ok(cmp)
        &&& t1.as_seq().len() == t0.as_seq().len()
    }) by {
        if opt_as_map(t0.left).dom().contains(k) {
            cmp.lemma_antisymmetric(t0.key, k);
        }
        let t1 = TreeNode {
            key: t0.key,
            value: t0.value,
            left: t0.left,
            right: r1,
            level: t0.level,
        };
        assert(t1.as_map() == opt_as_map(t0.left).union_prefer_right(opt_as_map(r1)).insert(
            t1.key,
            t1.value,
        ));
        assert(t0.as_map() == opt_as_map(t0.left).union_prefer_right(opt_as_map(t0.right)).insert(
            t0.key,
            t0.value,
        ));
        assert(t1.as_map() =~= t0.as_map().insert(k, nv));
        assert forall|k2: K| #[trigger] opt_as_map(t1.right).dom().contains(k2) implies lt_under(
            cmp,
            t1.key,
            k2,
        ) by {
            if k2 != k {
                assert(opt_as_map(t0.right).dom().contains(k2));
            }
        }
        assert(t1.ord_ok(cmp));
        assert(t1.aa_ok());
        assert(t1.as_seq() == opt_seq(t0.left) + seq![(t1.key, t1.value)] + opt_seq(r1));
        assert(t0.as_seq() == opt_seq(t0.left) + seq![(t0.key, t0.value)] + opt_seq(t0.right));
    }
}

/// Descends to the node holding `key` and hands back a mutable reference to
/// its value; the tree around it is untouched, so the shape invariants
/// survive whatever the caller writes through the reference.
fn node_get_mut<'a, K, V, C: Comparator<K>>(
    node: &'a mut Option<Box<TreeNode<K, V>>>,
    key: &K,
    cmp: &C,
) -> (r: Option<&'a mut V>)
    requires
        cmp.valid(),
        opt_aa_ok(*old(node)),
        opt_ord_ok(*old(node), *cmp),
    ensures
        (match r {
            Some(v) => opt_as_map(*old(node)).dom().contains(*key) && *v == opt_as_map(
                *old(node),
            )[*key] && opt_as_map(*final(node)) == opt_as_map(*old(node)).insert(*key, *final(v))
                && opt_aa_ok(*final(node)) && opt_ord_ok(*final(node), *cmp) && opt_seq(
                *final(node),
            ).len() == opt_seq(*old(node)).len() && opt_level(*final(node)) == opt_level(
                *old(node),
            ) && opt_sngl(*final(node)) == opt_sngl(*old(node)),
            None => !opt_as_map(*old(node)).dom().contains(*key) && *final(node) == *old(node),
        }),
    decreases opt_seq(*old(node)).len(),
{
    match node {
        None => {
            proof {
                assert(opt_as_map(None::<Box<TreeNode<K, V>>>).dom() =~= Set::<K>::empty());
            }
            None
        },
        Some(b) => {
            proof {
                lemma_as_seq_len_parts(**b);
            }
            match cmp.compare(key, &b.key) {
                Ordering::Equal => {
                    let ghost t0 = **b;
                    proof {
                        assert(t0.as_map().dom().contains(*key));
                        assert(t0.as_map()[*key] == t0.value);
                        assert forall|nv: V|
                            #![trigger t0.as_map().insert(*key, nv)]
                            ({
                                let t1 = TreeNode {
                                    key: t0.key,
                                    value: nv,
                                    left: t0.left,
                                    right: t0.right,
                                    level: t0.level,
                                };
                                &&& t1.as_map() == t0.as_map().insert(*key, nv)
                                &&& t1.aa_ok()
                                &&& t1.ord_ok(*cmp)
                                &&& t1.as_seq().len() == t0.as_seq().len()
                            }) by {
                            let t1 = TreeNode {
                                key: t0.key,
                                value: nv,
                                left: t0.left,
                                right: t0.right,
                                level: t0.level,
                            };
                            assert(t1.as_map() == opt_as_map(t0.left).union_prefer_right(
                                opt_as_map(t0.right),
                            ).insert(t1.key, nv));
                            assert(t0.as_map() == opt_as_map(t0.left).union_prefer_right(
                                opt_as_map(t0.right),
                            ).insert(t0.key, t0.value));
                            assert(t1.as_map() =~= t0.as_map().insert(*key, nv));
                            assert(t1.aa_ok());
                            assert(t1.ord_ok(*cmp));
                            assert(t1.as_seq() == opt_seq(t0.left) + seq![(t1.key, nv)] + opt_seq(
                                t0.right,
                            ));
                            assert(t0.as_seq() == opt_seq(t0.left) + seq![(t0.key, t0.value)]
                                + opt_seq(t0.right));
                        }
                    }
                    Some(&mut b.value)
                },
                Ordering::Less => {
                    let ghost t0 = **b;
                    proof {
                        if opt_as_map(t0.right).dom().contains(*key) {
                            cmp.lemma_antisymmetric(*key, t0.key);
                        }
                        assert(t0.as_map().dom().contains(*key) == opt_as_map(
                            t0.left,
                        ).dom().contains(*key));
                        if opt_as_map(t0.left).dom().contains(*key) {
                            assert(t0.as_map()[*key] == opt_as_map(t0.left)[*key]);
                        }
                        lemma_replace_left(*cmp, t0);
                    }
                    node_get_mut(&mut b.left, key, cmp)
                },
                Ordering::Greater => {
                    let ghost t0 = **b;
                    proof {
                        if opt_as_map(t0.left).dom().contains(*key) {
                            cmp.lemma_antisymmetric(t0.key, *key);
                        }
                        assert(t0.as_map().dom().contains(*key) == opt_as_map(
                            t0.right,
                        ).dom().contains(*key));
                        if opt_as_map(t0.right).dom().contains(*key) {
                            assert(t0.as_map()[*key] == opt_as_map(t0.right)[*key]);
                        }
                        lemma_replace_right(*cmp, t0);
                    }
                    node_get_mut(&mut b.right, key, cmp)
                },
            }
        },
    }
}

/// The map `m` extended by a sequence of key-value pairs, in order: a later
/// entry overwrites an earlier one with the same key.
pub open spec fn extended<K, V>(m: Map<K, V>, entries: Seq<(K, V)>) -> Map<K, V>
    decreases entries.len(),
{
    if entries.len() == 0 {
        m
    } else {
        extended(m.insert(entries[0].0, entries[0].1), entries.drop_first())
    }
}

impl<K: Ord, V> TreeMap<K, V, Natural<K>> {
    /// Creates an empty `TreeMap` ordered according to the natural order of
    /// its keys.
    pub fn new() -> (r: TreeMap<K, V, Natural<K>>)
        requires
            obeys_cmp::<K>(),
            obeys_concrete_eq::<K>(),
        ensures
            r.well_formed(),
            r@ == Map::<K, V>::empty(),
            r.to_seq() == Seq::<(K, V)>::empty(),
    {
        TreeMap::with_comparator(natural())
    }

    /// Builds a map from a sequence of key-value pairs under the natural
    /// order; on a repeated key the later entry wins.
    pub fn from_iter(entries: Vec<(K, V)>) -> (r: TreeMap<K, V, Natural<K>>)
        requires
            obeys_cmp::<K>(),
            obeys_concrete_eq::<K>(),
            entries@.len() + 1 < usize::MAX as int,
        ensures
            r.well_formed(),
            r@ == extended(Map::<K, V>::empty(), entries@),
    {
        let mut r = TreeMap::new();
        r.extend(entries);
        r
    }
}

/// Generic search: descend by the caller's decision function, going left on
/// `Less`, right on `Greater`, stopping on `Equal`.
fn tree_find_with<'a, K, V, C: Comparator<K>, F: Fn(&K) -> Ordering>(
    node: &'a Option<Box<TreeNode<K, V>>>,
    f: F,
    Ghost(cmp): Ghost<C>,
) -> (r: Option<&'a V>)
    requires
        cmp.valid(),
        opt_ord_ok(*node, cmp),
        forall|k: K| #[trigger] call_requires(f, (&k,)),
    ensures
        (match r {
            Some(v) => exists|k: K|
                #[trigger] call_ensures(f, (&k,), Ordering::Equal) && opt_as_map(
                    *node,
                ).dom().contains(k) && opt_as_map(*node)[k] == *v,
            None => true,
        }),
        forall|probe: K| #[trigger]
            navigates(f, cmp, probe) ==> (match r {
                Some(v) => opt_as_map(*node).dom().contains(probe)
                    && *v == opt_as_map(*node)[probe],
                None => !opt_as_map(*node).dom().contains(probe),
            }),
{
    let mut cur: &Option<Box<TreeNode<K, V>>> = node;
    loop
        invariant
            cmp.valid(),
            opt_ord_ok(*cur, cmp),
            forall|k: K| #[trigger] call_requires(f, (&k,)),
            forall|k: K|
                #[trigger] opt_as_map(*cur).dom().contains(k) ==> opt_as_map(
                    *node,
                ).dom().contains(k) && opt_as_map(*node)[k] == opt_as_map(*cur)[k],
            forall|probe: K| #[trigger]
                navigates(f, cmp, probe) ==> (opt_as_map(*node).dom().contains(probe)
                    == opt_as_map(*cur).dom().contains(probe)),
        decreases opt_seq(*cur).len(),
    {
        match cur {
            None => {
                proof {
                    assert(opt_as_map(None::<Box<TreeNode<K, V>>>).dom() =~= Set::<K>::empty());
                }
                return None;
            },
            Some(b) => {
                proof {
                    lemma_as_seq_len_parts(**b);
                }
                match f(&b.key) {
                    Ordering::Equal => {
                        proof {
                            let t = **b;
                            assert(opt_as_map(*cur) == t.as_map());
                            assert(call_ensures(f, (&t.key,), Ordering::Equal));
                            assert(t.as_map().dom().contains(t.key));
                            assert(t.as_map()[t.key] == t.value);
                            assert(opt_as_map(*node).dom().contains(t.key) && opt_as_map(*node)[
                                t.key] == t.value);
                            assert forall|probe: K| #[trigger] navigates(f, cmp, probe) implies
                                probe == t.key by {
                                assert(three_way(cmp, probe, t.key) == Ordering::Equal);
                            }
                        }
                        return Some(&b.value);
                    },
                    Ordering::Less => {
                        proof {
                            let t = **b;
                            assert(opt_as_map(*cur) == t.as_map());
                            assert(call_ensures(f, (&t.key,), Ordering::Less));
                            assert forall|k: K| #[trigger] opt_as_map(t.left).dom().contains(k)
                                implies t.as_map().dom().contains(k) && t.as_map()[k] == opt_as_map(
                                t.left,
                            )[k] by {
                                if opt_as_map(t.right).dom().contains(k) {
                                    cmp.lemma_antisymmetric(k, t.key);
                                }
                            }
                            assert forall|probe: K| #[trigger] navigates(f, cmp, probe) implies
                                (opt_as_map(t.left).dom().contains(probe)
                                    == t.as_map().dom().contains(probe)) by {
                                assert(three_way(cmp, probe, t.key) == Ordering::Less);
                                assert(lt_under(cmp, probe, t.key));
                                if opt_as_map(t.right).dom().contains(probe) {
                                    cmp.lemma_antisymmetric(probe, t.key);
                                }
                            }
                        }
                        cur = &b.left;
                    },
                    Ordering::Greater => {
                        proof {
                            let t = **b;
                            assert(opt_as_map(*cur) == t.as_map());
                            assert(call_ensures(f, (&t.key,), Ordering::Greater));
                            assert forall|k: K| #[trigger] opt_as_map(t.right).dom().contains(k)
                                implies t.as_map().dom().contains(k) && t.as_map()[k] == opt_as_map(
                                t.right,
                            )[k] by {
                                if opt_as_map(t.left).dom().contains(k) {
                                    cmp.lemma_antisymmetric(t.key, k);
                                }
                            }
                            assert forall|probe: K| #[trigger] navigates(f, cmp, probe) implies
                                (opt_as_map(t.right).dom().contains(probe)
                                    == t.as_map().dom().contains(probe)) by {
                                assert(three_way(cmp, probe, t.key) == Ordering::Greater);
                                cmp.lemma_total(probe, t.key);
                                assert(lt_under(cmp, t.key, probe));
                                if opt_as_map(t.left).dom().contains(probe) {
                                    cmp.lemma_antisymmetric(t.key, probe);
                                }
                            }
                        }
                        cur = &b.right;
                    },
                }
            },
        }
    }
}

/// Generic search like `tree_find_with`, handing back a mutable reference to
/// the found value.
fn tree_find_with_mut<'a, K, V, C: Comparator<K>, F: Fn(&K) -> Ordering>(
    node: &'a mut Option<Box<TreeNode<K, V>>>,
    f: F,
    Ghost(cmp): Ghost<C>,
) -> (r: Option<&'a mut V>)
    requires
        cmp.valid(),
        opt_aa_ok(*old(node)),
        opt_ord_ok(*old(node), cmp),
        forall|k: K| #[trigger] call_requires(f, (&k,)),
    ensures
        (match r {
            Some(v) => (exists|k: K|
                #[trigger] call_ensures(f, (&k,), Ordering::Equal) && opt_as_map(
                    *old(node),
                ).dom().contains(k) && opt_as_map(*old(node))[k] == *v && opt_as_map(*final(node))
                    == opt_as_map(*old(node)).insert(k, *final(v))) && opt_aa_ok(*final(node))
                && opt_ord_ok(*final(node), cmp) && opt_seq(*final(node)).len() == opt_seq(
                *old(node),
            ).len() && opt_level(*final(node)) == opt_level(*old(node)) && opt_sngl(*final(node))
                == opt_sngl(*old(node)),
            None => *final(node) == *old(node),
        }),
        forall|probe: K| #[trigger]
            navigates(f, cmp, probe) ==> (match r {
                Some(v) => opt_as_map(*old(node)).dom().contains(probe) && *v == opt_as_map(
                    *old(node),
                )[probe] && opt_as_map(*final(node)) == opt_as_map(*old(node)).insert(
                    probe,
                    *final(v),
                ),
                None => !opt_as_map(*old(node)).dom().contains(probe),
            }),
    decreases opt_seq(*old(node)).len(),
{
    match node {
        None => {
            proof {
                assert(opt_as_map(None::<Box<TreeNode<K, V>>>).dom() =~= Set::<K>::empty());
            }
            None
        },
        Some(b) => {
            proof {
                lemma_as_seq_len_parts(**b);
            }
            match f(&b.key) {
                Ordering::Equal => {
                    let ghost t0 = **b;
                    proof {
                        assert(opt_as_map(*old(node)) == t0.as_map());
                        assert(call_ensures(f, (&t0.key,), Ordering::Equal));
                        assert(t0.as_map().dom().contains(t0.key));
                        assert(t0.as_map()[t0.key] == t0.value);
                        assert forall|probe: K| #[trigger] navigates(f, cmp, probe) implies probe
                            == t0.key by {
                            assert(three_way(cmp, probe, t0.key) == Ordering::Equal);
                        }
                        assert forall|nv: V|
                            #![trigger t0.as_map().insert(t0.key, nv)]
                            ({
                                let t1 = TreeNode {
                                    key: t0.key,
                                    value: nv,
                                    left: t0.left,
                                    right: t0.right,
                                    level: t0.level,
                                };
                                &&& t1.as_map() == t0.as_map().insert(t0.key, nv)
                                &&& t1.aa_ok()
                                &&& t1.ord_ok(cmp)
                                &&& t1.as_seq().len() == t0.as_seq().len()
                            }) by {
                            let t1 = TreeNode {
                                key: t0.key,
                                value: nv,
                                left: t0.left,
                                right: t0.right,
                                level: t0.level,
                            };
                            assert(t1.as_map() == opt_as_map(t0.left).union_prefer_right(
                                opt_as_map(t0.right),
                            ).insert(t1.key, nv));
                            assert(t0.as_map() == opt_as_map(t0.left).union_prefer_right(
                                opt_as_map(t0.right),
                            ).insert(t0.key, t0.value));
                            assert(t1.as_map() =~= t0.as_map().insert(t0.key, nv));
                            assert(t1.aa_ok());
                            assert(t1.ord_ok(cmp));
                            assert(t1.as_seq() == opt_seq(t0.left) + seq![(t1.key, nv)] + opt_seq(
                                t0.right,
                            ));
                            assert(t0.as_seq() == opt_seq(t0.left) + seq![(t0.key, t0.value)]
                                + opt_seq(t0.right));
                        }
                    }
                    Some(&mut b.value)
                },
                Ordering::Less => {
                    let ghost t0 = **b;
                    proof {
                        assert(opt_as_map(*old(node)) == t0.as_map());
                        assert(opt_seq(*old(node)) == t0.as_seq());
                        assert(call_ensures(f, (&t0.key,), Ordering::Less));
                        assert forall|k: K| #[trigger] opt_as_map(t0.left).dom().contains(k)
                            implies t0.as_map().dom().contains(k) && t0.as_map()[k] == opt_as_map(
                            t0.left,
                        )[k] && lt_under(cmp, k, t0.key) by {
                            if opt_as_map(t0.right).dom().contains(k) {
                                cmp.lemma_antisymmetric(k, t0.key);
                            }
                        }
                        assert forall|probe: K| #[trigger] navigates(f, cmp, probe) implies
                            (opt_as_map(t0.left).dom().contains(probe) == t0.as_map().dom().contains(
                            probe,
                        ) && lt_under(cmp, probe, t0.key)) by {
                            assert(three_way(cmp, probe, t0.key) == Ordering::Less);
                            assert(lt_under(cmp, probe, t0.key));
                            if opt_as_map(t0.right).dom().contains(probe) {
                                cmp.lemma_antisymmetric(probe, t0.key);
                            }
                        }
                        lemma_replace_left(cmp, t0);
                    }
                    tree_find_with_mut::<K, V, C, F>(&mut b.left, f, Ghost(cmp))
                },
                Ordering::Greater => {
                    let ghost t0 = **b;
                    proof {
                        assert(opt_as_map(*old(node)) == t0.as_map());
                        assert(opt_seq(*old(node)) == t0.as_seq());
                        assert(call_ensures(f, (&t0.key,), Ordering::Greater));
                        assert forall|k: K| #[trigger] opt_as_map(t0.right).dom().contains(k)
                            implies t0.as_map().dom().contains(k) && t0.as_map()[k] == opt_as_map(
                            t0.right,
                        )[k] && lt_under(cmp, t0.key, k) by {
                            if opt_as_map(t0.left).dom().contains(k) {
                                cmp.lemma_antisymmetric(t0.key, k);
                            }
                        }
                        assert forall|probe: K| #[trigger] navigates(f, cmp, probe) implies
                            (opt_as_map(t0.right).dom().contains(probe) == t0.as_map().dom().contains(
                            probe,
                        ) && lt_under(cmp, t0.key, probe)) by {
                            assert(three_way(cmp, probe, t0.key) == Ordering::Greater);
                            cmp.lemma_total(probe, t0.key);
                            assert(lt_under(cmp, t0.key, probe));
                            if opt_as_map(t0.left).dom().contains(probe) {
                                cmp.lemma_antisymmetric(t0.key, probe);
                            }
                        }
                        lemma_replace_right(cmp, t0);
                    }
                    tree_find_with_mut::<K, V, C, F>(&mut b.right, f, Ghost(cmp))
                },
            }
        },
    }
}

/// The direction of a traversal: whether the left child (ascending order) or
/// the right child (descending order) is visited first.
pub trait Direction {
    /// Whether this direction visits keys in ascending order.
    spec fn fwd() -> bool;

    /// The runtime answer to `fwd`.
    fn forward() -> (b: bool)
        ensures
            b == Self::fwd(),
    ;
}

/// Ascending key order.
pub struct Forward;

impl Direction for Forward {
    open spec fn fwd() -> bool {
        true
    }

    fn forward() -> bool {
        true
    }
}

/// Descending key order.
pub struct Backward;

impl Direction for Backward {
    open spec fn fwd() -> bool {
        false
    }

    fn forward() -> bool {
        false
    }
}

/// Borrows the root node of an optional subtree.
fn deref_node<'a, K, V>(node: &'a Option<Box<TreeNode<K, V>>>) -> (r: Option<&'a TreeNode<K, V>>)
    ensures
        (match r {
            Some(n) => (*node) is Some && *n == *node.unwrap(),
            None => (*node) is None,
        }),
{
    match node {
        Some(b) => Some(&**b),
        None => None,
    }
}

/// The in-order sequence of a borrowed optional subtree.
spec fn ref_seq<K, V>(node: Option<&TreeNode<K, V>>) -> Seq<(K, V)> {
    match node {
        None => Seq::empty(),
        Some(n) => n.as_seq(),
    }
}

/// What a forward cursor stack still has to yield: each stacked node, then
/// its right subtree, from the top of the stack down.
spec fn stack_rem_fwd<K, V>(s: Seq<&TreeNode<K, V>>) -> Seq<(K, V)>
    decreases s.len(),
{
    if s.len() == 0 {
        Seq::empty()
    } else {
        seq![(s.last().key, s.last().value)] + opt_seq(s.last().right) + stack_rem_fwd(
            s.drop_last(),
        )
    }
}

/// What a backward cursor stack still has to yield: each stacked node, then
/// its left subtree in descending order, from the top of the stack down.
spec fn stack_rem_bwd<K, V>(s: Seq<&TreeNode<K, V>>) -> Seq<(K, V)>
    decreases s.len(),
{
    if s.len() == 0 {
        Seq::empty()
    } else {
        seq![(s.last().key, s.last().value)] + opt_seq(s.last().left).reverse() + stack_rem_bwd(
            s.drop_last(),
        )
    }
}

/// A lazy iterator over a map: an explicit stack of ancestors awaiting a
/// visit and the next unexplored subtree.
pub struct Iter<'a, K, V, D: Direction> {
    stack: Vec<&'a TreeNode<K, V>>,
    node: Option<&'a TreeNode<K, V>>,
    direction: PhantomData<D>,
}

impl<'a, K, V, D: Direction> Iter<'a, K, V, D> {
    /// The entries this iterator has yet to yield, in yield order: ascending
    /// for a forward cursor, descending for a backward one.
    pub closed spec fn remaining(self) -> Seq<(K, V)> {
        if D::fwd() {
            ref_seq(self.node) + stack_rem_fwd(self.stack@)
        } else {
            ref_seq(self.node).reverse() + stack_rem_bwd(self.stack@)
        }
    }

    /// The cursor has fully descended: the next entry sits on the stack top.
    spec fn normalized(self) -> bool {
        self.node is None
    }

    // Descend into the near child until the next entry to yield is the top
    // of the stack.
    fn normalize(&mut self)
        ensures
            final(self).remaining() == old(self).remaining(),
            final(self).normalized(),
    {
        loop
            invariant
                self.remaining() == old(self).remaining(),
            decreases ref_seq(self.node).len(),
        {
            match self.node {
                None => {
                    return ;
                },
                Some(n) => {
                    proof {
                        lemma_as_seq_len_parts(*n);
                    }
                    let ghost pre = *self;
                    if D::forward() {
                        self.node = deref_node(&n.left);
                    } else {
                        self.node = deref_node(&n.right);
                    }
                    self.stack.push(n);
                    proof {
                        assert(self.stack@.drop_last() == pre.stack@);
                        assert(self.stack@.last() == n);
                        if D::fwd() {
                            assert(ref_seq(self.node) == opt_seq(n.left));
                            assert(stack_rem_fwd(self.stack@) == seq![(n.key, n.value)] + opt_seq(
                                n.right,
                            ) + stack_rem_fwd(pre.stack@));
                            assert(n.as_seq() == opt_seq(n.left) + seq![(n.key, n.value)]
                                + opt_seq(n.right));
                            assert(self.remaining() =~= pre.remaining());
                        } else {
                            assert(ref_seq(self.node) == opt_seq(n.right));
                            assert(stack_rem_bwd(self.stack@) == seq![(n.key, n.value)] + opt_seq(
                                n.left,
                            ).reverse() + stack_rem_bwd(pre.stack@));
                            assert(n.as_seq() == opt_seq(n.left) + seq![(n.key, n.value)]
                                + opt_seq(n.right));
                            assert(n.as_seq().reverse() =~= opt_seq(n.right).reverse() + seq![
                                (n.key, n.value),
                            ] + opt_seq(n.left).reverse());
                            assert(self.remaining() =~= pre.remaining());
                        }
                    }
                },
            }
        }
    }

    // The node to be yielded next, once the cursor is normalized.
    fn top(&self) -> (r: Option<&'a TreeNode<K, V>>)
        requires
            self.normalized(),
        ensures
            (match r {
                Some(n) => self.remaining().len() > 0 && self.remaining()[0] == (n.key, n.value),
                None => self.remaining().len() == 0,
            }),
    {
        if self.stack.len() == 0 {
            None
        } else {
            let n = self.stack[self.stack.len() - 1];
            proof {
                assert(self.stack@.last() == n);
            }
            Some(n)
        }
    }

    /// Advances the iterator and returns the next key-value pair in this
    /// direction's order, or `None` when the traversal is finished.
    pub fn next(&mut self) -> (r: Option<(&'a K, &'a V)>)
        ensures
            (match r {
                Some(kv) => old(self).remaining().len() > 0 && (*kv.0, *kv.1) == old(self).remaining()[0] && final(self).remaining() == old(self).remaining().skip(1),
                None => old(self).remaining().len() == 0 && final(self).remaining() == old(self).remaining(),
            }),
    {
        self.normalize();
        let ghost pre = *self;
        match self.stack.pop() {
            None => None,
            Some(n) => {
                proof {
                    assert(pre.stack@.last() == n);
                    assert(self.stack@ == pre.stack@.drop_last());
                }
                if D::forward() {
                    self.node = deref_node(&n.right);
                    proof {
                        assert(ref_seq(self.node) == opt_seq(n.right));
                        assert(pre.remaining() == seq![(n.key, n.value)] + opt_seq(n.right)
                            + stack_rem_fwd(self.stack@));
                        assert(self.remaining() =~= pre.remaining().skip(1));
                    }
                } else {
                    self.node = deref_node(&n.left);
                    proof {
                        assert(ref_seq(self.node) == opt_seq(n.left));
                        assert(pre.remaining() == seq![(n.key, n.value)] + opt_seq(
                            n.left,
                        ).reverse() + stack_rem_bwd(self.stack@));
                        assert(self.remaining() =~= pre.remaining().skip(1));
                    }
                }
                Some((&n.key, &n.value))
            },
        }
    }

    /// A size hint in the `Iterator` protocol's shape: this lazy cursor
    /// promises nothing.
    pub fn size_hint(&self) -> (r: (usize, Option<usize>))
        ensures
            r.0 == 0 && r.1 is None,
    {
        (0, None)
    }
}

/// An iterator over a map's keys, in ascending order.
pub struct Keys<'a, K, V> {
    iter: Iter<'a, K, V, Forward>,
}

impl<'a, K, V> Keys<'a, K, V> {
    /// The entries whose keys this iterator has yet to yield, ascending.
    pub closed spec fn remaining(self) -> Seq<(K, V)> {
        self.iter.remaining()
    }

    /// Advances the iterator and returns the next key in ascending order.
    pub fn next(&mut self) -> (r: Option<&'a K>)
        ensures
            (match r {
                Some(k) => old(self).remaining().len() > 0 && *k == old(self).remaining()[0].0
                    && final(self).remaining() == old(self).remaining().skip(1),
                None => old(self).remaining().len() == 0 && final(self).remaining() == old(self).remaining(),
            }),
    {
        match self.iter.next() {
            Some(kv) => Some(kv.0),
            None => None,
        }
    }
}

/// An iterator over a map's values, in ascending order of their keys.
pub struct Values<'a, K, V> {
    iter: Iter<'a, K, V, Forward>,
}

impl<'a, K, V> Values<'a, K, V> {
    /// The entries whose values this iterator has yet to yield, ascending.
    pub closed spec fn remaining(self) -> Seq<(K, V)> {
        self.iter.remaining()
    }

    /// Advances the iterator and returns the next value in ascending key
    /// order.
    pub fn next(&mut self) -> (r: Option<&'a V>)
        ensures
            (match r {
                Some(v) => old(self).remaining().len() > 0 && *v == old(self).remaining()[0].1
                    && final(self).remaining() == old(self).remaining().skip(1),
                None => old(self).remaining().len() == 0 && final(self).remaining() == old(self).remaining(),
            }),
    {
        match self.iter.next() {
            Some(kv) => Some(kv.1),
            None => None,
        }
    }
}

/// What a consuming iterator's stack still has to yield: each owned subtree
/// in full, from the top of the stack down.
spec fn into_rem<K, V>(s: Seq<TreeNode<K, V>>) -> Seq<(K, V)>
    decreases s.len(),
{
    if s.len() == 0 {
        Seq::empty()
    } else {
        s.last().as_seq() + into_rem(s.drop_last())
    }
}

/// Every stacked subtree holds at least one entry.
proof fn lemma_into_rem_len<K, V>(s: Seq<TreeNode<K, V>>)
    ensures
        into_rem(s).len() >= s.len(),
    decreases s.len(),
{
    if s.len() > 0 {
        lemma_into_rem_len(s.drop_last());
        lemma_as_seq_len_parts(s.last());
    }
}

/// A lazy iterator that consumes the map while iterating: it owns a stack of
/// detached subtrees and dismantles them leftmost-first.
pub struct IntoIter<K, V> {
    stack: Vec<TreeNode<K, V>>,
    remaining: usize,
}

impl<K, V> IntoIter<K, V> {
    /// The entries this iterator has yet to yield, in ascending order.
    pub closed spec fn remaining_entries(self) -> Seq<(K, V)> {
        into_rem(self.stack@)
    }

    /// The stored count matches the entries still to be yielded.
    pub closed spec fn wf(self) -> bool {
        self.remaining == self.remaining_entries().len()
    }

    /// Advances the iterator, handing out ownership of the next key-value
    /// pair in ascending order.
    pub fn next(&mut self) -> (r: Option<(K, V)>)
        requires
            old(self).wf(),
        ensures
            final(self).wf(),
            (match r {
                Some(kv) => old(self).remaining_entries().len() > 0 && kv == old(self).remaining_entries()[0] && final(self).remaining_entries() == old(self).remaining_entries().skip(1),
                None => old(self).remaining_entries().len() == 0 && final(self).remaining_entries() == old(self).remaining_entries(),
            }),
    {
        loop
            invariant
                self.wf(),
                self.remaining_entries() == old(self).remaining_entries(),
            decreases 2 * into_rem(self.stack@).len() - self.stack@.len(),
        {
            proof {
                lemma_into_rem_len(self.stack@);
            }
            let ghost pre = *self;
            match self.stack.pop() {
                None => {
                    return None;
                },
                Some(n) => {
                    proof {
                        assert(pre.stack@.last() == n);
                        assert(self.stack@ == pre.stack@.drop_last());
                        lemma_as_seq_len_parts(n);
                    }
                    let TreeNode { key, value, left, right, level } = n;
                    match left {
                        Some(b_left) => {
                            let rest = TreeNode { key, value, left: None, right, level };
                            proof {
                                assert(rest.as_seq() =~= seq![(rest.key, rest.value)] + opt_seq(
                                    rest.right,
                                ));
                            }
                            self.stack.push(rest);
                            let ghost mid = self.stack@;
                            self.stack.push(*b_left);
                            proof {
                                assert(mid.drop_last() == pre.stack@.drop_last());
                                assert(mid.last() == rest);
                                assert(self.stack@.drop_last() == mid);
                                assert(self.stack@.last() == *b_left);
                                assert(n.left == Some(b_left));
                                assert(n.right == rest.right && n.key == rest.key && n.value
                                    == rest.value);
                                assert(n.as_seq() == opt_seq(n.left) + seq![(n.key, n.value)]
                                    + opt_seq(n.right));
                                assert(opt_seq(n.left) == b_left.as_seq());
                                assert(into_rem(self.stack@) == b_left.as_seq() + into_rem(mid));
                                assert(into_rem(mid) == rest.as_seq() + into_rem(
                                    pre.stack@.drop_last(),
                                ));
                                assert(into_rem(pre.stack@) == n.as_seq() + into_rem(
                                    pre.stack@.drop_last(),
                                ));
                                assert(into_rem(self.stack@) =~= into_rem(pre.stack@));
                                lemma_into_rem_len(self.stack@);
                            }
                        },
                        None => {
                            match right {
                                Some(b_right) => {
                                    self.stack.push(*b_right);
                                    proof {
                                        assert(self.stack@.drop_last() == pre.stack@.drop_last());
                                        assert(self.stack@.last() == *b_right);
                                    }
                                },
                                None => {},
                            }
                            proof {
                                assert(n.as_seq() =~= seq![(n.key, n.value)] + opt_seq(n.right));
                                assert(into_rem(self.stack@) =~= into_rem(pre.stack@).skip(1));
                                assert(into_rem(pre.stack@)[0] == (n.key, n.value));
                            }
                            self.remaining = self.remaining - 1;
                            return Some((key, value));
                        },
                    }
                },
            }
        }
    }

    /// How many entries remain: this iterator knows its length exactly.
    pub fn size_hint(&self) -> (r: (usize, Option<usize>))
        requires
            self.wf(),
        ensures
            r.0 == self.remaining_entries().len(),
            r.1 == Some(r.0),
    {
        (self.remaining, Some(self.remaining))
    }
}

impl<K, V, C: Comparator<K>> TreeMap<K, V, C> {
    /// Gets a lazy iterator over the key-value pairs in the map, in
    /// ascending order.
    pub fn iter(&self) -> (it: Iter<K, V, Forward>)
        requires
            self.well_formed(),
        ensures
            it.remaining() == self.to_seq(),
    {
        let it = Iter { stack: Vec::new(), node: deref_node(&self.root), direction: PhantomData };
        proof {
            assert(it.stack@.len() == 0);
            assert(ref_seq(it.node) == opt_seq(self.root));
            assert(it.remaining() =~= self.to_seq());
        }
        it
    }

    /// Gets a lazy iterator over the keys in the map, in ascending order.
    pub fn keys(&self) -> (it: Keys<K, V>)
        requires
            self.well_formed(),
        ensures
            it.remaining() == self.to_seq(),
    {
        Keys { iter: self.iter() }
    }

    /// Gets a lazy iterator over the values in the map, in ascending order
    /// of their keys.
    pub fn values(&self) -> (it: Values<K, V>)
        requires
            self.well_formed(),
        ensures
            it.remaining() == self.to_seq(),
    {
        Values { iter: self.iter() }
    }

    /// Gets a lazy iterator that consumes the map, yielding its entries in
    /// ascending order with full ownership.
    pub fn into_iter(self) -> (it: IntoIter<K, V>)
        requires
            self.well_formed(),
        ensures
            it.wf(),
            it.remaining_entries() == self.to_seq(),
    {
        let TreeMap { root, length, .. } = self;
        let ghost root0 = root;
        let stk: Vec<TreeNode<K, V>> = match root {
            None => Vec::new(),
            Some(b) => {
                let mut v = Vec::new();
                v.push(*b);
                v
            },
        };
        let it = IntoIter { stack: stk, remaining: length };
        proof {
            match root0 {
                None => {
                    assert(it.remaining_entries() =~= opt_seq(root0));
                },
                Some(b) => {
                    assert(it.stack@.last() == *b);
                    assert(it.stack@.drop_last() =~= Seq::<TreeNode<K, V>>::empty());
                    assert(opt_seq(root0) == b.as_seq());
                    assert(into_rem(it.stack@) == b.as_seq() + into_rem(it.stack@.drop_last()));
                    assert(into_rem(Seq::<TreeNode<K, V>>::empty()) =~= Seq::<(K, V)>::empty());
                    assert(it.remaining_entries() =~= opt_seq(root0));
                },
            }
        }
        it
    }
}

/// The key `k` satisfies the lower endpoint `min`.
pub open spec fn lower_ok<K, C: Comparator<K>>(cmp: C, min: Bound<&K>, k: K) -> bool {
    match min {
        Bound::Unbounded => true,
        Bound::Included(b) => cmp.le(*b, k),
        Bound::Excluded(b) => lt_under(cmp, *b, k),
    }
}

/// The key `k` satisfies the upper endpoint `max`.
pub open spec fn upper_ok<K, C: Comparator<K>>(cmp: C, max: Bound<&K>, k: K) -> bool {
    match max {
        Bound::Unbounded => true,
        Bound::Included(b) => cmp.le(k, *b),
        Bound::Excluded(b) => lt_under(cmp, k, *b),
    }
}

/// The key `k` lies within both endpoints.
pub open spec fn in_range<K, C: Comparator<K>>(cmp: C, min: Bound<&K>, max: Bound<&K>, k: K) -> bool {
    lower_ok(cmp, min, k) && upper_ok(cmp, max, k)
}

/// Satisfaction of a lower endpoint is upward closed.
proof fn lemma_lower_mono<K, C: Comparator<K>>(cmp: C, min: Bound<&K>, a: K, b: K)
    requires
        cmp.valid(),
        lower_ok(cmp, min, a),
        cmp.le(a, b),
    ensures
        lower_ok(cmp, min, b),
{
    match min {
        Bound::Unbounded => {},
        Bound::Included(x) => {
            cmp.lemma_transitive(*x, a, b);
        },
        Bound::Excluded(x) => {
            cmp.lemma_transitive(*x, a, b);
            if *x == b {
                cmp.lemma_antisymmetric(*x, a);
            }
        },
    }
}

/// Satisfaction of an upper endpoint is downward closed.
proof fn lemma_upper_mono<K, C: Comparator<K>>(cmp: C, max: Bound<&K>, a: K, b: K)
    requires
        cmp.valid(),
        upper_ok(cmp, max, b),
        cmp.le(a, b),
    ensures
        upper_ok(cmp, max, a),
{
    match max {
        Bound::Unbounded => {},
        Bound::Included(x) => {
            cmp.lemma_transitive(a, b, *x);
        },
        Bound::Excluded(x) => {
            cmp.lemma_transitive(a, b, *x);
            if a == *x {
                cmp.lemma_antisymmetric(b, *x);
            }
        },
    }
}

/// Two predicates that agree on every element of `s` filter it identically.
proof fn lemma_filter_congruent<A>(s: Seq<A>, p: spec_fn(A) -> bool, q: spec_fn(A) -> bool)
    requires
        forall|i: int| 0 <= i < s.len() ==> p(#[trigger] s[i]) == q(s[i]),
    ensures
        s.filter(p) == s.filter(q),
    decreases s.len(),
{
    reveal(Seq::filter);
    if s.len() > 0 {
        lemma_filter_congruent(s.drop_last(), p, q);
    }
}

/// A predicate true of every element filters nothing out.
proof fn lemma_filter_all<A>(s: Seq<A>, p: spec_fn(A) -> bool)
    requires
        forall|i: int| 0 <= i < s.len() ==> p(#[trigger] s[i]),
    ensures
        s.filter(p) == s,
    decreases s.len(),
{
    reveal(Seq::filter);
    if s.len() > 0 {
        lemma_filter_all(s.drop_last(), p);
        assert(s.filter(p) =~= s);
    }
}

/// A predicate false of every element filters everything out.
proof fn lemma_filter_none<A>(s: Seq<A>, p: spec_fn(A) -> bool)
    requires
        forall|i: int| 0 <= i < s.len() ==> !p(#[trigger] s[i]),
    ensures
        s.filter(p) == Seq::<A>::empty(),
    decreases s.len(),
{
    reveal(Seq::filter);
    if s.len() > 0 {
        lemma_filter_none(s.drop_last(), p);
        assert(s.filter(p) =~= Seq::<A>::empty());
    }
}

/// Every element of a filtered sequence occurs in the original.
proof fn lemma_filter_element_of<A>(s: Seq<A>, p: spec_fn(A) -> bool)
    ensures
        forall|i: int|
            0 <= i < s.filter(p).len() ==> exists|j: int|
                0 <= j < s.len() && s[j] == #[trigger] s.filter(p)[i],
    decreases s.len(),
{
    reveal(Seq::filter);
    if s.len() > 0 {
        lemma_filter_element_of(s.drop_last(), p);
        assert forall|i: int| 0 <= i < s.filter(p).len() implies exists|j: int|
            0 <= j < s.len() && s[j] == #[trigger] s.filter(p)[i] by {
            if i < s.drop_last().filter(p).len() {
                assert(s.filter(p)[i] == s.drop_last().filter(p)[i]);
                let j = choose|j: int|
                    0 <= j < s.drop_last().len() && s.drop_last()[j] == s.drop_last().filter(p)[i];
                assert(s[j] == s.filter(p)[i]);
            } else {
                assert(s[s.len() - 1] == s.filter(p)[i]);
            }
        }
    }
}

/// Filtering a strictly ascending sequence leaves it strictly ascending.
proof fn lemma_filter_sorted<K, V, C: Comparator<K>>(
    cmp: C,
    s: Seq<(K, V)>,
    p: spec_fn((K, V)) -> bool,
)
    requires
        sorted_by(cmp, s),
    ensures
        sorted_by(cmp, s.filter(p)),
    decreases s.len(),
{
    reveal(Seq::filter);
    if s.len() > 0 {
        assert(sorted_by(cmp, s.drop_last())) by {
            assert forall|i: int, j: int| 0 <= i < j < s.drop_last().len() implies lt_under(
                cmp,
                s.drop_last()[i].0,
                s.drop_last()[j].0,
            ) by {
                assert(s.drop_last()[i] == s[i] && s.drop_last()[j] == s[j]);
            }
        }
        lemma_filter_sorted(cmp, s.drop_last(), p);
        lemma_filter_element_of(s.drop_last(), p);
        if p(s.last()) {
            let f = s.filter(p);
            assert(f == s.drop_last().filter(p).push(s.last()));
            assert forall|i: int, j: int| 0 <= i < j < f.len() implies lt_under(
                cmp,
                f[i].0,
                f[j].0,
            ) by {
                if j < f.len() - 1 {
                    assert(f[i] == s.drop_last().filter(p)[i]);
                    assert(f[j] == s.drop_last().filter(p)[j]);
                } else {
                    assert(f[j] == s.last());
                    assert(f[i] == s.drop_last().filter(p)[i]);
                    let w = choose|w: int|
                        0 <= w < s.drop_last().len() && s.drop_last()[w] == s.drop_last().filter(
                            p,
                        )[i];
                    assert(s[w] == f[i]);
                    assert(lt_under(cmp, s[w].0, s[s.len() - 1].0));
                }
            }
        }
    }
}

/// On a strictly ascending sequence, the entries inside both endpoints are
/// exactly the leading part of those above the lower endpoint.
proof fn lemma_filter_lower_split<K, V, C: Comparator<K>>(
    cmp: C,
    s: Seq<(K, V)>,
    p_low: spec_fn((K, V)) -> bool,
    p_both: spec_fn((K, V)) -> bool,
    p_lnu: spec_fn((K, V)) -> bool,
    p_up: spec_fn((K, V)) -> bool,
)
    requires
        cmp.valid(),
        sorted_by(cmp, s),
        forall|x: (K, V)| #[trigger] p_both(x) == (p_low(x) && p_up(x)),
        forall|x: (K, V)| #[trigger] p_lnu(x) == (p_low(x) && !p_up(x)),
        forall|x: (K, V), y: (K, V)|
            #![trigger p_low(x), p_low(y)]
            p_low(x) && cmp.le(x.0, y.0) ==> p_low(y),
        forall|x: (K, V), y: (K, V)|
            #![trigger p_up(x), p_up(y)]
            p_up(y) && cmp.le(x.0, y.0) ==> p_up(x),
    ensures
        s.filter(p_low) == s.filter(p_both) + s.filter(p_lnu),
    decreases s.len(),
{
    reveal(Seq::filter);
    if s.len() == 0 {
        assert(s.filter(p_low) =~= s.filter(p_both) + s.filter(p_lnu));
    } else {
        let s0 = s.drop_last();
        let x = s.last();
        assert(sorted_by(cmp, s0)) by {
            assert forall|i: int, j: int| 0 <= i < j < s0.len() implies lt_under(
                cmp,
                s0[i].0,
                s0[j].0,
            ) by {
                assert(s0[i] == s[i] && s0[j] == s[j]);
            }
        }
        lemma_filter_lower_split(cmp, s0, p_low, p_both, p_lnu, p_up);
        if p_low(x) && p_up(x) {
            // everything before the last entry satisfies the upper endpoint
            assert forall|i: int| 0 <= i < s0.len() implies !p_lnu(#[trigger] s0[i]) by {
                assert(s0[i] == s[i]);
                assert(lt_under(cmp, s[i].0, x.0));
                assert(p_up(x));
            }
            lemma_filter_none(s0, p_lnu);
            assert forall|i: int| 0 <= i < s0.len() implies p_low(#[trigger] s0[i]) == p_both(
                s0[i],
            ) by {
                assert(s0[i] == s[i]);
                assert(lt_under(cmp, s[i].0, x.0));
            }
            lemma_filter_congruent(s0, p_low, p_both);
            assert(s.filter(p_low) =~= s.filter(p_both) + s.filter(p_lnu));
        } else if p_low(x) {
            assert(s.filter(p_low) == s0.filter(p_low).push(x));
            assert(s.filter(p_both) == s0.filter(p_both));
            assert(s.filter(p_lnu) == s0.filter(p_lnu).push(x));
            assert(s.filter(p_low) =~= s.filter(p_both) + s.filter(p_lnu));
        } else {
            // nothing in the sequence reaches the lower endpoint
            assert forall|i: int| 0 <= i < s.len() implies !p_low(#[trigger] s[i]) by {
                if i < s.len() - 1 {
                    assert(lt_under(cmp, s[i].0, x.0));
                    if p_low(s[i]) {
                        assert(p_low(x));
                    }
                }
            }
            lemma_filter_none(s, p_low);
            lemma_filter_none(s0, p_low);
            assert forall|i: int| 0 <= i < s.len() implies !p_both(#[trigger] s[i]) by {}
            assert forall|i: int| 0 <= i < s.len() implies !p_lnu(#[trigger] s[i]) by {}
            lemma_filter_none(s, p_both);
            lemma_filter_none(s, p_lnu);
            assert(s.filter(p_low) =~= s.filter(p_both) + s.filter(p_lnu));
        }
    }
}

/// On a strictly ascending sequence, the entries inside both endpoints are
/// exactly the trailing part of those below the upper endpoint.
proof fn lemma_filter_upper_split<K, V, C: Comparator<K>>(
    cmp: C,
    s: Seq<(K, V)>,
    p_up: spec_fn((K, V)) -> bool,
    p_nlu: spec_fn((K, V)) -> bool,
    p_both: spec_fn((K, V)) -> bool,
    p_low: spec_fn((K, V)) -> bool,
)
    requires
        cmp.valid(),
        sorted_by(cmp, s),
        forall|x: (K, V)| #[trigger] p_both(x) == (p_low(x) && p_up(x)),
        forall|x: (K, V)| #[trigger] p_nlu(x) == (!p_low(x) && p_up(x)),
        forall|x: (K, V), y: (K, V)|
            #![trigger p_low(x), p_low(y)]
            p_low(x) && cmp.le(x.0, y.0) ==> p_low(y),
        forall|x: (K, V), y: (K, V)|
            #![trigger p_up(x), p_up(y)]
            p_up(y) && cmp.le(x.0, y.0) ==> p_up(x),
    ensures
        s.filter(p_up) == s.filter(p_nlu) + s.filter(p_both),
    decreases s.len(),
{
    reveal(Seq::filter);
    if s.len() == 0 {
        assert(s.filter(p_up) =~= s.filter(p_nlu) + s.filter(p_both));
    } else {
        let s0 = s.drop_last();
        let x = s.last();
        assert(sorted_by(cmp, s0)) by {
            assert forall|i: int, j: int| 0 <= i < j < s0.len() implies lt_under(
                cmp,
                s0[i].0,
                s0[j].0,
            ) by {
                assert(s0[i] == s[i] && s0[j] == s[j]);
            }
        }
        lemma_filter_upper_split(cmp, s0, p_up, p_nlu, p_both, p_low);
        if p_up(x) && p_low(x) {
            assert(s.filter(p_up) == s0.filter(p_up).push(x));
            assert(s.filter(p_both) == s0.filter(p_both).push(x));
            assert(s.filter(p_nlu) == s0.filter(p_nlu));
            assert(s.filter(p_up) =~= s.filter(p_nlu) + s.filter(p_both));
        } else if p_up(x) {
            // nothing here reaches the lower endpoint, so both-filters are empty
            assert forall|i: int| 0 <= i < s0.len() implies !p_both(#[trigger] s0[i]) by {
                assert(s0[i] == s[i]);
                assert(lt_under(cmp, s[i].0, x.0));
                if p_low(s[i]) {
                    assert(p_low(x));
                }
            }
            lemma_filter_none(s0, p_both);
            assert forall|i: int| 0 <= i < s0.len() implies p_up(#[trigger] s0[i]) == p_nlu(
                s0[i],
            ) by {
                assert(s0[i] == s[i]);
                assert(lt_under(cmp, s[i].0, x.0));
                if p_low(s[i]) {
                    assert(p_low(x));
                }
            }
            lemma_filter_congruent(s0, p_up, p_nlu);
            assert(s.filter(p_up) =~= s.filter(p_nlu) + s.filter(p_both));
        } else {
            assert(s.filter(p_up) == s0.filter(p_up));
            assert(s.filter(p_nlu) == s0.filter(p_nlu));
            assert(s.filter(p_both) == s0.filter(p_both));
            assert(s.filter(p_up) =~= s.filter(p_nlu) + s.filter(p_both));
        }
    }
}

/// The lower-endpoint test as a predicate on entries.
pub open spec fn lower_pred<K, V, C: Comparator<K>>(cmp: C, min: Bound<&K>) -> spec_fn((K, V)) -> bool {
    |p: (K, V)| lower_ok(cmp, min, p.0)
}

/// The upper-endpoint test as a predicate on entries.
pub open spec fn upper_pred<K, V, C: Comparator<K>>(cmp: C, max: Bound<&K>) -> spec_fn((K, V)) -> bool {
    |p: (K, V)| upper_ok(cmp, max, p.0)
}

/// The two-endpoint test as a predicate on entries.
pub open spec fn range_pred<K, V, C: Comparator<K>>(
    cmp: C,
    min: Bound<&K>,
    max: Bound<&K>,
) -> spec_fn((K, V)) -> bool {
    |p: (K, V)| in_range(cmp, min, max, p.0)
}

/// Entries outside the lower endpoint but satisfying the upper one.
spec fn low_cut_pred<K, V, C: Comparator<K>>(
    cmp: C,
    min: Bound<&K>,
    max: Bound<&K>,
) -> spec_fn((K, V)) -> bool {
    |p: (K, V)| !lower_ok(cmp, min, p.0) && upper_ok(cmp, max, p.0)
}

/// Entries satisfying the lower endpoint but outside the upper one.
spec fn high_cut_pred<K, V, C: Comparator<K>>(
    cmp: C,
    min: Bound<&K>,
    max: Bound<&K>,
) -> spec_fn((K, V)) -> bool {
    |p: (K, V)| lower_ok(cmp, min, p.0) && !upper_ok(cmp, max, p.0)
}

/// Every element of the in-order sequence of a child compares against the
/// node's own key the way the search-order invariant promises.
proof fn lemma_subtree_element_bounds<K, V, C: Comparator<K>>(cmp: C, n: TreeNode<K, V>)
    requires
        cmp.valid(),
        n.ord_ok(cmp),
    ensures
        forall|i: int|
            0 <= i < opt_seq(n.left).len() ==> lt_under(cmp, (#[trigger] opt_seq(n.left)[i]).0, n.key),
        forall|i: int|
            0 <= i < opt_seq(n.right).len() ==> lt_under(
                cmp,
                n.key,
                (#[trigger] opt_seq(n.right)[i]).0,
            ),
{
    match n.left {
        Some(l) => {
            lemma_node_bridge(cmp, *l);
            assert forall|i: int| 0 <= i < opt_seq(n.left).len() implies lt_under(
                cmp,
                (#[trigger] opt_seq(n.left)[i]).0,
                n.key,
            ) by {
                assert(opt_as_map(n.left).dom().contains(l.as_seq()[i].0));
            }
        },
        None => {},
    }
    match n.right {
        Some(r) => {
            lemma_node_bridge(cmp, *r);
            assert forall|i: int| 0 <= i < opt_seq(n.right).len() implies lt_under(
                cmp,
                n.key,
                (#[trigger] opt_seq(n.right)[i]).0,
            ) by {
                assert(opt_as_map(n.right).dom().contains(r.as_seq()[i].0));
            }
        },
        None => {},
    }
}

impl<'a, K, V, D: Direction> Iter<'a, K, V, D> {
    // The bound lies before the current node: descend into the near child.
    // A forward cursor keeps the node for later; a backward one discards it.
    fn traverse_before(&mut self)
        requires
            old(self).node is Some,
        ensures
            ({
                let n = old(self).node.unwrap();
                &&& (match final(self).node {
                    Some(m) => n.left is Some && *m == *n.left.unwrap(),
                    None => n.left is None,
                })
                &&& final(self).stack@ == if D::fwd() {
                    old(self).stack@.push(n)
                } else {
                    old(self).stack@
                }
            }),
    {
        match self.node {
            Some(n) => {
                self.node = deref_node(&n.left);
                if D::forward() {
                    self.stack.push(n);
                }
            },
            None => {
                proof {
                    assert(false);
                }
            },
        }
    }

    // The bound lies after the current node: descend into the far child.
    fn traverse_after(&mut self)
        requires
            old(self).node is Some,
        ensures
            ({
                let n = old(self).node.unwrap();
                &&& (match final(self).node {
                    Some(m) => n.right is Some && *m == *n.right.unwrap(),
                    None => n.right is None,
                })
                &&& final(self).stack@ == if D::fwd() {
                    old(self).stack@
                } else {
                    old(self).stack@.push(n)
                }
            }),
    {
        match self.node {
            Some(n) => {
                self.node = deref_node(&n.right);
                if !D::forward() {
                    self.stack.push(n);
                }
            },
            None => {
                proof {
                    assert(false);
                }
            },
        }
    }

    // The current node is where this side of the range starts: keep it as
    // the next node to yield.
    fn traverse_complete(&mut self)
        ensures
            (match old(self).node {
                Some(n) => final(self).stack@ == old(self).stack@.push(n) && final(self).node
                    is None,
                None => *final(self) == *old(self),
            }),
    {
        match self.node {
            Some(n) => {
                self.stack.push(n);
                self.node = None;
            },
            None => {},
        }
    }
}

impl<K, V, C: Comparator<K>> TreeMap<K, V, C> {
    // Compares a range endpoint against a resident key, from the point of
    // view of direction `D`: the answer says whether the endpoint lies
    // strictly before the key, exactly at the first key this side of the
    // range admits, or strictly after the key.
    fn compare_bound<D: Direction>(&self, bound: Bound<&K>, key: &K) -> (r: Ordering)
        requires
            self.spec_cmp().valid(),
        ensures
            D::fwd() ==> (match r {
                Ordering::Less => lower_ok(self.spec_cmp(), bound, *key),
                Ordering::Equal => lower_ok(self.spec_cmp(), bound, *key) && forall|k: K|
                    lt_under(self.spec_cmp(), k, *key) ==> !lower_ok(self.spec_cmp(), bound, k),
                Ordering::Greater => !lower_ok(self.spec_cmp(), bound, *key),
            }),
            !D::fwd() ==> (match r {
                Ordering::Greater => upper_ok(self.spec_cmp(), bound, *key),
                Ordering::Equal => upper_ok(self.spec_cmp(), bound, *key) && forall|k: K|
                    lt_under(self.spec_cmp(), *key, k) ==> !upper_ok(self.spec_cmp(), bound, k),
                Ordering::Less => !upper_ok(self.spec_cmp(), bound, *key),
            }),
    {
        if D::forward() {
            match bound {
                Bound::Unbounded => Ordering::Less,
                Bound::Included(k) => {
                    let c = self.cmp.compare(k, key);
                    proof {
                        match c {
                            Ordering::Less => {},
                            Ordering::Equal => {
                                self.cmp.lemma_total(*key, *key);
                                assert forall|k2: K| lt_under(self.cmp, k2, *key) implies
                                    !lower_ok(self.cmp, bound, k2) by {
                                    if self.cmp.le(*key, k2) {
                                        self.cmp.lemma_antisymmetric(k2, *key);
                                    }
                                }
                            },
                            Ordering::Greater => {
                                if self.cmp.le(*k, *key) {
                                    self.cmp.lemma_antisymmetric(*k, *key);
                                }
                            },
                        }
                    }
                    c
                },
                Bound::Excluded(k) => {
                    match self.cmp.compare(k, key) {
                        Ordering::Less => Ordering::Less,
                        Ordering::Equal => Ordering::Greater,
                        Ordering::Greater => {
                            proof {
                                if self.cmp.le(*k, *key) {
                                    self.cmp.lemma_antisymmetric(*k, *key);
                                }
                            }
                            Ordering::Greater
                        },
                    }
                },
            }
        } else {
            match bound {
                Bound::Unbounded => Ordering::Greater,
                Bound::Included(k) => {
                    let c = self.cmp.compare(k, key);
                    proof {
                        match c {
                            Ordering::Greater => {},
                            Ordering::Equal => {
                                self.cmp.lemma_total(*key, *key);
                                assert forall|k2: K| lt_under(self.cmp, *key, k2) implies
                                    !upper_ok(self.cmp, bound, k2) by {
                                    if self.cmp.le(k2, *key) {
                                        self.cmp.lemma_antisymmetric(*key, k2);
                                    }
                                }
                            },
                            Ordering::Less => {
                                if self.cmp.le(*key, *k) {
                                    self.cmp.lemma_antisymmetric(*key, *k);
                                }
                            },
                        }
                    }
                    c
                },
                Bound::Excluded(k) => {
                    match self.cmp.compare(k, key) {
                        Ordering::Greater => Ordering::Greater,
                        Ordering::Equal => Ordering::Less,
                        Ordering::Less => {
                            proof {
                                if self.cmp.le(*key, *k) {
                                    self.cmp.lemma_antisymmetric(*key, *k);
                                }
                            }
                            Ordering::Less
                        },
                    }
                },
            }
        }
    }
}

/// Filtering commutes with reversal.
proof fn lemma_filter_reverse<A>(s: Seq<A>, p: spec_fn(A) -> bool)
    ensures
        s.reverse().filter(p) == s.filter(p).reverse(),
    decreases s.len(),
{
    reveal(Seq::filter);
    if s.len() == 0 {
        assert(s.reverse().filter(p) =~= s.filter(p).reverse());
    } else {
        let tail = s.skip(1);
        lemma_filter_reverse(tail, p);
        let head = seq![s[0]];
        assert(s =~= head + tail);
        Seq::filter_distributes_over_add(head, tail, p);
        assert(s.reverse() =~= tail.reverse() + head);
        Seq::filter_distributes_over_add(tail.reverse(), head, p);
        assert(head.filter(p) == if p(s[0]) {
            head
        } else {
            Seq::<A>::empty()
        }) by {
            assert(head.drop_last().filter(p) =~= Seq::<A>::empty());
            if p(s[0]) {
                assert(head.filter(p) =~= head);
            }
        }
        assert((head.filter(p) + tail.filter(p)).reverse() =~= tail.filter(p).reverse()
            + head.filter(p));
    }
}

/// Once a node satisfies the lower endpoint, so do the node, its right arm
/// and everything already stacked behind them.
proof fn lemma_keep_lower<K, V, C: Comparator<K>>(
    cmp: C,
    min: Bound<&K>,
    n: TreeNode<K, V>,
    rest: Seq<(K, V)>,
)
    requires
        cmp.valid(),
        n.ord_ok(cmp),
        lower_ok(cmp, min, n.key),
        forall|i: int| 0 <= i < rest.len() ==> lower_ok(cmp, min, (#[trigger] rest[i]).0),
    ensures
        ({
            let s = seq![(n.key, n.value)] + opt_seq(n.right) + rest;
            forall|i: int| 0 <= i < s.len() ==> lower_ok(cmp, min, (#[trigger] s[i]).0)
        }),
{
    lemma_subtree_element_bounds(cmp, n);
    let s = seq![(n.key, n.value)] + opt_seq(n.right) + rest;
    assert forall|i: int| 0 <= i < s.len() implies lower_ok(cmp, min, (#[trigger] s[i]).0) by {
        if i == 0 {
            assert(s[i] == (n.key, n.value));
        } else if i <= opt_seq(n.right).len() {
            assert(s[i] == opt_seq(n.right)[i - 1]);
            lemma_lower_mono(cmp, min, n.key, s[i].0);
        } else {
            assert(s[i] == rest[i - 1 - opt_seq(n.right).len()]);
        }
    }
}

/// Once a node fails the lower endpoint, so do its left arm and itself.
proof fn lemma_drop_lower<K, V, C: Comparator<K>>(cmp: C, min: Bound<&K>, n: TreeNode<K, V>)
    requires
        cmp.valid(),
        n.ord_ok(cmp),
        !lower_ok(cmp, min, n.key),
    ensures
        ({
            let s = opt_seq(n.left) + seq![(n.key, n.value)];
            forall|i: int| 0 <= i < s.len() ==> !lower_ok(cmp, min, (#[trigger] s[i]).0)
        }),
{
    lemma_subtree_element_bounds(cmp, n);
    let s = opt_seq(n.left) + seq![(n.key, n.value)];
    assert forall|i: int| 0 <= i < s.len() implies !lower_ok(cmp, min, (#[trigger] s[i]).0) by {
        if i < opt_seq(n.left).len() {
            assert(s[i] == opt_seq(n.left)[i]);
            if lower_ok(cmp, min, s[i].0) {
                lemma_lower_mono(cmp, min, s[i].0, n.key);
            }
        } else {
            assert(s[i] == (n.key, n.value));
        }
    }
}

/// When a node's key is the least one the lower endpoint admits, everything
/// in its left arm falls outside.
proof fn lemma_drop_lower_min<K, V, C: Comparator<K>>(cmp: C, min: Bound<&K>, n: TreeNode<K, V>)
    requires
        cmp.valid(),
        n.ord_ok(cmp),
        forall|k: K| lt_under(cmp, k, n.key) ==> !lower_ok(cmp, min, k),
    ensures
        forall|i: int|
            0 <= i < opt_seq(n.left).len() ==> !lower_ok(cmp, min, (#[trigger] opt_seq(n.left)[i]).0),
{
    lemma_subtree_element_bounds(cmp, n);
}

/// Once a node satisfies the upper endpoint, so do the node, its left arm in
/// reverse and everything already stacked behind them.
proof fn lemma_keep_upper<K, V, C: Comparator<K>>(
    cmp: C,
    max: Bound<&K>,
    n: TreeNode<K, V>,
    rest: Seq<(K, V)>,
)
    requires
        cmp.valid(),
        n.ord_ok(cmp),
        upper_ok(cmp, max, n.key),
        forall|i: int| 0 <= i < rest.len() ==> upper_ok(cmp, max, (#[trigger] rest[i]).0),
    ensures
        ({
            let s = seq![(n.key, n.value)] + opt_seq(n.left).reverse() + rest;
            forall|i: int| 0 <= i < s.len() ==> upper_ok(cmp, max, (#[trigger] s[i]).0)
        }),
{
    lemma_subtree_element_bounds(cmp, n);
    let s = seq![(n.key, n.value)] + opt_seq(n.left).reverse() + rest;
    assert forall|i: int| 0 <= i < s.len() implies upper_ok(cmp, max, (#[trigger] s[i]).0) by {
        if i == 0 {
            assert(s[i] == (n.key, n.value));
        } else if i <= opt_seq(n.left).len() {
            assert(s[i] == opt_seq(n.left).reverse()[i - 1]);
            assert(s[i] == opt_seq(n.left)[opt_seq(n.left).len() - i]);
            lemma_upper_mono(cmp, max, s[i].0, n.key);
        } else {
            assert(s[i] == rest[i - 1 - opt_seq(n.left).len()]);
        }
    }
}

/// Once a node fails the upper endpoint, so do its right arm in reverse and
/// itself.
proof fn lemma_drop_upper<K, V, C: Comparator<K>>(cmp: C, max: Bound<&K>, n: TreeNode<K, V>)
    requires
        cmp.valid(),
        n.ord_ok(cmp),
        !upper_ok(cmp, max, n.key),
    ensures
        ({
            let s = opt_seq(n.right).reverse() + seq![(n.key, n.value)];
            forall|i: int| 0 <= i < s.len() ==> !upper_ok(cmp, max, (#[trigger] s[i]).0)
        }),
{
    lemma_subtree_element_bounds(cmp, n);
    let s = opt_seq(n.right).reverse() + seq![(n.key, n.value)];
    assert forall|i: int| 0 <= i < s.len() implies !upper_ok(cmp, max, (#[trigger] s[i]).0) by {
        if i < opt_seq(n.right).len() {
            assert(s[i] == opt_seq(n.right).reverse()[i]);
            assert(s[i] == opt_seq(n.right)[opt_seq(n.right).len() - 1 - i]);
            if upper_ok(cmp, max, s[i].0) {
                lemma_upper_mono(cmp, max, n.key, s[i].0);
            }
        } else {
            assert(s[i] == (n.key, n.value));
        }
    }
}

/// When a node's key is the greatest one the upper endpoint admits,
/// everything in its right arm falls outside.
proof fn lemma_drop_upper_max<K, V, C: Comparator<K>>(cmp: C, max: Bound<&K>, n: TreeNode<K, V>)
    requires
        cmp.valid(),
        n.ord_ok(cmp),
        forall|k: K| lt_under(cmp, n.key, k) ==> !upper_ok(cmp, max, k),
    ensures
        forall|i: int|
            0 <= i < opt_seq(n.right).reverse().len() ==> !upper_ok(
                cmp,
                max,
                (#[trigger] opt_seq(n.right).reverse()[i]).0,
            ),
{
    lemma_subtree_element_bounds(cmp, n);
    assert forall|i: int| 0 <= i < opt_seq(n.right).reverse().len() implies !upper_ok(
        cmp,
        max,
        (#[trigger] opt_seq(n.right).reverse()[i]).0,
    ) by {
        assert(opt_seq(n.right).reverse()[i] == opt_seq(n.right)[opt_seq(n.right).len() - 1 - i]);
    }
}

impl<K, V, C: Comparator<K>> TreeMap<K, V, C> {
    // Walks one side's cursor down from the split point to the first entry
    // this side of the range admits, dropping everything outside its
    // endpoint.
    #[verifier::rlimit(100)]
        fn bound_setup<'a, D: Direction>(
        &self,
        it: Iter<'a, K, V, D>,
        bound: Bound<&K>,
        Ghost(sub): Ghost<Seq<(K, V)>>,
    ) -> (r: Iter<'a, K, V, D>)
        requires
            self.spec_cmp().valid(),
            it.stack@.len() == 0,
            (match it.node {
                Some(n) => n.ord_ok(self.spec_cmp()) && n.as_seq() == sub,
                None => sub == Seq::<(K, V)>::empty(),
            }),
            sorted_by(self.spec_cmp(), sub),
        ensures
            D::fwd() ==> r.remaining() == sub.filter(lower_pred(self.spec_cmp(), bound)),
            !D::fwd() ==> r.remaining() == sub.filter(upper_pred(self.spec_cmp(), bound)).reverse(),
    {
        let ghost cmp = self.cmp;
        let ghost lp = lower_pred::<K, V, C>(cmp, bound);
        let ghost up = upper_pred::<K, V, C>(cmp, bound);

        let mut it = it;
        proof {
            if D::fwd() {
                assert(it.remaining() =~= sub);
            } else {
                assert(it.remaining() =~= sub.reverse());
                lemma_filter_reverse(sub, up);
                assert(it.remaining().filter(up) == sub.filter(up).reverse());
            }
        }
        loop
            invariant
                cmp == self.spec_cmp(),
                cmp.valid(),
                lp == lower_pred::<K, V, C>(self.spec_cmp(), bound),
                up == upper_pred::<K, V, C>(self.spec_cmp(), bound),
                (match it.node {
                    Some(n) => n.ord_ok(cmp),
                    None => true,
                }),
                D::fwd() ==> it.remaining().filter(lp) == sub.filter(lp),
                D::fwd() ==> (forall|i: int|
                    0 <= i < stack_rem_fwd(it.stack@).len() ==> lp(
                        #[trigger] stack_rem_fwd(it.stack@)[i],
                    )),
                !D::fwd() ==> it.remaining().filter(up) == sub.filter(up).reverse(),
                !D::fwd() ==> (forall|i: int|
                    0 <= i < stack_rem_bwd(it.stack@).len() ==> up(
                        #[trigger] stack_rem_bwd(it.stack@)[i],
                    )),
            decreases ref_seq(it.node).len(),
        {
            let cur = it.node;
            match cur {
                None => {
                    proof {
                        if D::fwd() {
                            assert(it.remaining() =~= stack_rem_fwd(it.stack@));
                            assert forall|i: int| 0 <= i < it.remaining().len() implies lp(
                                #[trigger] it.remaining()[i],
                            ) by {
                                assert(it.remaining()[i] == stack_rem_fwd(it.stack@)[i]);
                            }
                            lemma_filter_all(it.remaining(), lp);
                            assert(it.remaining() == sub.filter(lp));
                        } else {
                            assert(it.remaining() =~= stack_rem_bwd(it.stack@));
                            assert forall|i: int| 0 <= i < it.remaining().len() implies up(
                                #[trigger] it.remaining()[i],
                            ) by {
                                assert(it.remaining()[i] == stack_rem_bwd(it.stack@)[i]);
                            }
                            lemma_filter_all(it.remaining(), up);
                            assert(it.remaining() == sub.filter(up).reverse());
                        }
                    }
                    return it;
                },
                Some(n) => {
                    proof {
                        lemma_as_seq_len_parts(*n);
                    }
                    match self.compare_bound::<D>(bound, &n.key) {
                        Ordering::Less => {
                            let ghost pre = it;
                            it.traverse_before();
                            proof {
                                assert(n.as_seq() == opt_seq(n.left) + seq![(n.key, n.value)]
                                    + opt_seq(n.right));
                                assert(ref_seq(it.node) == opt_seq(n.left));
                                if D::fwd() {
                                    // the node is kept: nothing leaves the cursor
                                    assert(it.stack@.drop_last() == pre.stack@);
                                    assert(it.stack@.last() == n);
                                    assert(stack_rem_fwd(it.stack@) == seq![(n.key, n.value)]
                                        + opt_seq(n.right) + stack_rem_fwd(pre.stack@));
                                    assert(it.remaining() =~= pre.remaining());
                                    lemma_keep_lower(cmp, bound, *n, stack_rem_fwd(pre.stack@));
                                    assert forall|i: int|
                                        0 <= i < stack_rem_fwd(it.stack@).len() implies lp(
                                        #[trigger] stack_rem_fwd(it.stack@)[i],
                                    ) by {
                                        assert(lower_ok(cmp, bound, stack_rem_fwd(it.stack@)[i].0));
                                    }
                                } else {
                                    // the node and its right arm fall outside
                                    assert(it.stack@ == pre.stack@);
                                    let dropped = opt_seq(n.right).reverse() + seq![
                                        (n.key, n.value),
                                    ];
                                    assert(pre.remaining() =~= dropped + it.remaining());
                                    lemma_drop_upper(cmp, bound, *n);
                                    assert forall|i: int| 0 <= i < dropped.len() implies !up(
                                        #[trigger] dropped[i],
                                    ) by {
                                        assert(!upper_ok(cmp, bound, dropped[i].0));
                                    }
                                    lemma_filter_none(dropped, up);
                                    Seq::filter_distributes_over_add(dropped, it.remaining(), up);
                                }
                            }
                        },
                        Ordering::Greater => {
                            let ghost pre = it;
                            it.traverse_after();
                            proof {
                                assert(n.as_seq() == opt_seq(n.left) + seq![(n.key, n.value)]
                                    + opt_seq(n.right));
                                assert(ref_seq(it.node) == opt_seq(n.right));
                                if D::fwd() {
                                    // the node and its left arm fall outside
                                    assert(it.stack@ == pre.stack@);
                                    let dropped = opt_seq(n.left) + seq![(n.key, n.value)];
                                    assert(pre.remaining() =~= dropped + it.remaining());
                                    lemma_drop_lower(cmp, bound, *n);
                                    assert forall|i: int| 0 <= i < dropped.len() implies !lp(
                                        #[trigger] dropped[i],
                                    ) by {
                                        assert(!lower_ok(cmp, bound, dropped[i].0));
                                    }
                                    lemma_filter_none(dropped, lp);
                                    Seq::filter_distributes_over_add(dropped, it.remaining(), lp);
                                } else {
                                    // the node is kept: nothing leaves the cursor
                                    assert(it.stack@.drop_last() == pre.stack@);
                                    assert(it.stack@.last() == n);
                                    assert(stack_rem_bwd(it.stack@) == seq![(n.key, n.value)]
                                        + opt_seq(n.left).reverse() + stack_rem_bwd(pre.stack@));
                                    assert(it.remaining() =~= pre.remaining());
                                    lemma_keep_upper(cmp, bound, *n, stack_rem_bwd(pre.stack@));
                                    assert forall|i: int|
                                        0 <= i < stack_rem_bwd(it.stack@).len() implies up(
                                        #[trigger] stack_rem_bwd(it.stack@)[i],
                                    ) by {
                                        assert(upper_ok(cmp, bound, stack_rem_bwd(it.stack@)[i].0));
                                    }
                                }
                            }
                        },
                        Ordering::Equal => {
                            let ghost pre = it;
                            it.traverse_complete();
                            proof {
                                assert(n.as_seq() == opt_seq(n.left) + seq![(n.key, n.value)]
                                    + opt_seq(n.right));
                                assert(it.stack@.drop_last() == pre.stack@);
                                assert(it.stack@.last() == n);
                                if D::fwd() {
                                    let dropped = opt_seq(n.left);
                                    assert(stack_rem_fwd(it.stack@) == seq![(n.key, n.value)]
                                        + opt_seq(n.right) + stack_rem_fwd(pre.stack@));
                                    assert(it.remaining() =~= stack_rem_fwd(it.stack@));
                                    assert(pre.remaining() =~= dropped + it.remaining());
                                    lemma_drop_lower_min(cmp, bound, *n);
                                    assert forall|i: int| 0 <= i < dropped.len() implies !lp(
                                        #[trigger] dropped[i],
                                    ) by {
                                        assert(!lower_ok(cmp, bound, dropped[i].0));
                                    }
                                    lemma_filter_none(dropped, lp);
                                    Seq::filter_distributes_over_add(dropped, it.remaining(), lp);
                                    lemma_keep_lower(cmp, bound, *n, stack_rem_fwd(pre.stack@));
                                    assert forall|i: int| 0 <= i < it.remaining().len() implies lp(
                                        #[trigger] it.remaining()[i],
                                    ) by {
                                        assert(it.remaining()[i] == stack_rem_fwd(it.stack@)[i]);
                                        assert(lower_ok(cmp, bound, stack_rem_fwd(it.stack@)[i].0));
                                    }
                                    lemma_filter_all(it.remaining(), lp);
                                    assert(it.remaining() == sub.filter(lp));
                                } else {
                                    let dropped = opt_seq(n.right).reverse();
                                    assert(stack_rem_bwd(it.stack@) == seq![(n.key, n.value)]
                                        + opt_seq(n.left).reverse() + stack_rem_bwd(pre.stack@));
                                    assert(it.remaining() =~= stack_rem_bwd(it.stack@));
                                    assert(pre.remaining() =~= dropped + it.remaining());
                                    lemma_drop_upper_max(cmp, bound, *n);
                                    assert forall|i: int| 0 <= i < dropped.len() implies !up(
                                        #[trigger] dropped[i],
                                    ) by {
                                        assert(!upper_ok(cmp, bound, dropped[i].0));
                                    }
                                    lemma_filter_none(dropped, up);
                                    Seq::filter_distributes_over_add(dropped, it.remaining(), up);
                                    lemma_keep_upper(cmp, bound, *n, stack_rem_bwd(pre.stack@));
                                    assert forall|i: int| 0 <= i < it.remaining().len() implies up(
                                        #[trigger] it.remaining()[i],
                                    ) by {
                                        assert(it.remaining()[i] == stack_rem_bwd(it.stack@)[i]);
                                        assert(upper_ok(cmp, bound, stack_rem_bwd(it.stack@)[i].0));
                                    }
                                    lemma_filter_all(it.remaining(), up);
                                    assert(it.remaining() == sub.filter(up).reverse());
                                }
                            }
                            return it;
                        },
                    }
                },
            }
        }
    }
}

/// Bookkeeping for stepping a bracketed range from the front: how the
/// remaining entries, their reverse and the two continuations shift.
proof fn lemma_advance_front<K, V, C: Comparator<K>>(
    cmp: C,
    rem: Seq<(K, V)>,
    ts: Seq<(K, V)>,
    te: Seq<(K, V)>,
)
    requires
        cmp.valid(),
        sorted_by(cmp, rem),
        rem.len() >= 1,
    ensures
        (rem + ts).skip(1) == rem.skip(1) + ts,
        rem.reverse() + te == rem.skip(1).reverse() + (seq![rem[0]] + te),
        (rem + ts)[0] == rem[0],
        (rem.reverse() + te)[0] == rem.last(),
        sorted_by(cmp, rem.skip(1)),
        rem.len() >= 2 ==> lt_under(cmp, rem[0].0, rem.last().0),
        rem.len() == 1 ==> rem[0] == rem.last(),
        (rem[0].0 == rem.last().0) <==> rem.len() == 1,
{
    assert(rem.last() == rem[rem.len() - 1]);
    if rem.len() >= 2 {
        assert(lt_under(cmp, rem[0].0, rem.last().0));
    }
    assert((rem + ts).skip(1) =~= rem.skip(1) + ts);
    assert(rem.reverse() + te =~= rem.skip(1).reverse() + (seq![rem[0]] + te));
    assert forall|i: int, j: int| 0 <= i < j < rem.skip(1).len() implies lt_under(
        cmp,
        rem.skip(1)[i].0,
        rem.skip(1)[j].0,
    ) by {
        assert(rem.skip(1)[i] == rem[i + 1]);
        assert(rem.skip(1)[j] == rem[j + 1]);
    }
}

/// Bookkeeping for stepping a bracketed range from the back: the mirror of
/// `lemma_advance_front`.
proof fn lemma_advance_back<K, V, C: Comparator<K>>(
    cmp: C,
    rem: Seq<(K, V)>,
    ts: Seq<(K, V)>,
    te: Seq<(K, V)>,
)
    requires
        cmp.valid(),
        sorted_by(cmp, rem),
        rem.len() >= 1,
    ensures
        (rem.reverse() + te).skip(1) == rem.drop_last().reverse() + te,
        rem + ts == rem.drop_last() + (seq![rem.last()] + ts),
        (rem + ts)[0] == rem[0],
        (rem.reverse() + te)[0] == rem.last(),
        sorted_by(cmp, rem.drop_last()),
        rem.len() >= 2 ==> lt_under(cmp, rem[0].0, rem.last().0),
        rem.len() == 1 ==> rem[0] == rem.last(),
        (rem[0].0 == rem.last().0) <==> rem.len() == 1,
{
    assert(rem.last() == rem[rem.len() - 1]);
    if rem.len() >= 2 {
        assert(lt_under(cmp, rem[0].0, rem.last().0));
    }
    assert((rem.reverse() + te).skip(1) =~= rem.drop_last().reverse() + te);
    assert(rem + ts =~= rem.drop_last() + (seq![rem.last()] + ts));
    assert forall|i: int, j: int| 0 <= i < j < rem.drop_last().len() implies lt_under(
        cmp,
        rem.drop_last()[i].0,
        rem.drop_last()[j].0,
    ) by {
        assert(rem.drop_last()[i] == rem[i]);
        assert(rem.drop_last()[j] == rem[j]);
    }
}

/// A bidirectional iterator over a sub-range of a map: a forward cursor at
/// the range's start, a backward cursor at its end, and the flag that says
/// the two have met.
pub struct Range<'a, K, V, C: Comparator<K>> {
    start: Iter<'a, K, V, Forward>,
    end: Iter<'a, K, V, Backward>,
    empty: bool,
    cmp: &'a C,
    rem: Ghost<Seq<(K, V)>>,
    tail_s: Ghost<Seq<(K, V)>>,
    tail_e: Ghost<Seq<(K, V)>>,
}

impl<'a, K, V, C: Comparator<K>> Range<'a, K, V, C> {
    /// The entries of the range not yet yielded from either side, in
    /// ascending order.
    pub closed spec fn remaining(self) -> Seq<(K, V)> {
        self.rem@
    }

    /// The two cursors bracket exactly the remaining entries: the forward
    /// one continues into entries past the range, the backward one into
    /// entries before it.
    pub closed spec fn wf(self) -> bool {
        &&& self.cmp.valid()
        &&& sorted_by(*self.cmp, self.rem@)
        &&& (if self.empty {
            self.rem@.len() == 0
        } else {
            &&& self.rem@.len() >= 1
            &&& self.start.remaining() == self.rem@ + self.tail_s@
            &&& self.end.remaining() == self.rem@.reverse() + self.tail_e@
        })
    }

    /// Steps the range from the front, yielding its least entry not yet
    /// yielded from either side.
    #[verifier::rlimit(30)]
        pub fn next(&mut self) -> (r: Option<(&'a K, &'a V)>)
        requires
            old(self).wf(),
        ensures
            final(self).wf(),
            (match r {
                Some(kv) => old(self).remaining().len() > 0 && (*kv.0, *kv.1) == old(
                    self,
                ).remaining()[0] && final(self).remaining() == old(self).remaining().skip(1),
                None => old(self).remaining().len() == 0 && final(self).remaining() == old(
                    self,
                ).remaining(),
            }),
    {
        if self.empty {
            return None;
        }
        proof {
            lemma_advance_front(*self.cmp, self.rem@, self.tail_s@, self.tail_e@);
        }
        self.start.normalize();
        self.end.normalize();
        let sn = self.start.top();
        let en = self.end.top();
        match (sn, en) {
            (Some(a), Some(b)) => {
                let ghost oldrem = self.rem@;
                let c = self.cmp;
                let same = match c.compare(&a.key, &b.key) {
                    Ordering::Equal => true,
                    _ => false,
                };
                proof {
                    assert(same <==> oldrem.len() == 1);
                }
                self.empty = same;
                self.rem = Ghost(oldrem.skip(1));
                self.tail_e = Ghost(seq![oldrem[0]] + self.tail_e@);
                let r = self.start.next();
                r
            },
            _ => {
                proof {
                    assert(false);
                }
                None
            },
        }
    }

    /// Steps the range from the back, yielding its greatest entry not yet
    /// yielded from either side.
    #[verifier::rlimit(30)]
        pub fn next_back(&mut self) -> (r: Option<(&'a K, &'a V)>)
        requires
            old(self).wf(),
        ensures
            final(self).wf(),
            (match r {
                Some(kv) => old(self).remaining().len() > 0 && (*kv.0, *kv.1) == old(
                    self,
                ).remaining().last() && final(self).remaining() == old(
                    self,
                ).remaining().drop_last(),
                None => old(self).remaining().len() == 0 && final(self).remaining() == old(
                    self,
                ).remaining(),
            }),
    {
        if self.empty {
            return None;
        }
        proof {
            lemma_advance_back(*self.cmp, self.rem@, self.tail_s@, self.tail_e@);
        }
        self.start.normalize();
        self.end.normalize();
        let sn = self.start.top();
        let en = self.end.top();
        match (sn, en) {
            (Some(a), Some(b)) => {
                let ghost oldrem = self.rem@;
                let c = self.cmp;
                let same = match c.compare(&a.key, &b.key) {
                    Ordering::Equal => true,
                    _ => false,
                };
                proof {
                    assert(same <==> oldrem.len() == 1);
                }
                self.empty = same;
                self.rem = Ghost(oldrem.drop_last());
                self.tail_s = Ghost(seq![oldrem.last()] + self.tail_s@);
                let r = self.end.next();
                r
            },
            _ => {
                proof {
                    assert(false);
                }
                None
            },
        }
    }
}


/// How a sub-range's entries sit inside the two one-endpoint filters of a
/// sorted sequence, and how its frontier keys compare.
proof fn lemma_range_analysis<K, V, C: Comparator<K>>(
    cmp: C,
    min: Bound<&K>,
    max: Bound<&K>,
    whole: Seq<(K, V)>,
)
    requires
        cmp.valid(),
        sorted_by(cmp, whole),
    ensures
        whole.filter(lower_pred(cmp, min)) == whole.filter(range_pred(cmp, min, max))
            + whole.filter(high_cut_pred(cmp, min, max)),
        whole.filter(upper_pred(cmp, max)) == whole.filter(low_cut_pred(cmp, min, max))
            + whole.filter(range_pred(cmp, min, max)),
        sorted_by(cmp, whole.filter(range_pred(cmp, min, max))),
        (whole.filter(low_cut_pred(cmp, min, max)) + whole.filter(range_pred(cmp, min, max))).reverse()
            == whole.filter(range_pred(cmp, min, max)).reverse() + whole.filter(
            low_cut_pred(cmp, min, max),
        ).reverse(),
        ({
            let rng = whole.filter(range_pred(cmp, min, max));
            rng.len() >= 1 ==> cmp.le(rng[0].0, rng.last().0) && ((rng[0].0 == rng.last().0)
                <==> rng.len() == 1)
        }),
        ({
            let rng = whole.filter(range_pred(cmp, min, max));
            let t1 = whole.filter(high_cut_pred(cmp, min, max));
            let t2 = whole.filter(low_cut_pred(cmp, min, max));
            rng.len() == 0 && t1.len() >= 1 && t2.len() >= 1 ==> !cmp.le(t1[0].0, t2.last().0)
                && t1[0].0 != t2.last().0
        }),
{
    let rp = range_pred::<K, V, C>(cmp, min, max);
    let lp = lower_pred::<K, V, C>(cmp, min);
    let upd = upper_pred::<K, V, C>(cmp, max);
    let hc = high_cut_pred::<K, V, C>(cmp, min, max);
    let lc = low_cut_pred::<K, V, C>(cmp, min, max);
    assert(forall|x: (K, V)| #[trigger] rp(x) == (lp(x) && upd(x)));
    assert(forall|x: (K, V)| #[trigger] hc(x) == (lp(x) && !upd(x)));
    assert(forall|x: (K, V)| #[trigger] lc(x) == (!lp(x) && upd(x)));
    assert forall|x: (K, V), y: (K, V)|
        #![trigger lp(x), lp(y)]
        lp(x) && cmp.le(x.0, y.0) implies lp(y) by {
        lemma_lower_mono(cmp, min, x.0, y.0);
    }
    assert forall|x: (K, V), y: (K, V)|
        #![trigger upd(x), upd(y)]
        upd(y) && cmp.le(x.0, y.0) implies upd(x) by {
        lemma_upper_mono(cmp, max, x.0, y.0);
    }
    lemma_filter_lower_split(cmp, whole, lp, rp, hc, upd);
    lemma_filter_upper_split(cmp, whole, upd, lc, rp, lp);
    lemma_filter_sorted(cmp, whole, rp);
    let rng = whole.filter(rp);
    if rng.len() >= 1 {
        if rng.len() >= 2 {
            assert(lt_under(cmp, rng[0].0, rng.last().0));
        } else {
            cmp.lemma_total(rng[0].0, rng[0].0);
        }
    }
    assert((whole.filter(lc) + whole.filter(rp)).reverse() =~= whole.filter(rp).reverse()
        + whole.filter(lc).reverse());
    let t1 = whole.filter(hc);
    let t2 = whole.filter(lc);
    if rng.len() == 0 && t1.len() >= 1 && t2.len() >= 1 {
        whole.lemma_filter_pred(hc, 0);
        whole.lemma_filter_pred(lc, t2.len() - 1);
        assert(hc(t1[0]));
        assert(lc(t2.last()));
        if cmp.le(t1[0].0, t2.last().0) {
            lemma_lower_mono(cmp, min, t1[0].0, t2.last().0);
        }
        assert(t1[0].0 != t2.last().0);
    }
}

// Brackets the two one-endpoint cursors into a range: decides emptiness by
// probing the frontier keys of both cursors against one another.
#[verifier::rlimit(60)]
fn range_finish<'a, K, V, C: Comparator<K>>(
    start: Iter<'a, K, V, Forward>,
    end: Iter<'a, K, V, Backward>,
    c: &'a C,
    min: Bound<&K>,
    max: Bound<&K>,
    Ghost(whole): Ghost<Seq<(K, V)>>,
) -> (r: Range<'a, K, V, C>)
    requires
        c.valid(),
        sorted_by(*c, whole),
        start.remaining() == whole.filter(lower_pred(*c, min)),
        end.remaining() == whole.filter(upper_pred(*c, max)).reverse(),
    ensures
        r.wf(),
        r.remaining() == whole.filter(range_pred(*c, min, max)),
{
    let ghost rng = whole.filter(range_pred(*c, min, max));
    let ghost hcs = whole.filter(high_cut_pred(*c, min, max));
    let ghost lcs = whole.filter(low_cut_pred(*c, min, max));
    proof {
        lemma_range_analysis(*c, min, max, whole);
        assert(start.remaining() == rng + hcs);
        assert(end.remaining() == rng.reverse() + lcs.reverse());
    }
    let mut start = start;
    let mut end = end;
    start.normalize();
    end.normalize();
    let sn = start.top();
    let en = end.top();
    let empty = match (sn, en) {
        (Some(a), Some(b)) => match c.compare(&a.key, &b.key) {
            Ordering::Greater => true,
            _ => false,
        },
        _ => true,
    };
    proof {
        match (sn, en) {
            (Some(a), Some(b)) => {
                if rng.len() >= 1 {
                    assert(a.key == rng[0].0);
                    assert(end.remaining()[0] == rng.reverse()[0]);
                    assert(b.key == rng.last().0);
                    if c.le(b.key, a.key) && a.key != b.key {
                        c.lemma_antisymmetric(a.key, b.key);
                    }
                    assert(!empty);
                } else {
                    assert(start.remaining() =~= hcs);
                    assert(end.remaining() =~= lcs.reverse());
                    assert(a.key == hcs[0].0);
                    assert(end.remaining()[0] == lcs.reverse()[0]);
                    assert(b.key == lcs.last().0);
                    assert(empty);
                }
            },
            _ => {
                assert(rng.len() == 0);
            },
        }
        assert(empty <==> rng.len() == 0);
    }
    Range {
        start,
        end,
        empty,
        cmp: c,
        rem: Ghost(rng),
        tail_s: Ghost(hcs),
        tail_e: Ghost(lcs.reverse()),
    }
}

impl<K, V, C: Comparator<K>> TreeMap<K, V, C> {
    /// Constructs a double-ended iterator over the sub-range of entries
    /// between `min` and `max`: exactly the keys that both endpoints admit,
    /// in ascending order. With both endpoints `Unbounded` it walks the
    /// whole map.
    pub fn range<'a>(&'a self, min: Bound<&K>, max: Bound<&K>) -> (r: Range<'a, K, V, C>)
        requires
            self.well_formed(),
        ensures
            r.wf(),
            r.remaining() == self.to_seq().filter(range_pred(self.spec_cmp(), min, max)),
    {
        let ghost whole = self.to_seq();
        proof {
            match &self.root {
                Some(nb) => {
                    lemma_node_bridge(self.cmp, **nb);
                },
                None => {},
            }
            assert(sorted_by(self.cmp, whole));
        }
        let start0: Iter<K, V, Forward> = Iter {
            stack: Vec::new(),
            node: deref_node(&self.root),
            direction: PhantomData,
        };
        let end0: Iter<K, V, Backward> = Iter {
            stack: Vec::new(),
            node: deref_node(&self.root),
            direction: PhantomData,
        };
        proof {
            assert(start0.remaining() =~= whole);
            assert(end0.remaining() =~= whole.reverse());
        }
        let start = self.bound_setup::<Forward>(start0, min, Ghost(whole));
        let end = self.bound_setup::<Backward>(end0, max, Ghost(whole));
        range_finish(start, end, &self.cmp, min, max, Ghost(whole))
    }
}

/// The full ascending traversal of a well-formed map is strictly sorted by
/// its comparator, free of duplicate keys, and carries exactly the map's
/// contents: a key is bound exactly when it appears, to the paired value.
pub proof fn lemma_traversal_sorted<K, V, C: Comparator<K>>(m: TreeMap<K, V, C>)
    requires
        m.well_formed(),
    ensures
        sorted_by(m.spec_cmp(), m.to_seq()),
        forall|i: int, j: int| 0 <= i < j < m.to_seq().len() ==> m.to_seq()[i].0 != m.to_seq()[j].0,
        forall|k: K|
            #[trigger] m@.dom().contains(k) ==> exists|i: int|
                0 <= i < m.to_seq().len() && m.to_seq()[i].0 == k,
        forall|i: int|
            0 <= i < m.to_seq().len() ==> m@.dom().contains(#[trigger] m.to_seq()[i].0)
                && m@[m.to_seq()[i].0] == m.to_seq()[i].1,
{
    match m.root {
        Some(n) => {
            lemma_node_bridge(m.spec_cmp(), *n);
            assert(m.to_seq() == n.as_seq());
            assert(m@ == n.as_map());
            assert forall|k: K| #[trigger] m@.dom().contains(k) implies exists|i: int|
                0 <= i < m.to_seq().len() && m.to_seq()[i].0 == k by {
                assert(n.as_map().dom().contains(k));
                let i = choose|i: int| 0 <= i < n.as_seq().len() && n.as_seq()[i].0 == k;
                assert(m.to_seq()[i].0 == k);
            }
            assert forall|i: int| 0 <= i < m.to_seq().len() implies m@.dom().contains(
                #[trigger] m.to_seq()[i].0,
            ) && m@[m.to_seq()[i].0] == m.to_seq()[i].1 by {
                assert(n.as_map().dom().contains(n.as_seq()[i].0));
            }
            assert forall|i: int, j: int| 0 <= i < j < m.to_seq().len() implies m.to_seq()[i].0
                != m.to_seq()[j].0 by {
                assert(lt_under(m.spec_cmp(), m.to_seq()[i].0, m.to_seq()[j].0));
            }
        },
        None => {
            assert(m.to_seq() =~= Seq::<(K, V)>::empty());
            assert(m@.dom() =~= Set::<K>::empty());
        },
    }
}

/// With both endpoints unbounded a range holds every entry: walking it is
/// the same as walking the whole map in ascending order.
pub proof fn lemma_range_unbounded<K, V, C: Comparator<K>>(m: TreeMap<K, V, C>)
    requires
        m.well_formed(),
    ensures
        m.to_seq().filter(
            range_pred(m.spec_cmp(), Bound::<&K>::Unbounded, Bound::<&K>::Unbounded),
        ) == m.to_seq(),
{
    let rp = range_pred::<K, V, C>(m.spec_cmp(), Bound::<&K>::Unbounded, Bound::<&K>::Unbounded);
    assert(forall|x: (K, V)| #[trigger] rp(x));
    lemma_filter_all(m.to_seq(), rp);
}

} // verus!

