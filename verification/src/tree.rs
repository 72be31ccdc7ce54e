//! The balanced-tree engine: the recursive node/tree data model, insertion
//! and deletion with their rebalancing rotations, weight bookkeeping, and the
//! predecessor/successor searches used during deletion.

use vstd::prelude::*;

verus! {

/// Represents a node in the binary tree, holding a key and a value and
/// slots for the left and right sub-trees.  `weight` counts the nodes of the
/// subtree rooted here, including this node itself.
#[derive(Debug)]
pub struct Node<V> {
    key: u64,
    value: V,
    weight: isize,
    left: Tree<V>,
    right: Tree<V>,
}

/// Represents the whole tree externally.  Internally, it is also the type of
/// the sub-trees that fill each node's left and right slot.  A `Tree` is
/// either occupied by a `Node` (the `Filled` variant) or `Empty`.
#[derive(Debug)]
pub enum Tree<V> {
    Empty,
    Filled(Box<Node<V>>),
}

/// `floor(log2(n))` for positive `n`, and 0 for `n <= 0`.  The tree uses this
/// of a subtree's weight as a cheap height measure.
pub closed spec fn spec_log2(n: int) -> int
    decreases n,
{
    if n <= 1 {
        0
    } else {
        1 + spec_log2(n / 2)
    }
}

impl<V> Tree<V> {
    /// The in-order sequence of (key, value) pairs held by the tree.
    pub closed spec fn inorder(self) -> Seq<(u64, V)>
        decreases self,
    {
        match self {
            Tree::Empty => Seq::empty(),
            Tree::Filled(node) => node.left.inorder() + seq![(node.key, node.value)]
                + node.right.inorder(),
        }
    }

    /// The tree read as a map from keys to values.
    pub closed spec fn as_map(self) -> Map<u64, V>
        decreases self,
    {
        match self {
            Tree::Empty => Map::empty(),
            Tree::Filled(node) => node.left.as_map().union_prefer_right(
                node.right.as_map(),
            ).insert(node.key, node.value),
        }
    }

    /// Binary-search-tree order: at every node, all keys of the left subtree
    /// are below the node's key and all keys of the right subtree above it.
    pub closed spec fn ordered(self) -> bool
        decreases self,
    {
        match self {
            Tree::Empty => true,
            Tree::Filled(node) => {
                &&& node.left.ordered()
                &&& node.right.ordered()
                &&& forall|k: u64| #[trigger]
                    node.left.as_map().dom().contains(k) ==> k < node.key
                &&& forall|k: u64| #[trigger]
                    node.right.as_map().dom().contains(k) ==> k > node.key
            },
        }
    }

    /// Weight bookkeeping: at every node the stored weight is the number of
    /// nodes of the subtree rooted there.
    pub closed spec fn weights_ok(self) -> bool
        decreases self,
    {
        match self {
            Tree::Empty => true,
            Tree::Filled(node) => {
                &&& node.left.weights_ok()
                &&& node.right.weights_ok()
                &&& node.weight as int == node.left.inorder().len() + 1
                    + node.right.inorder().len()
            },
        }
    }

    /// The invariant every public operation preserves.
    pub open spec fn well_formed(self) -> bool {
        self.ordered() && self.weights_ok()
    }

    /// Weight bookkeeping restricted to the nodes more than `d` levels down:
    /// the top `d + 1` levels may hold stale weights, everything further down
    /// must be exact.  This is the state a rotation leaves behind before its
    /// weight-repair pass runs.
    spec fn weights_ok_below(self, d: int) -> bool
        decreases self,
    {
        match self {
            Tree::Empty => true,
            Tree::Filled(node) => {
                if d < 0 {
                    self.weights_ok()
                } else {
                    node.left.weights_ok_below(d - 1) && node.right.weights_ok_below(d - 1)
                }
            },
        }
    }

    /// The same keys and the same values in the same arrangement of nodes
    /// as `other`; only the stored weights are left out of the comparison.
    /// This is what a rotation preserves node by node before its
    /// weight-repair pass runs.
    spec fn same_entries_shape(self, other: Tree<V>) -> bool
        decreases self,
    {
        match (self, other) {
            (Tree::Empty, Tree::Empty) => true,
            (Tree::Filled(a), Tree::Filled(b)) => {
                &&& a.key == b.key
                &&& a.value == b.value
                &&& a.left.same_entries_shape(b.left)
                &&& a.right.same_entries_shape(b.right)
            },
            _ => false,
        }
    }

    /// The same keys and the same weights in the same arrangement of nodes
    /// as `other`; only the stored values are left out of the comparison.
    /// This is what a lookup through `get_mut` leaves untouched.
    pub closed spec fn same_structure(self, other: Tree<V>) -> bool
        decreases self,
    {
        match (self, other) {
            (Tree::Empty, Tree::Empty) => true,
            (Tree::Filled(a), Tree::Filled(b)) => {
                &&& a.key == b.key
                &&& a.weight == b.weight
                &&& a.left.same_structure(b.left)
                &&& a.right.same_structure(b.right)
            },
            _ => false,
        }
    }

    /// The stored weight of the root node, or 0 for an empty tree.
    pub closed spec fn spec_weight(self) -> int {
        match self {
            Tree::Empty => 0,
            Tree::Filled(node) => node.weight as int,
        }
    }

    /// The tree's height measure: `floor(log2(weight))`, 0 when empty.
    pub closed spec fn spec_height(self) -> int {
        match self {
            Tree::Empty => 0,
            Tree::Filled(node) => spec_log2(node.weight as int),
        }
    }

    /// The balance factor: left height minus right height, 0 when empty.
    pub closed spec fn spec_balance(self) -> int {
        match self {
            Tree::Empty => 0,
            Tree::Filled(node) => node.left.spec_height() - node.right.spec_height(),
        }
    }

    /// Balance bound, measured with the tree's own height definition.
    pub closed spec fn balanced(self) -> bool
        decreases self,
    {
        match self {
            Tree::Empty => true,
            Tree::Filled(node) => {
                &&& node.left.balanced()
                &&& node.right.balanced()
                &&& -1 <= self.spec_balance() <= 1
            },
        }
    }
}

impl<V> Default for Tree<V> {
    /// The default value for `Tree` is the empty tree.
    fn default() -> (t: Self)
        ensures
            t.well_formed(),
            t.balanced(),
            t@ == Map::<u64, V>::empty(),
            t.inorder() == Seq::<(u64, V)>::empty(),
    {
        Tree::Empty
    }
}

impl<V> View for Tree<V> {
    type V = Map<u64, V>;

    open spec fn view(&self) -> Map<u64, V> {
        self.as_map()
    }
}

impl<V> Tree<V> {
    /// Creates a new `Tree` populated with a `Node` holding the given key and
    /// value.
    pub fn new_with_insert(key: u64, value: V) -> (t: Self)
        ensures
            t.well_formed(),
            t.balanced(),
            t@ == Map::<u64, V>::empty().insert(key, value),
            t.inorder() == seq![(key, value)],
    {
        let t = Tree::Filled(Box::new(Node::new(key, value)));
        proof {
            reveal_with_fuel(Tree::inorder, 2);
            reveal_with_fuel(Tree::as_map, 2);
            reveal_with_fuel(Tree::ordered, 2);
            reveal_with_fuel(Tree::weights_ok, 2);
            reveal_with_fuel(Tree::balanced, 2);
            assert(t.inorder() =~= seq![(key, value)]);
            assert(t@ =~= Map::<u64, V>::empty().insert(key, value));
            assert(t.spec_balance() == 0);
        }
        t
    }

    /// Creates a new `Tree` populated with a `Node` holding the given key
    /// and value; an alias of `new_with_insert`.
    pub fn new_and_insert(key: u64, value: V) -> (t: Self)
        ensures
            t.well_formed(),
            t.balanced(),
            t@ == Map::<u64, V>::empty().insert(key, value),
            t.inorder() == seq![(key, value)],
    {
        Tree::new_with_insert(key, value)
    }

    /// Creates a new empty `Tree` - the `Tree::Empty` variant.
    pub fn new() -> (t: Self)
        ensures
            t.well_formed(),
            t.balanced(),
            t@ == Map::<u64, V>::empty(),
            t.inorder() == Seq::<(u64, V)>::empty(),
    {
        Tree::Empty
    }

    /// Indicates whether the `Tree` is entirely empty.
    pub fn is_empty(&self) -> (r: bool)
        ensures
            r == (self.inorder().len() == 0),
            r == (self@ == Map::<u64, V>::empty()),
    {
        proof {
            match self {
                Tree::Filled(node) => {
                    assert(self@.dom().contains(node.key));
                    assert(self@ != Map::<u64, V>::empty());
                },
                Tree::Empty => {
                    assert(self@ =~= Map::<u64, V>::empty());
                },
            }
        }
        matches!(self, Tree::Empty)
    }

    /// Retrieves the value associated with the given key.  If the key exists
    /// in the tree, `Some(&V)` is returned; `None` otherwise.  If invoked on
    /// an empty tree, returns `None`.
    #[verifier::rlimit(100)]
    #[verifier::spinoff_prover]
    pub fn get(&self, key: &u64) -> (res: Option<&V>)
        requires
            self.well_formed(),
        ensures
            res == (if self@.dom().contains(*key) {
                Some(&self@[*key])
            } else {
                None::<&V>
            }),
    {
        match self {
            Tree::Filled(_) => self.get_internal(key),
            _ => None,
        }
    }

    /// Internal implementation for `get`.  Returns the value corresponding
    /// to the given key; the tree must be filled.
    #[verifier::rlimit(100)]
    #[verifier::spinoff_prover]
    fn get_internal(&self, key: &u64) -> (res: Option<&V>)
        requires
            self.well_formed(),
            *self is Filled,
        ensures
            res == (if self@.dom().contains(*key) {
                Some(&self@[*key])
            } else {
                None::<&V>
            }),
        decreases self,
    {
        match self {
            Tree::Filled(node) => {
                if *key < node.key {
                    proof {
                        assert(!node.right.as_map().dom().contains(*key));
                    }
                    if node.left.is_filled() {
                        node.left.get_internal(key)
                    } else {
                        None
                    }
                } else if *key > node.key {
                    proof {
                        assert(!node.left.as_map().dom().contains(*key));
                    }
                    if node.right.is_filled() {
                        node.right.get_internal(key)
                    } else {
                        None
                    }
                } else {
                    Some(&node.value)
                }
            },
            Tree::Empty => vstd::pervasive::unreached(),
        }
    }

    /// Returns a mutable reference to the value associated with the given
    /// key.  If a value exists at `key`, then `Some(&mut V)` is returned;
    /// `None` otherwise.  If invoked on an empty tree, returns `None`.
    pub fn get_mut(&mut self, key: &u64) -> (res: Option<&mut V>)
        requires
            old(self).well_formed(),
        ensures
            old(self)@.dom().contains(*key) ==> res is Some && *res.unwrap() == old(self)@[*key]
                && final(self)@ =~= old(self)@.insert(*key, *final(res.unwrap()))
                && final(self).well_formed()
                && final(self).same_structure(*old(self))
                && final(self).inorder().len() == old(self).inorder().len(),
            !old(self)@.dom().contains(*key) ==> res is None && *final(self) == *old(self),
    {
        match self {
            Tree::Filled(_) => self.get_mut_internal(key),
            _ => None,
        }
    }

    /// Internal implementation for `get_mut`.  Returns a mutable reference
    /// to the corresponding value of the key; the tree must be filled.
    fn get_mut_internal(&mut self, key: &u64) -> (res: Option<&mut V>)
        requires
            old(self).well_formed(),
            *old(self) is Filled,
        ensures
            old(self)@.dom().contains(*key) ==> res is Some && *res.unwrap() == old(self)@[*key]
                && final(self)@ =~= old(self)@.insert(*key, *final(res.unwrap()))
                && final(self).well_formed()
                && final(self).same_structure(*old(self))
                && final(self).inorder().len() == old(self).inorder().len(),
            !old(self)@.dom().contains(*key) ==> res is None && *final(self) == *old(self),
        decreases *old(self),
    {
        match self {
            Tree::Filled(node) => {
                if *key < node.key {
                    proof {
                        assert(!node.right.as_map().dom().contains(*key));
                        lemma_same_structure_refl(node.right);
                    }
                    if node.left.is_filled() {
                        node.left.get_mut_internal(key)
                    } else {
                        proof {
                            assert(node.left.as_map() =~= Map::<u64, V>::empty());
                        }
                        None
                    }
                } else if *key > node.key {
                    proof {
                        assert(!node.left.as_map().dom().contains(*key));
                        lemma_same_structure_refl(node.left);
                    }
                    if node.right.is_filled() {
                        node.right.get_mut_internal(key)
                    } else {
                        proof {
                            assert(node.right.as_map() =~= Map::<u64, V>::empty());
                        }
                        None
                    }
                } else {
                    proof {
                        assert(!node.left.as_map().dom().contains(*key));
                        assert(!node.right.as_map().dom().contains(*key));
                        lemma_same_structure_refl(node.left);
                        lemma_same_structure_refl(node.right);
                    }
                    Some(&mut node.value)
                }
            },
            Tree::Empty => vstd::pervasive::unreached(),
        }
    }

    /// Returns the key and value in the tree at the ordinal 0-based position
    /// given by `index`.  If the index was within range of the items in the
    /// tree, the `index`-th smallest entry is returned as `Some((&K, &V))`;
    /// if `index` was out of range, `None` is returned.  This operation has
    /// `O(log n)` time-complexity: the stored weights act as an implicit
    /// order-statistics index.
    pub fn get_nth(&self, index: usize) -> (res: Option<(&u64, &V)>)
        requires
            self.well_formed(),
        ensures
            index < self.inorder().len() ==> (res matches Some(kv)
                && *kv.0 == self.inorder()[index as int].0
                && *kv.1 == self.inorder()[index as int].1),
            index >= self.inorder().len() ==> res is None,
    {
        match self {
            Tree::Filled(_) => {
                proof {
                    assert(self.inorder().len() == self.spec_weight());
                }
                if index <= (isize::MAX as usize) {
                    self.get_nth_internal(index as isize)
                } else {
                    None
                }
            },
            _ => None,
        }
    }

    /// Internal implementation for `get_nth`.  The public facing version
    /// screens out indices beyond the machine's signed range, while the
    /// internal version works on signed offsets to avoid unsigned overflow.
    /// A negative index never reaches this function: the public screen hands
    /// it a non-negative one, so the subtraction below cannot underflow.
    fn get_nth_internal(&self, index: isize) -> (res: Option<(&u64, &V)>)
        requires
            self.well_formed(),
            *self is Filled,
            index >= 0,
        ensures
            index < self.inorder().len() ==> (res matches Some(kv)
                && *kv.0 == self.inorder()[index as int].0
                && *kv.1 == self.inorder()[index as int].1),
            index >= self.inorder().len() ==> res is None,
        decreases self,
    {
        let mut ret: Option<(&u64, &V)> = None;
        match self {
            Tree::Filled(node) => {
                let wt_l = if node.left.is_filled() {
                    node.left.weight()
                } else {
                    0
                };
                proof {
                    reveal_with_fuel(Tree::weights_ok, 2);
                    reveal_with_fuel(Tree::inorder, 2);
                    assert(wt_l as int == node.left.inorder().len());
                }
                let idx_adj = index - wt_l;
                if idx_adj == 0 {
                    ret = Some((&node.key, &node.value));
                    proof {
                        assert(self.inorder()[index as int] == (node.key, node.value));
                    }
                } else if idx_adj > 0 && node.right.is_filled() {
                    ret = node.right.get_nth_internal(idx_adj - 1);
                    proof {
                        if index < self.inorder().len() {
                            assert(self.inorder()[index as int] == node.right.inorder()[idx_adj
                                - 1]);
                        }
                    }
                } else if node.left.is_filled() {
                    ret = node.left.get_nth_internal(index);
                    proof {
                        if idx_adj > 0 {
                            assert(index >= self.inorder().len());
                            assert(index >= node.left.inorder().len());
                        } else {
                            assert(index < node.left.inorder().len());
                            assert(self.inorder()[index as int] == node.left.inorder()[index as int]);
                        }
                    }
                } else {
                    proof {
                        assert(index >= self.inorder().len());
                    }
                }
            },
            Tree::Empty => {
                proof {
                    assert(false);
                }
            },
        }
        ret
    }

    /// Indicates whether a `Tree` has a node (`true`), or is `Empty` (`false`).
    fn is_filled(&self) -> (r: bool)
        ensures
            r == (self is Filled),
    {
        matches!(self, Tree::Filled(_))
    }

    /// Moves the tree out of its place, leaving `Empty` behind, and hands the
    /// moved value to the caller.
    fn take(&mut self) -> (t: Tree<V>)
        ensures
            t == *old(self),
            *final(self) is Empty,
    {
        let mut tmp = Tree::Empty;
        core::mem::swap(self, &mut tmp);
        tmp
    }
}

impl<V: Copy> Tree<V> {
    /// Inserts the given key and value into the binary tree.  If the key was
    /// already present, then `Some(V)` is returned holding the former value
    /// of the key and the tree keeps its size; otherwise the key is new,
    /// `None` is returned, and the tree grows by one node.
    #[verifier::rlimit(100)]
    pub fn insert(&mut self, key: u64, value: V) -> (ret: Option<V>)
        requires
            old(self).well_formed(),
            old(self).inorder().len() < isize::MAX,
        ensures
            final(self).well_formed(),
            final(self)@ == old(self)@.insert(key, value),
            ret == (if old(self)@.dom().contains(key) {
                Some(old(self)@[key])
            } else {
                None::<V>
            }),
            old(self)@.dom().contains(key) ==> final(self).inorder().len() == old(
                self,
            ).inorder().len(),
            !old(self)@.dom().contains(key) ==> final(self).inorder().len() == old(
                self,
            ).inorder().len() + 1,
        decreases *old(self),
    {
        let ghost o = *old(self);
        match self {
            Tree::Empty => {
                *self = Tree::new_with_insert(key, value);
                proof {
                    assert(o@ =~= Map::<u64, V>::empty());
                    assert(self@ =~= o@.insert(key, value));
                }
                None
            },
            Tree::Filled(node) => {
                let ghost g_k0 = node.key;
                let ghost g_v0 = node.value;
                let ghost g_w0 = node.weight;
                let ghost g_l0 = node.left;
                let ghost g_r0 = node.right;
                proof {
                    assert(o == mk(g_k0, g_v0, g_w0, g_l0, g_r0));
                }
                let mut ret: Option<V>;
                if key < node.key {
                    ret = node.left.insert(key, value);
                } else if key > node.key {
                    ret = node.right.insert(key, value);
                } else {
                    ret = Some(node.value);
                    node.value = value;
                }
                if ret.is_none() {
                    proof {
                        assert(node.weight == g_w0);
                        assert(g_w0 as int == g_l0.inorder().len() + 1 + g_r0.inorder().len());
                    }
                    node.weight = node.weight + 1;
                    let bf = node.balance();
                    let bf_r = node.right.balance();
                    let bf_l = node.left.balance();
                    let ghost g_v1 = node.value;
                    let ghost g_w1 = node.weight;
                    let ghost g_l1 = node.left;
                    let ghost g_r1 = node.right;
                    proof {
                        assert(*self == mk(g_k0, g_v1, g_w1, g_l1, g_r1));
                        if key < g_k0 {
                            assert(!g_r0.as_map().dom().contains(key));
                            assert forall|q: u64| g_l1.as_map().dom().contains(q) implies q
                                < g_k0 by {
                                if q != key {
                                    assert(g_l0.as_map().dom().contains(q));
                                }
                            }
                            assert(self.ordered());
                            assert(self.weights_ok());
                            assert(self.as_map() =~= o.as_map().insert(key, value));
                            assert(!o.as_map().dom().contains(key));
                        } else {
                            assert(key > g_k0);
                            assert(!g_l0.as_map().dom().contains(key));
                            assert forall|q: u64| g_r1.as_map().dom().contains(q) implies q
                                > g_k0 by {
                                if q != key {
                                    assert(g_r0.as_map().dom().contains(q));
                                }
                            }
                            assert(self.ordered());
                            assert(self.weights_ok());
                            assert(self.as_map() =~= o.as_map().insert(key, value));
                            assert(!o.as_map().dom().contains(key));
                        }
                        assert(self.inorder().len() == o.inorder().len() + 1);
                        if bf >= 2 {
                            lemma_height_nonneg(g_r1);
                            assert(g_l1 is Filled);
                            if bf_l < 0 {
                                lemma_height_nonneg(g_l1.spec_left());
                                assert(g_l1.spec_right() is Filled);
                            }
                        } else if bf <= -2 {
                            lemma_height_nonneg(g_l1);
                            assert(g_r1 is Filled);
                            if bf_r > 0 {
                                lemma_height_nonneg(g_r1.spec_right());
                                assert(g_r1.spec_left() is Filled);
                            }
                        }
                    }
                    if bf >= 2 {
                        if bf_l > 0 {
                            self.rotate_left_left();
                        } else if bf_l < 0 {
                            self.rotate_left_right();
                        }
                    } else if bf <= -2 {
                        if bf_r < 0 {
                            self.rotate_right_right();
                        } else if bf_r > 0 {
                            self.rotate_right_left();
                        }
                    }
                } else {
                    let ghost g_v1 = node.value;
                    let ghost g_l1 = node.left;
                    let ghost g_r1 = node.right;
                    proof {
                        assert(*self == mk(g_k0, g_v1, g_w0, g_l1, g_r1));
                        if key < g_k0 {
                            assert(!g_r0.as_map().dom().contains(key));
                            assert forall|q: u64| g_l1.as_map().dom().contains(q) implies q
                                < g_k0 by {
                                if q != key {
                                    assert(g_l0.as_map().dom().contains(q));
                                }
                            }
                            assert(self.ordered());
                            assert(self.weights_ok());
                            assert(self.as_map() =~= o.as_map().insert(key, value));
                            assert(o.as_map().dom().contains(key));
                            assert(o.as_map()[key] == g_l0.as_map()[key]);
                        } else if key > g_k0 {
                            assert(!g_l0.as_map().dom().contains(key));
                            assert forall|q: u64| g_r1.as_map().dom().contains(q) implies q
                                > g_k0 by {
                                if q != key {
                                    assert(g_r0.as_map().dom().contains(q));
                                }
                            }
                            assert(self.ordered());
                            assert(self.weights_ok());
                            assert(self.as_map() =~= o.as_map().insert(key, value));
                            assert(o.as_map().dom().contains(key));
                            assert(o.as_map()[key] == g_r0.as_map()[key]);
                        } else {
                            assert(!g_l0.as_map().dom().contains(key));
                            assert(!g_r0.as_map().dom().contains(key));
                            assert(self.ordered());
                            assert(self.weights_ok());
                            assert(self.as_map() =~= o.as_map().insert(key, value));
                            assert(o.as_map().dom().contains(key));
                            assert(o.as_map()[key] == g_v0);
                        }
                        assert(self.inorder().len() == o.inorder().len());
                    }
                }
                ret
            },
        }
    }
}

impl<V: Copy> Tree<V> {
    /// Removes the provided key from the binary tree.  If the key was
    /// present in the tree, `Some(V)` is returned holding the former value
    /// and the tree shrinks by one node; otherwise `None` is returned and
    /// the tree is unchanged.  Never panics on a missing key.
    #[verifier::rlimit(100)]
    #[verifier::spinoff_prover]
    pub fn remove(&mut self, key: &u64) -> (ret: Option<V>)
        requires
            old(self).well_formed(),
        ensures
            final(self).well_formed(),
            final(self)@ == old(self)@.remove(*key),
            ret == (if old(self)@.dom().contains(*key) {
                Some(old(self)@[*key])
            } else {
                None::<V>
            }),
            old(self)@.dom().contains(*key) ==> final(self).inorder().len() == old(
                self,
            ).inorder().len() - 1,
            !old(self)@.dom().contains(*key) ==> *final(self) == *old(self),
        decreases *old(self),
    {
        let ghost o = *old(self);
        let mut ret: Option<V> = None;
        match self {
            Tree::Empty => {
                proof {
                    assert(o@ =~= Map::<u64, V>::empty());
                    assert(o@.remove(*key) =~= o@);
                }
            },
            Tree::Filled(node) => {
                let ghost g_k0 = node.key;
                let ghost g_v0 = node.value;
                let ghost g_w0 = node.weight;
                let ghost g_l0 = node.left;
                let ghost g_r0 = node.right;
                proof {
                    assert(o == mk(g_k0, g_v0, g_w0, g_l0, g_r0));
                    assert(!g_l0.as_map().dom().contains(g_k0));
                    assert(!g_r0.as_map().dom().contains(g_k0));
                    assert(o@.dom().contains(g_k0) && o@[g_k0] == g_v0);
                }
                if *key == node.key {
                    ret = Some(node.value);
                    if node.left.is_empty() && node.right.is_empty() {
                        *self = Tree::Empty;
                        proof {
                            assert(self@ =~= o@.remove(g_k0));
                        }
                    } else if node.left.is_filled() {
                        let (k, v) = node.left.predecessor();
                        node.key = k;
                        node.value = v;
                        proof {
                            assert(k < g_k0);
                            assert(g_l0.inorder().len() >= 1);
                            assert(g_w0 as int == o.inorder().len());
                        }
                        node.weight = node.weight - 1;
                        let _ = node.left.remove(&k);
                        let ghost g_l1 = node.left;
                        proof {
                            assert(*self == mk(k, v, (g_w0 - 1) as isize, g_l1, g_r0));
                            assert(g_l1@ == g_l0@.remove(k));
                            assert forall|q: u64| g_l1.as_map().dom().contains(q) implies q
                                < k by {
                                assert(g_l0.as_map().dom().contains(q));
                            }
                            assert forall|q: u64| g_r0.as_map().dom().contains(q) implies q
                                > k by {}
                            assert(self.ordered());
                            assert(self.weights_ok());
                            assert(!g_r0.as_map().dom().contains(k));
                            assert(self.as_map() =~= o.as_map().remove(g_k0));
                            assert(self.inorder().len() == o.inorder().len() - 1);
                        }
                    } else {
                        let (k, v) = node.right.successor();
                        node.key = k;
                        node.value = v;
                        proof {
                            assert(k > g_k0);
                            assert(g_r0.inorder().len() >= 1);
                            assert(g_w0 as int == o.inorder().len());
                        }
                        node.weight = node.weight - 1;
                        let _ = node.right.remove(&k);
                        let ghost g_r1 = node.right;
                        proof {
                            assert(*self == mk(k, v, (g_w0 - 1) as isize, g_l0, g_r1));
                            assert(g_r1@ == g_r0@.remove(k));
                            assert(g_l0 is Empty);
                            assert forall|q: u64| g_r1.as_map().dom().contains(q) implies q
                                > k by {
                                assert(g_r0.as_map().dom().contains(q));
                            }
                            assert(self.ordered());
                            assert(self.weights_ok());
                            assert(self.as_map() =~= o.as_map().remove(g_k0));
                            assert(self.inorder().len() == o.inorder().len() - 1);
                        }
                    }
                } else {
                    if *key < node.key {
                        ret = node.left.remove(key);
                    } else if *key > node.key {
                        ret = node.right.remove(key);
                    }
                    if ret.is_some() {
                        proof {
                            assert(g_w0 as int == o.inorder().len());
                            assert(o.inorder().len() >= 1);
                        }
                        node.weight = node.weight - 1;
                        let bf = node.balance();
                        let bf_r = node.right.balance();
                        let bf_l = node.left.balance();
                        let ghost g_w1 = node.weight;
                        let ghost g_l1 = node.left;
                        let ghost g_r1 = node.right;
                        proof {
                            assert(*self == mk(g_k0, g_v0, g_w1, g_l1, g_r1));
                            if *key < g_k0 {
                                assert(!g_r0.as_map().dom().contains(*key));
                                assert forall|q: u64| g_l1.as_map().dom().contains(q) implies q
                                    < g_k0 by {
                                    assert(g_l0.as_map().dom().contains(q));
                                }
                                assert(self.ordered());
                                assert(self.weights_ok());
                                assert(self.as_map() =~= o.as_map().remove(*key));
                                assert(o.as_map().dom().contains(*key));
                                assert(o.as_map()[*key] == g_l0.as_map()[*key]);
                            } else {
                                assert(!g_l0.as_map().dom().contains(*key));
                                assert forall|q: u64| g_r1.as_map().dom().contains(q) implies q
                                    > g_k0 by {
                                    assert(g_r0.as_map().dom().contains(q));
                                }
                                assert(self.ordered());
                                assert(self.weights_ok());
                                assert(self.as_map() =~= o.as_map().remove(*key));
                                assert(o.as_map().dom().contains(*key));
                                assert(o.as_map()[*key] == g_r0.as_map()[*key]);
                            }
                            assert(self.inorder().len() == o.inorder().len() - 1);
                            if bf >= 2 {
                                lemma_height_nonneg(g_r1);
                                assert(g_l1 is Filled);
                                if bf_l < 0 {
                                    lemma_height_nonneg(g_l1.spec_left());
                                    assert(g_l1.spec_right() is Filled);
                                }
                            } else if bf <= -2 {
                                lemma_height_nonneg(g_l1);
                                assert(g_r1 is Filled);
                                if bf_r > 0 {
                                    lemma_height_nonneg(g_r1.spec_right());
                                    assert(g_r1.spec_left() is Filled);
                                }
                            }
                        }
                        if bf >= 2 {
                            if bf_l >= 0 {
                                self.rotate_left_left();
                            } else {
                                self.rotate_left_right();
                            }
                        } else if bf <= -2 {
                            if bf_r <= 0 {
                                self.rotate_right_right();
                            } else {
                                self.rotate_right_left();
                            }
                        }
                    } else {
                        let ghost g_l1 = node.left;
                        let ghost g_r1 = node.right;
                        proof {
                            assert(g_l1 == g_l0 && g_r1 == g_r0);
                            assert(*self == o);
                            if *key < g_k0 {
                                assert(!g_r0.as_map().dom().contains(*key));
                            } else {
                                assert(!g_l0.as_map().dom().contains(*key));
                            }
                            assert(!o.as_map().dom().contains(*key));
                            assert(self.as_map() =~= o.as_map().remove(*key));
                        }
                    }
                }
            },
        }
        ret
    }

    /// Returns the key and value of the rightmost node in the current
    /// `Tree`: the largest key held.  This is invoked as part of `remove`; it
    /// reads the tree without changing it.
    fn predecessor(&self) -> (kv: (u64, V))
        requires
            self.well_formed(),
            *self is Filled,
        ensures
            self@.dom().contains(kv.0),
            self@[kv.0] == kv.1,
            forall|q: u64| self@.dom().contains(q) ==> q <= kv.0,
        decreases self,
    {
        match self {
            Tree::Filled(node) => {
                if node.right.is_filled() {
                    let kv = node.right.predecessor();
                    proof {
                        assert(self@.dom().contains(kv.0));
                        assert(kv.0 > node.key);
                        assert(self@[kv.0] == node.right.as_map()[kv.0]);
                        assert forall|q: u64| self@.dom().contains(q) implies q <= kv.0 by {
                            if q != node.key && !node.right.as_map().dom().contains(q) {
                                assert(node.left.as_map().union_prefer_right(
                                    node.right.as_map(),
                                ).dom().contains(q));
                                assert(node.left.as_map().dom().contains(q));
                            }
                        }
                    }
                    kv
                } else {
                    proof {
                        assert(self@.dom().contains(node.key));
                        assert(self@[node.key] == node.value);
                        assert forall|q: u64| self@.dom().contains(q) implies q
                            <= node.key by {
                            if q != node.key {
                                assert(node.left.as_map().union_prefer_right(
                                    node.right.as_map(),
                                ).dom().contains(q));
                                assert(node.left.as_map().dom().contains(q));
                            }
                        }
                    }
                    (node.key, node.value)
                }
            },
            Tree::Empty => vstd::pervasive::unreached(),
        }
    }

    /// Returns the key and value of the leftmost node in the current `Tree`:
    /// the smallest key held.  Invoked by `remove`; it reads the tree without
    /// changing it.
    fn successor(&self) -> (kv: (u64, V))
        requires
            self.well_formed(),
            *self is Filled,
        ensures
            self@.dom().contains(kv.0),
            self@[kv.0] == kv.1,
            forall|q: u64| self@.dom().contains(q) ==> q >= kv.0,
        decreases self,
    {
        match self {
            Tree::Filled(node) => {
                if node.left.is_filled() {
                    let kv = node.left.successor();
                    proof {
                        assert(node.left.as_map().dom().contains(kv.0));
                        assert(kv.0 < node.key);
                        assert(!node.right.as_map().dom().contains(kv.0));
                        assert(self@.dom().contains(kv.0));
                        assert(self@[kv.0] == node.left.as_map()[kv.0]);
                        assert forall|q: u64| self@.dom().contains(q) implies q >= kv.0 by {
                            if q != node.key && !node.left.as_map().dom().contains(q) {
                                assert(node.left.as_map().union_prefer_right(
                                    node.right.as_map(),
                                ).dom().contains(q));
                                assert(node.right.as_map().dom().contains(q));
                            }
                        }
                    }
                    kv
                } else {
                    proof {
                        assert(self@.dom().contains(node.key));
                        assert(self@[node.key] == node.value);
                        assert forall|q: u64| self@.dom().contains(q) implies q
                            >= node.key by {
                            if q != node.key {
                                assert(node.left.as_map().union_prefer_right(
                                    node.right.as_map(),
                                ).dom().contains(q));
                                assert(node.right.as_map().dom().contains(q));
                            }
                        }
                    }
                    (node.key, node.value)
                }
            },
            Tree::Empty => vstd::pervasive::unreached(),
        }
    }
}

impl<V> Tree<V> {
    /// Weight decomposition at every node: the stored weight is one more
    /// than the two children's stored weights together.
    pub closed spec fn weights_sum_ok(self) -> bool
        decreases self,
    {
        match self {
            Tree::Empty => true,
            Tree::Filled(node) => {
                &&& node.weight as int == 1 + node.left.spec_weight() + node.right.spec_weight()
                &&& node.left.weights_sum_ok()
                &&& node.right.weights_sum_ok()
            },
        }
    }

    /// Reports whether every node meets the balance bound, measured with the
    /// tree's own height definition.
    pub fn is_balanced(&self) -> (r: bool)
        requires
            self.weights_ok(),
        ensures
            r == self.balanced(),
        decreases self,
    {
        match self {
            Tree::Empty => true,
            Tree::Filled(node) => {
                let b = node.balance();
                if b < -1 || b > 1 {
                    false
                } else {
                    let bl = node.left.is_balanced();
                    let br = node.right.is_balanced();
                    bl && br
                }
            },
        }
    }
}

/// Every entry of the in-order sequence appears in the map view, bound to
/// the same value.
pub proof fn lemma_inorder_entries_in_map<V>(t: Tree<V>)
    requires
        t.well_formed(),
    ensures
        forall|i: int|
            0 <= i < t.inorder().len() ==> t.as_map().dom().contains(#[trigger] t.inorder()[i].0)
                && t.as_map()[t.inorder()[i].0] == t.inorder()[i].1,
    decreases t,
{
    match t {
        Tree::Empty => {},
        Tree::Filled(node) => {
            lemma_inorder_entries_in_map(node.left);
            lemma_inorder_entries_in_map(node.right);
            let l = node.left.inorder();
            let r = node.right.inorder();
            assert forall|i: int| 0 <= i < t.inorder().len() implies t.as_map().dom().contains(
                #[trigger] t.inorder()[i].0,
            ) && t.as_map()[t.inorder()[i].0] == t.inorder()[i].1 by {
                if i < l.len() {
                    assert(t.inorder()[i] == l[i]);
                    assert(node.left.as_map().dom().contains(l[i].0));
                    assert(l[i].0 < node.key);
                    assert(!node.right.as_map().dom().contains(l[i].0));
                } else if i == l.len() {
                    assert(t.inorder()[i] == (node.key, node.value));
                } else {
                    assert(t.inorder()[i] == r[i - l.len() - 1]);
                    assert(node.right.as_map().dom().contains(r[i - l.len() - 1].0));
                }
            }
        },
    }
}

/// For all trees that satisfy the structural invariant - so for every tree
/// built by any sequence of the public operations - the in-order traversal
/// yields strictly increasing keys.
pub proof fn lemma_inorder_sorted<V>(t: Tree<V>)
    requires
        t.well_formed(),
    ensures
        forall|i: int, j: int|
            0 <= i < j < t.inorder().len() ==> #[trigger] t.inorder()[i].0
                < #[trigger] t.inorder()[j].0,
    decreases t,
{
    match t {
        Tree::Empty => {},
        Tree::Filled(node) => {
            lemma_inorder_sorted(node.left);
            lemma_inorder_sorted(node.right);
            lemma_inorder_entries_in_map(node.left);
            lemma_inorder_entries_in_map(node.right);
            let l = node.left.inorder();
            let r = node.right.inorder();
            assert forall|i: int, j: int| 0 <= i < j < t.inorder().len() implies #[trigger] t.inorder()[i].0
                < #[trigger] t.inorder()[j].0 by {
                if j < l.len() {
                    assert(t.inorder()[i] == l[i] && t.inorder()[j] == l[j]);
                } else if j == l.len() {
                    assert(t.inorder()[i] == l[i]);
                    assert(node.left.as_map().dom().contains(l[i].0));
                } else {
                    assert(t.inorder()[j] == r[j - l.len() - 1]);
                    assert(node.right.as_map().dom().contains(r[j - l.len() - 1].0));
                    if i < l.len() {
                        assert(t.inorder()[i] == l[i]);
                        assert(node.left.as_map().dom().contains(l[i].0));
                    } else if i == l.len() {
                        assert(t.inorder()[i] == (node.key, node.value));
                    } else {
                        assert(t.inorder()[i] == r[i - l.len() - 1]);
                    }
                }
            }
        },
    }
}

/// The map view of a well-formed tree has finitely many keys.
proof fn lemma_as_map_finite<V>(t: Tree<V>)
    ensures
        t.as_map().dom().finite(),
    decreases t,
{
    match t {
        Tree::Empty => {},
        Tree::Filled(node) => {
            lemma_as_map_finite(node.left);
            lemma_as_map_finite(node.right);
            assert(node.left.as_map().union_prefer_right(node.right.as_map()).dom()
                =~= node.left.as_map().dom() + node.right.as_map().dom());
        },
    }
}

/// A tree with exact weights stores, at every node, one more than the sum
/// of the children's weights; and the root's weight counts the keys held.
pub proof fn lemma_weight_decomposition<V>(t: Tree<V>)
    requires
        t.weights_ok(),
    ensures
        t.weights_sum_ok(),
        t.spec_weight() == t.inorder().len(),
    decreases t,
{
    match t {
        Tree::Empty => {},
        Tree::Filled(node) => {
            lemma_weight_decomposition(node.left);
            lemma_weight_decomposition(node.right);
        },
    }
}

/// The number of in-order entries equals the number of distinct keys in the
/// map view: no key is stored twice.
pub proof fn lemma_key_count<V>(t: Tree<V>)
    requires
        t.well_formed(),
    ensures
        t.inorder().len() == t.as_map().dom().len(),
        t.as_map().dom().finite(),
    decreases t,
{
    lemma_as_map_finite(t);
    match t {
        Tree::Empty => {
            assert(t.as_map().dom() =~= Set::<u64>::empty());
        },
        Tree::Filled(node) => {
            lemma_key_count(node.left);
            lemma_key_count(node.right);
            let ld = node.left.as_map().dom();
            let rd = node.right.as_map().dom();
            assert(ld.disjoint(rd)) by {
                assert forall|q: u64| ld.contains(q) implies !rd.contains(q) by {}
            }
            vstd::set_lib::lemma_set_disjoint_lens(ld, rd);
            let ud = node.left.as_map().union_prefer_right(node.right.as_map()).dom();
            assert(ud =~= ld + rd);
            assert(t.as_map().dom() =~= ud.insert(node.key));
            assert(!ud.contains(node.key));
            assert(ud.insert(node.key).len() == ud.len() + 1);
        },
    }
}

/// After `insert(key, value)`, looking the key up yields exactly the value
/// that was inserted, whatever the map held before.
pub proof fn lemma_insert_get_round_trip<V>(m: Map<u64, V>, key: u64, value: V)
    ensures
        m.insert(key, value).dom().contains(key),
        m.insert(key, value)[key] == value,
{
}

/// Inserting a key never disturbs the binding of any other key.
pub proof fn lemma_insert_preserves_others<V>(m: Map<u64, V>, key: u64, value: V, q: u64)
    requires
        q != key,
    ensures
        m.insert(key, value).dom().contains(q) == m.dom().contains(q),
        m.dom().contains(q) ==> m.insert(key, value)[q] == m[q],
{
}

/// After `remove(key)` the key is gone: a lookup finds nothing, and a
/// second removal finds nothing to return.
pub proof fn lemma_remove_get_consistency<V>(m: Map<u64, V>, key: u64)
    ensures
        !m.remove(key).dom().contains(key),
{
}

impl<V> Node<V> {
    /// The key stored in this node.
    pub closed spec fn spec_key(self) -> u64 {
        self.key
    }

    /// The weight stored in this node.
    pub closed spec fn spec_weight(self) -> int {
        self.weight as int
    }

    /// Constructor for `Node`: a leaf holding the key and value.
    fn new(key: u64, value: V) -> (n: Self)
        ensures
            n == (Node { key, value, weight: 1isize, left: Tree::<V>::Empty, right: Tree::<V>::Empty }),
    {
        Node { key, value, weight: 1, left: Tree::Empty, right: Tree::Empty }
    }

    /// The node's key.
    pub fn key(&self) -> (k: &u64)
        ensures
            *k == self.spec_key(),
    {
        &self.key
    }

    /// The node's stored weight.
    pub fn weight(&self) -> (w: isize)
        ensures
            w as int == self.spec_weight(),
    {
        self.weight
    }

    /// The node's height measure: `floor(log2(weight))`.
    fn height(&self) -> (h: isize)
        requires
            self.weight >= 0,
        ensures
            h as int == spec_log2(self.weight as int),
            h >= 0,
    {
        Tree::<V>::floor_log2(self.weight)
    }

    /// The difference in height between the node's left and right sub-trees
    /// (`left.height() - right.height()`).
    fn balance(&self) -> (b: isize)
        requires
            self.left.weights_ok(),
            self.right.weights_ok(),
        ensures
            b as int == self.left.spec_height() - self.right.spec_height(),
    {
        let hl = self.left.height();
        let hr = self.right.height();
        hl - hr
    }
}

/// `spec_log2` never goes below zero.
proof fn lemma_log2_nonneg(n: int)
    ensures
        spec_log2(n) >= 0,
    decreases n,
{
    if n > 1 {
        lemma_log2_nonneg(n / 2);
    }
}

/// `spec_log2(n)` stays below `n` for positive `n`.
proof fn lemma_log2_lt(n: int)
    requires
        n >= 1,
    ensures
        spec_log2(n) < n,
    decreases n,
{
    if n > 1 {
        lemma_log2_lt(n / 2);
    }
}

/// The height measure never goes below zero.
proof fn lemma_height_nonneg<V>(t: Tree<V>)
    ensures
        t.spec_height() >= 0,
{
    match t {
        Tree::Filled(node) => lemma_log2_nonneg(node.weight as int),
        Tree::Empty => {},
    }
}

/// Builds a filled tree from its parts; a convenience for stating facts
/// about rotations.
spec fn mk<V>(key: u64, value: V, weight: isize, left: Tree<V>, right: Tree<V>) -> Tree<V> {
    Tree::Filled(Box::new(Node { key, value, weight, left, right }))
}

/// The arrangement a left-left rotation produces: the former left child's
/// node on top, the old root as its right child.  Weights are written as 0;
/// `same_entries_shape` does not read them.
spec fn spec_rotate_ll<V>(t: Tree<V>) -> Tree<V> {
    mk(
        t.spec_left().spec_key(),
        t.spec_left().spec_value(),
        0,
        t.spec_left().spec_left(),
        mk(t.spec_key(), t.spec_value(), 0, t.spec_left().spec_right(), t.spec_right()),
    )
}

/// The arrangement a right-right rotation produces: the former right
/// child's node on top, the old root as its left child.
spec fn spec_rotate_rr<V>(t: Tree<V>) -> Tree<V> {
    mk(
        t.spec_right().spec_key(),
        t.spec_right().spec_value(),
        0,
        mk(t.spec_key(), t.spec_value(), 0, t.spec_left(), t.spec_right().spec_left()),
        t.spec_right().spec_right(),
    )
}

/// The arrangement a left-right rotation produces: the former node at
/// left.right on top, the old left child and the old root beneath it.
spec fn spec_rotate_lr<V>(t: Tree<V>) -> Tree<V> {
    mk(
        t.spec_left().spec_right().spec_key(),
        t.spec_left().spec_right().spec_value(),
        0,
        mk(
            t.spec_left().spec_key(),
            t.spec_left().spec_value(),
            0,
            t.spec_left().spec_left(),
            t.spec_left().spec_right().spec_left(),
        ),
        mk(
            t.spec_key(),
            t.spec_value(),
            0,
            t.spec_left().spec_right().spec_right(),
            t.spec_right(),
        ),
    )
}

/// The arrangement a right-left rotation produces: the former node at
/// right.left on top, the old root and the old right child beneath it.
spec fn spec_rotate_rl<V>(t: Tree<V>) -> Tree<V> {
    mk(
        t.spec_right().spec_left().spec_key(),
        t.spec_right().spec_left().spec_value(),
        0,
        mk(
            t.spec_key(),
            t.spec_value(),
            0,
            t.spec_left(),
            t.spec_right().spec_left().spec_left(),
        ),
        mk(
            t.spec_right().spec_key(),
            t.spec_right().spec_value(),
            0,
            t.spec_right().spec_left().spec_right(),
            t.spec_right().spec_right(),
        ),
    )
}

/// A left-left rotation keeps the entries and their in-order positions,
/// keeps the binary-search-tree order, and leaves stale weights only in the
/// two re-parented nodes, whatever the stale values `wa` and `wb` are.
#[verifier::rlimit(80)]
proof fn lemma_rotate_ll<V>(
    k: u64,
    v: V,
    w0: isize,
    lk: u64,
    lv: V,
    wl: isize,
    wa: isize,
    wb: isize,
    ll: Tree<V>,
    lr: Tree<V>,
    r: Tree<V>,
)
    requires
        mk(k, v, w0, mk(lk, lv, wl, ll, lr), r).well_formed(),
    ensures
        mk(lk, lv, wa, ll, mk(k, v, wb, lr, r)).inorder() == mk(
            k,
            v,
            w0,
            mk(lk, lv, wl, ll, lr),
            r,
        ).inorder(),
        mk(lk, lv, wa, ll, mk(k, v, wb, lr, r)).as_map() == mk(
            k,
            v,
            w0,
            mk(lk, lv, wl, ll, lr),
            r,
        ).as_map(),
        mk(lk, lv, wa, ll, mk(k, v, wb, lr, r)).ordered(),
        mk(lk, lv, wa, ll, mk(k, v, wb, lr, r)).weights_ok_below(2),
        mk(k, v, w0, mk(lk, lv, wl, ll, lr), r).inorder().len() == w0 as int,
{
    reveal_with_fuel(Tree::inorder, 3);
    reveal_with_fuel(Tree::as_map, 3);
    reveal_with_fuel(Tree::ordered, 3);
    reveal_with_fuel(Tree::weights_ok, 3);
    reveal_with_fuel(Tree::weights_ok_below, 3);
    let o = mk(k, v, w0, mk(lk, lv, wl, ll, lr), r);
    let l = mk(lk, lv, wl, ll, lr);
    let s2 = mk(k, v, wb, lr, r);
    let s = mk(lk, lv, wa, ll, s2);
    assert(l.as_map().dom().contains(lk));
    assert(lk < k);
    assert(s.inorder() =~= o.inorder());
    assert forall|q: u64| lr.as_map().dom().contains(q) implies q < k by {
        assert(l.as_map().dom().contains(q));
    }
    assert forall|q: u64| s2.as_map().dom().contains(q) implies q > lk by {
        if q != k && !lr.as_map().dom().contains(q) {
            assert(lr.as_map().union_prefer_right(r.as_map()).dom().contains(q));
            assert(r.as_map().dom().contains(q));
            assert(q > k);
        }
    }
    assert(s2.ordered());
    assert(s.ordered());
    lemma_weights_ok_below(ll, 1);
    lemma_weights_ok_below(lr, 0);
    lemma_weights_ok_below(r, 0);
    assert(s.weights_ok_below(2));
    assert(!lr.as_map().dom().contains(lk));
    assert(!r.as_map().dom().contains(lk));
    assert(!ll.as_map().dom().contains(k));
    assert(!lr.as_map().dom().contains(k));
    assert(!r.as_map().dom().contains(k));
    assert(s.as_map() =~= o.as_map());
}

/// A right-right rotation keeps the entries and their in-order positions,
/// keeps the binary-search-tree order, and leaves stale weights only in the
/// two re-parented nodes, whatever the stale values `wa` and `wb` are.
#[verifier::rlimit(80)]
proof fn lemma_rotate_rr<V>(
    k: u64,
    v: V,
    w0: isize,
    rk: u64,
    rv: V,
    wr: isize,
    wa: isize,
    wb: isize,
    l: Tree<V>,
    rl: Tree<V>,
    rr: Tree<V>,
)
    requires
        mk(k, v, w0, l, mk(rk, rv, wr, rl, rr)).well_formed(),
    ensures
        mk(rk, rv, wa, mk(k, v, wb, l, rl), rr).inorder() == mk(
            k,
            v,
            w0,
            l,
            mk(rk, rv, wr, rl, rr),
        ).inorder(),
        mk(rk, rv, wa, mk(k, v, wb, l, rl), rr).as_map() == mk(
            k,
            v,
            w0,
            l,
            mk(rk, rv, wr, rl, rr),
        ).as_map(),
        mk(rk, rv, wa, mk(k, v, wb, l, rl), rr).ordered(),
        mk(rk, rv, wa, mk(k, v, wb, l, rl), rr).weights_ok_below(2),
        mk(k, v, w0, l, mk(rk, rv, wr, rl, rr)).inorder().len() == w0 as int,
{
    reveal_with_fuel(Tree::inorder, 3);
    reveal_with_fuel(Tree::as_map, 3);
    reveal_with_fuel(Tree::ordered, 3);
    reveal_with_fuel(Tree::weights_ok, 3);
    reveal_with_fuel(Tree::weights_ok_below, 3);
    let o = mk(k, v, w0, l, mk(rk, rv, wr, rl, rr));
    let r = mk(rk, rv, wr, rl, rr);
    let s1 = mk(k, v, wb, l, rl);
    let s = mk(rk, rv, wa, s1, rr);
    assert(r.as_map().dom().contains(rk));
    assert(rk > k);
    assert(s.inorder() =~= o.inorder());
    assert forall|q: u64| rl.as_map().dom().contains(q) implies q > k by {
        assert(r.as_map().dom().contains(q));
    }
    assert forall|q: u64| s1.as_map().dom().contains(q) implies q < rk by {
        if q != k && !rl.as_map().dom().contains(q) {
            assert(l.as_map().union_prefer_right(rl.as_map()).dom().contains(q));
            assert(l.as_map().dom().contains(q));
            assert(q < k);
        }
    }
    assert(s1.ordered());
    assert(s.ordered());
    lemma_weights_ok_below(rr, 1);
    lemma_weights_ok_below(rl, 0);
    lemma_weights_ok_below(l, 0);
    assert(s.weights_ok_below(2));
    assert(!rl.as_map().dom().contains(rk));
    assert(!l.as_map().dom().contains(rk));
    assert(!rr.as_map().dom().contains(k));
    assert(!rl.as_map().dom().contains(k));
    assert(!l.as_map().dom().contains(k));
    assert(s.as_map() =~= o.as_map());
}

/// A left-right rotation keeps the entries and their in-order positions,
/// keeps the binary-search-tree order, and leaves stale weights only in the
/// three re-parented nodes, whatever the stale values `wa`, `wb`, `wc` are.
#[verifier::rlimit(100)]
#[verifier::spinoff_prover]
proof fn lemma_rotate_lr<V>(
    k: u64,
    v: V,
    w0: isize,
    lk: u64,
    lv: V,
    wl: isize,
    mkey: u64,
    mv: V,
    wm: isize,
    wa: isize,
    wb: isize,
    wc: isize,
    ll: Tree<V>,
    ml: Tree<V>,
    mr: Tree<V>,
    r: Tree<V>,
)
    requires
        mk(k, v, w0, mk(lk, lv, wl, ll, mk(mkey, mv, wm, ml, mr)), r).well_formed(),
    ensures
        mk(mkey, mv, wa, mk(lk, lv, wb, ll, ml), mk(k, v, wc, mr, r)).inorder() == mk(
            k,
            v,
            w0,
            mk(lk, lv, wl, ll, mk(mkey, mv, wm, ml, mr)),
            r,
        ).inorder(),
        mk(mkey, mv, wa, mk(lk, lv, wb, ll, ml), mk(k, v, wc, mr, r)).ordered(),
        mk(mkey, mv, wa, mk(lk, lv, wb, ll, ml), mk(k, v, wc, mr, r)).weights_ok_below(2),
        mk(k, v, w0, mk(lk, lv, wl, ll, mk(mkey, mv, wm, ml, mr)), r).inorder().len() == w0 as int,
{
    reveal_with_fuel(Tree::inorder, 3);
    reveal_with_fuel(Tree::as_map, 3);
    reveal_with_fuel(Tree::ordered, 3);
    reveal_with_fuel(Tree::weights_ok, 3);
    reveal_with_fuel(Tree::weights_ok_below, 3);
    let m = mk(mkey, mv, wm, ml, mr);
    let l = mk(lk, lv, wl, ll, m);
    let o = mk(k, v, w0, l, r);
    let sa = mk(lk, lv, wb, ll, ml);
    let sb = mk(k, v, wc, mr, r);
    let s = mk(mkey, mv, wa, sa, sb);
    assert(l.as_map().dom().contains(lk));
    assert(lk < k);
    assert(m.as_map().dom().contains(mkey));
    assert(l.as_map().dom().contains(mkey));
    assert(lk < mkey && mkey < k);
    assert(s.inorder() =~= o.inorder());
    assert forall|q: u64| ml.as_map().dom().contains(q) implies lk < q && q < mkey by {
        assert(m.as_map().dom().contains(q));
    }
    assert forall|q: u64| mr.as_map().dom().contains(q) implies mkey < q && q < k by {
        assert(m.as_map().dom().contains(q));
        assert(l.as_map().dom().contains(q));
    }
    assert(sa.ordered());
    assert(sb.ordered());
    assert forall|q: u64| sa.as_map().dom().contains(q) implies q < mkey by {
        if q != lk && !ll.as_map().dom().contains(q) {
            assert(ll.as_map().union_prefer_right(ml.as_map()).dom().contains(q));
            assert(ml.as_map().dom().contains(q));
        }
    }
    assert forall|q: u64| sb.as_map().dom().contains(q) implies q > mkey by {
        if q != k && !mr.as_map().dom().contains(q) {
            assert(mr.as_map().union_prefer_right(r.as_map()).dom().contains(q));
            assert(r.as_map().dom().contains(q));
            assert(q > k);
        }
    }
    assert(s.ordered());
    lemma_weights_ok_below(ll, 0);
    lemma_weights_ok_below(ml, 0);
    lemma_weights_ok_below(mr, 0);
    lemma_weights_ok_below(r, 0);
    assert(s.weights_ok_below(2));
}

/// The map of entries is unchanged by a left-right rotation.
#[verifier::rlimit(100)]
proof fn lemma_rotate_lr_map<V>(
    k: u64,
    v: V,
    w0: isize,
    lk: u64,
    lv: V,
    wl: isize,
    mkey: u64,
    mv: V,
    wm: isize,
    wa: isize,
    wb: isize,
    wc: isize,
    ll: Tree<V>,
    ml: Tree<V>,
    mr: Tree<V>,
    r: Tree<V>,
)
    requires
        mk(k, v, w0, mk(lk, lv, wl, ll, mk(mkey, mv, wm, ml, mr)), r).well_formed(),
    ensures
        mk(mkey, mv, wa, mk(lk, lv, wb, ll, ml), mk(k, v, wc, mr, r)).as_map() == mk(
            k,
            v,
            w0,
            mk(lk, lv, wl, ll, mk(mkey, mv, wm, ml, mr)),
            r,
        ).as_map(),
{
    reveal_with_fuel(Tree::as_map, 4);
    reveal_with_fuel(Tree::ordered, 4);
    let m = mk(mkey, mv, wm, ml, mr);
    let l = mk(lk, lv, wl, ll, m);
    let o = mk(k, v, w0, l, r);
    let sa = mk(lk, lv, wb, ll, ml);
    let sb = mk(k, v, wc, mr, r);
    let s = mk(mkey, mv, wa, sa, sb);
    assert(l.as_map().dom().contains(lk));
    assert(m.as_map().dom().contains(mkey));
    assert(l.as_map().dom().contains(mkey));
    assert(lk < mkey && mkey < k);
    assert forall|q: u64| ml.as_map().dom().contains(q) implies lk < q && q < mkey by {
        assert(m.as_map().dom().contains(q));
    }
    assert forall|q: u64| mr.as_map().dom().contains(q) implies mkey < q && q < k by {
        assert(m.as_map().dom().contains(q));
        assert(l.as_map().dom().contains(q));
    }
    assert(!ll.as_map().dom().contains(mkey) && !ml.as_map().dom().contains(mkey)
        && !mr.as_map().dom().contains(mkey) && !r.as_map().dom().contains(mkey));
    assert(!ll.as_map().dom().contains(lk) && !ml.as_map().dom().contains(lk)
        && !mr.as_map().dom().contains(lk) && !r.as_map().dom().contains(lk));
    assert(!ll.as_map().dom().contains(k) && !ml.as_map().dom().contains(k)
        && !mr.as_map().dom().contains(k) && !r.as_map().dom().contains(k));
    assert(s.as_map() =~= o.as_map());
}

/// A right-left rotation keeps the entries and their in-order positions,
/// keeps the binary-search-tree order, and leaves stale weights only in the
/// three re-parented nodes, whatever the stale values `wa`, `wb`, `wc` are.
#[verifier::rlimit(100)]
#[verifier::spinoff_prover]
proof fn lemma_rotate_rl<V>(
    k: u64,
    v: V,
    w0: isize,
    rk: u64,
    rv: V,
    wr: isize,
    mkey: u64,
    mv: V,
    wm: isize,
    wa: isize,
    wb: isize,
    wc: isize,
    l: Tree<V>,
    ml: Tree<V>,
    mr: Tree<V>,
    rr: Tree<V>,
)
    requires
        mk(k, v, w0, l, mk(rk, rv, wr, mk(mkey, mv, wm, ml, mr), rr)).well_formed(),
    ensures
        mk(mkey, mv, wa, mk(k, v, wb, l, ml), mk(rk, rv, wc, mr, rr)).inorder() == mk(
            k,
            v,
            w0,
            l,
            mk(rk, rv, wr, mk(mkey, mv, wm, ml, mr), rr),
        ).inorder(),
        mk(mkey, mv, wa, mk(k, v, wb, l, ml), mk(rk, rv, wc, mr, rr)).ordered(),
        mk(mkey, mv, wa, mk(k, v, wb, l, ml), mk(rk, rv, wc, mr, rr)).weights_ok_below(2),
        mk(k, v, w0, l, mk(rk, rv, wr, mk(mkey, mv, wm, ml, mr), rr)).inorder().len() == w0 as int,
{
    reveal_with_fuel(Tree::inorder, 3);
    reveal_with_fuel(Tree::as_map, 3);
    reveal_with_fuel(Tree::ordered, 3);
    reveal_with_fuel(Tree::weights_ok, 3);
    reveal_with_fuel(Tree::weights_ok_below, 3);
    let m = mk(mkey, mv, wm, ml, mr);
    let r = mk(rk, rv, wr, m, rr);
    let o = mk(k, v, w0, l, r);
    let sa = mk(k, v, wb, l, ml);
    let sb = mk(rk, rv, wc, mr, rr);
    let s = mk(mkey, mv, wa, sa, sb);
    assert(r.as_map().dom().contains(rk));
    assert(rk > k);
    assert(m.as_map().dom().contains(mkey));
    assert(r.as_map().dom().contains(mkey));
    assert(k < mkey && mkey < rk);
    assert(s.inorder() =~= o.inorder());
    assert forall|q: u64| ml.as_map().dom().contains(q) implies k < q && q < mkey by {
        assert(m.as_map().dom().contains(q));
        assert(r.as_map().dom().contains(q));
    }
    assert forall|q: u64| mr.as_map().dom().contains(q) implies mkey < q && q < rk by {
        assert(m.as_map().dom().contains(q));
    }
    assert(sa.ordered());
    assert(sb.ordered());
    assert forall|q: u64| sa.as_map().dom().contains(q) implies q < mkey by {
        if q != k && !ml.as_map().dom().contains(q) {
            assert(l.as_map().union_prefer_right(ml.as_map()).dom().contains(q));
            assert(l.as_map().dom().contains(q));
            assert(q < k);
        }
    }
    assert forall|q: u64| sb.as_map().dom().contains(q) implies q > mkey by {
        if q != rk && !mr.as_map().dom().contains(q) {
            assert(mr.as_map().union_prefer_right(rr.as_map()).dom().contains(q));
            assert(rr.as_map().dom().contains(q));
            assert(q > rk);
        }
    }
    assert(s.ordered());
    lemma_weights_ok_below(l, 0);
    lemma_weights_ok_below(ml, 0);
    lemma_weights_ok_below(mr, 0);
    lemma_weights_ok_below(rr, 0);
    assert(s.weights_ok_below(2));
}

/// The map of entries is unchanged by a right-left rotation.
#[verifier::rlimit(100)]
proof fn lemma_rotate_rl_map<V>(
    k: u64,
    v: V,
    w0: isize,
    rk: u64,
    rv: V,
    wr: isize,
    mkey: u64,
    mv: V,
    wm: isize,
    wa: isize,
    wb: isize,
    wc: isize,
    l: Tree<V>,
    ml: Tree<V>,
    mr: Tree<V>,
    rr: Tree<V>,
)
    requires
        mk(k, v, w0, l, mk(rk, rv, wr, mk(mkey, mv, wm, ml, mr), rr)).well_formed(),
    ensures
        mk(mkey, mv, wa, mk(k, v, wb, l, ml), mk(rk, rv, wc, mr, rr)).as_map() == mk(
            k,
            v,
            w0,
            l,
            mk(rk, rv, wr, mk(mkey, mv, wm, ml, mr), rr),
        ).as_map(),
{
    reveal_with_fuel(Tree::as_map, 4);
    reveal_with_fuel(Tree::ordered, 4);
    let m = mk(mkey, mv, wm, ml, mr);
    let r = mk(rk, rv, wr, m, rr);
    let o = mk(k, v, w0, l, r);
    let sa = mk(k, v, wb, l, ml);
    let sb = mk(rk, rv, wc, mr, rr);
    let s = mk(mkey, mv, wa, sa, sb);
    assert(r.as_map().dom().contains(rk));
    assert(m.as_map().dom().contains(mkey));
    assert(r.as_map().dom().contains(mkey));
    assert(k < mkey && mkey < rk);
    assert forall|q: u64| ml.as_map().dom().contains(q) implies k < q && q < mkey by {
        assert(m.as_map().dom().contains(q));
        assert(r.as_map().dom().contains(q));
    }
    assert forall|q: u64| mr.as_map().dom().contains(q) implies mkey < q && q < rk by {
        assert(m.as_map().dom().contains(q));
    }
    assert(!l.as_map().dom().contains(mkey) && !ml.as_map().dom().contains(mkey)
        && !mr.as_map().dom().contains(mkey) && !rr.as_map().dom().contains(mkey));
    assert(!l.as_map().dom().contains(rk) && !ml.as_map().dom().contains(rk)
        && !mr.as_map().dom().contains(rk) && !rr.as_map().dom().contains(rk));
    assert(!l.as_map().dom().contains(k) && !ml.as_map().dom().contains(k)
        && !mr.as_map().dom().contains(k) && !rr.as_map().dom().contains(k));
    assert(s.as_map() =~= o.as_map());
}

/// Every tree has the same entries and arrangement as itself.
proof fn lemma_same_entries_shape_refl<V>(t: Tree<V>)
    ensures
        t.same_entries_shape(t),
    decreases t,
{
    match t {
        Tree::Filled(node) => {
            lemma_same_entries_shape_refl(node.left);
            lemma_same_entries_shape_refl(node.right);
        },
        Tree::Empty => {},
    }
}

/// Sharing entries and arrangement is transitive.
proof fn lemma_same_entries_shape_trans<V>(a: Tree<V>, b: Tree<V>, c: Tree<V>)
    requires
        a.same_entries_shape(b),
        b.same_entries_shape(c),
    ensures
        a.same_entries_shape(c),
    decreases a,
{
    match (a, b) {
        (Tree::Filled(x), Tree::Filled(y)) => {
            match c {
                Tree::Filled(z) => {
                    lemma_same_entries_shape_trans(x.left, y.left, z.left);
                    lemma_same_entries_shape_trans(x.right, y.right, z.right);
                },
                Tree::Empty => {},
            }
        },
        _ => {},
    }
}

/// Every tree has the same keys, weights and arrangement as itself.
proof fn lemma_same_structure_refl<V>(t: Tree<V>)
    ensures
        t.same_structure(t),
    decreases t,
{
    match t {
        Tree::Filled(node) => {
            lemma_same_structure_refl(node.left);
            lemma_same_structure_refl(node.right);
        },
        Tree::Empty => {},
    }
}

/// Exact weights everywhere are in particular exact below any depth.
proof fn lemma_weights_ok_below<V>(t: Tree<V>, d: int)
    requires
        t.weights_ok(),
    ensures
        t.weights_ok_below(d),
    decreases t,
{
    match t {
        Tree::Filled(node) => {
            if d >= 0 {
                lemma_weights_ok_below(node.left, d - 1);
                lemma_weights_ok_below(node.right, d - 1);
            }
        },
        Tree::Empty => {},
    }
}

impl<V> Tree<V> {
    /// The root node's key; the tree must be filled.
    pub closed spec fn spec_key(self) -> u64 {
        match self {
            Tree::Filled(node) => node.key,
            Tree::Empty => arbitrary(),
        }
    }

    /// The root node's value; the tree must be filled.
    pub closed spec fn spec_value(self) -> V {
        match self {
            Tree::Filled(node) => node.value,
            Tree::Empty => arbitrary(),
        }
    }

    /// The left subtree, `Empty` for an empty tree.
    pub closed spec fn spec_left(self) -> Tree<V> {
        match self {
            Tree::Filled(node) => node.left,
            Tree::Empty => Tree::Empty,
        }
    }

    /// The right subtree, `Empty` for an empty tree.
    pub closed spec fn spec_right(self) -> Tree<V> {
        match self {
            Tree::Filled(node) => node.right,
            Tree::Empty => Tree::Empty,
        }
    }

    /// A simple, but quick, calculation of `floor(log2(n))`.
    fn floor_log2(n: isize) -> (r: isize)
        requires
            n >= 0,
        ensures
            r as int == spec_log2(n as int),
            r >= 0,
    {
        proof {
            lemma_log2_nonneg(n as int);
        }
        if n != 0 {
            let mut m: isize = n;
            let mut c: isize = 0;
            while m != 0
                invariant
                    0 <= m <= n,
                    n >= 1,
                    m > 0 ==> spec_log2(n as int) == spec_log2(m as int) + c,
                    m == 0 ==> spec_log2(n as int) == c - 1,
                    c >= 0,
                decreases m,
            {
                proof {
                    lemma_log2_nonneg(m as int);
                    lemma_log2_nonneg(m as int / 2);
                    lemma_log2_lt(n as int);
                }
                m = m / 2;
                c = c + 1;
            }
            c - 1
        } else {
            0
        }
    }

    /// The height of the tree: the log2 of the weight of its root, 0 when
    /// empty.
    fn height(&self) -> (h: isize)
        requires
            self.weights_ok(),
        ensures
            h as int == self.spec_height(),
            h >= 0,
    {
        match self {
            Tree::Filled(node) => node.height(),
            Tree::Empty => 0,
        }
    }

    /// The stored weight of the tree's root node, 0 when empty.
    pub fn weight(&self) -> (w: isize)
        ensures
            w as int == self.spec_weight(),
    {
        match self {
            Tree::Filled(node) => node.weight,
            Tree::Empty => 0,
        }
    }

    /// A value indicating whether the tree is balanced, with negative values
    /// indicating the tree is heavy on the right, and positive values that it
    /// is heavy on the left.
    fn balance(&self) -> (b: isize)
        requires
            self.weights_ok(),
        ensures
            b as int == self.spec_balance(),
    {
        match self {
            Tree::Filled(node) => node.balance(),
            Tree::Empty => 0,
        }
    }

    /// A reference to the root node's key; the tree must be filled.
    pub fn key(&self) -> (k: &u64)
        requires
            self is Filled,
        ensures
            *k == self.spec_key(),
    {
        match self {
            Tree::Filled(node) => &node.key,
            Tree::Empty => vstd::pervasive::unreached(),
        }
    }

    /// A reference to the root node's value; the tree must be filled.
    pub fn value(&self) -> (v: &V)
        requires
            self is Filled,
        ensures
            *v == self.spec_value(),
    {
        match self {
            Tree::Filled(node) => &node.value,
            Tree::Empty => vstd::pervasive::unreached(),
        }
    }

    /// The left subtree; `Empty` when the tree itself is empty.
    pub fn left(&self) -> (t: &Tree<V>)
        ensures
            *t == self.spec_left(),
    {
        match self {
            Tree::Filled(node) => &node.left,
            Tree::Empty => &Tree::Empty,
        }
    }

    /// The right subtree; `Empty` when the tree itself is empty.
    pub fn right(&self) -> (t: &Tree<V>)
        ensures
            *t == self.spec_right(),
    {
        match self {
            Tree::Filled(node) => &node.right,
            Tree::Empty => &Tree::Empty,
        }
    }

    /// Performs a left-left rotation on the current `Tree`.  These methods
    /// are used to keep the tree in balance, so both left and right sub-trees
    /// grow or shrink at nearly the same rate.  The name of the method can be
    /// read as, "a left rotation is performed on the left branch."  The node
    /// within the current tree will be updated to hold the former left node.
    #[verifier::rlimit(50)]
    fn rotate_left_left(&mut self)
        requires
            old(self).well_formed(),
            *old(self) is Filled,
            old(self).spec_left() is Filled,
        ensures
            *final(self) is Filled,
            final(self).well_formed(),
            final(self).inorder() == old(self).inorder(),
            final(self).as_map() == old(self).as_map(),
            final(self).same_entries_shape(spec_rotate_ll(*old(self))),
            final(self).spec_key() == old(self).spec_left().spec_key(),
    {
        let ghost o = *old(self);
        let mut n = self.take();
        match n {
            Tree::Filled(mut nb) => {
                let ghost g_k = nb.key;
                let ghost g_v = nb.value;
                let ghost g_w0 = nb.weight;
                let ghost g_r = nb.right;
                let mut t = nb.left.take();
                match t {
                    Tree::Filled(mut tb) => {
                        let ghost g_lk = tb.key;
                        let ghost g_lv = tb.value;
                        let ghost g_wl = tb.weight;
                        let ghost g_ll = tb.left;
                        let ghost g_lr = tb.right;
                        nb.left = tb.right.take();
                        tb.right = Tree::Filled(nb);
                        *self = Tree::Filled(tb);
                        let ghost s_pre = *self;
                        proof {
                            assert(o == mk(g_k, g_v, g_w0, mk(g_lk, g_lv, g_wl, g_ll, g_lr), g_r));
                            assert(*self == mk(g_lk, g_lv, g_wl, g_ll, mk(g_k, g_v, g_w0, g_lr, g_r)));
                            lemma_rotate_ll(g_k, g_v, g_w0, g_lk, g_lv, g_wl, g_wl, g_w0, g_ll, g_lr, g_r);
                            reveal_with_fuel(Tree::same_entries_shape, 3);
                            lemma_same_entries_shape_refl(g_ll);
                            lemma_same_entries_shape_refl(g_lr);
                            lemma_same_entries_shape_refl(g_r);
                            assert(s_pre.same_entries_shape(spec_rotate_ll(o)));
                        }
                        let _ = self.update_weights(2);
                        proof {
                            lemma_same_entries_shape_trans(*self, s_pre, spec_rotate_ll(o));
                            assert(self.spec_key() == o.spec_left().spec_key());
                        }
                    },
                    Tree::Empty => {
                        proof {
                            assert(false);
                        }
                    },
                }
            },
            Tree::Empty => {
                proof {
                    assert(false);
                }
            },
        }
    }

    /// Performs a right-right rotation on the current `Tree`.  The `Tree`'s
    /// node will be updated to hold the former right node.
    fn rotate_right_right(&mut self)
        requires
            old(self).well_formed(),
            *old(self) is Filled,
            old(self).spec_right() is Filled,
        ensures
            *final(self) is Filled,
            final(self).well_formed(),
            final(self).inorder() == old(self).inorder(),
            final(self).as_map() == old(self).as_map(),
            final(self).same_entries_shape(spec_rotate_rr(*old(self))),
            final(self).spec_key() == old(self).spec_right().spec_key(),
    {
        let ghost o = *old(self);
        let mut n = self.take();
        match n {
            Tree::Filled(mut nb) => {
                let ghost g_k = nb.key;
                let ghost g_v = nb.value;
                let ghost g_w0 = nb.weight;
                let ghost g_l = nb.left;
                let mut t = nb.right.take();
                match t {
                    Tree::Filled(mut tb) => {
                        let ghost g_rk = tb.key;
                        let ghost g_rv = tb.value;
                        let ghost g_wr = tb.weight;
                        let ghost g_rl = tb.left;
                        let ghost g_rr = tb.right;
                        nb.right = tb.left.take();
                        tb.left = Tree::Filled(nb);
                        *self = Tree::Filled(tb);
                        let ghost s_pre = *self;
                        proof {
                            assert(o == mk(g_k, g_v, g_w0, g_l, mk(g_rk, g_rv, g_wr, g_rl, g_rr)));
                            assert(*self == mk(g_rk, g_rv, g_wr, mk(g_k, g_v, g_w0, g_l, g_rl), g_rr));
                            lemma_rotate_rr(g_k, g_v, g_w0, g_rk, g_rv, g_wr, g_wr, g_w0, g_l, g_rl, g_rr);
                            reveal_with_fuel(Tree::same_entries_shape, 3);
                            lemma_same_entries_shape_refl(g_l);
                            lemma_same_entries_shape_refl(g_rl);
                            lemma_same_entries_shape_refl(g_rr);
                            assert(s_pre.same_entries_shape(spec_rotate_rr(o)));
                        }
                        let _ = self.update_weights(2);
                        proof {
                            lemma_same_entries_shape_trans(*self, s_pre, spec_rotate_rr(o));
                            assert(self.spec_key() == o.spec_right().spec_key());
                        }
                    },
                    Tree::Empty => {
                        proof {
                            assert(false);
                        }
                    },
                }
            },
            Tree::Empty => {
                proof {
                    assert(false);
                }
            },
        }
    }

    /// Performs a left-right rotation on the current `Tree`: the left
    /// child's right node becomes the new root of this subtree.
    fn rotate_left_right(&mut self)
        requires
            old(self).well_formed(),
            *old(self) is Filled,
            old(self).spec_left() is Filled,
            old(self).spec_left().spec_right() is Filled,
        ensures
            *final(self) is Filled,
            final(self).well_formed(),
            final(self).inorder() == old(self).inorder(),
            final(self).as_map() == old(self).as_map(),
            final(self).same_entries_shape(spec_rotate_lr(*old(self))),
            final(self).spec_key() == old(self).spec_left().spec_right().spec_key(),
    {
        let ghost o = *old(self);
        let mut n = self.take();
        match n {
            Tree::Filled(mut nb) => {
                let ghost g_k = nb.key;
                let ghost g_v = nb.value;
                let ghost g_w0 = nb.weight;
                let ghost g_r = nb.right;
                let mut t1 = nb.left.take();
                match t1 {
                    Tree::Filled(mut t1b) => {
                        let ghost g_lk = t1b.key;
                        let ghost g_lv = t1b.value;
                        let ghost g_wl = t1b.weight;
                        let ghost g_ll = t1b.left;
                        let mut t2 = t1b.right.take();
                        match t2 {
                            Tree::Filled(mut t2b) => {
                                let ghost g_mk = t2b.key;
                                let ghost g_mv = t2b.value;
                                let ghost g_wm = t2b.weight;
                                let ghost g_ml = t2b.left;
                                let ghost g_mr = t2b.right;
                                nb.left = t2b.right.take();
                                t1b.right = t2b.left.take();
                                t2b.right = Tree::Filled(nb);
                                t2b.left = Tree::Filled(t1b);
                                *self = Tree::Filled(t2b);
                                let ghost s_pre = *self;
                                proof {
                                    assert(o == mk(g_k, g_v, g_w0,
                                        mk(g_lk, g_lv, g_wl, g_ll, mk(g_mk, g_mv, g_wm, g_ml, g_mr)), g_r));
                                    assert(*self == mk(g_mk, g_mv, g_wm,
                                        mk(g_lk, g_lv, g_wl, g_ll, g_ml), mk(g_k, g_v, g_w0, g_mr, g_r)));
                                    lemma_rotate_lr(g_k, g_v, g_w0, g_lk, g_lv, g_wl, g_mk, g_mv,
                                        g_wm, g_wm, g_wl, g_w0, g_ll, g_ml, g_mr, g_r);
                                    lemma_rotate_lr_map(g_k, g_v, g_w0, g_lk, g_lv, g_wl, g_mk, g_mv,
                                        g_wm, g_wm, g_wl, g_w0, g_ll, g_ml, g_mr, g_r);
                                    reveal_with_fuel(Tree::same_entries_shape, 3);
                                    lemma_same_entries_shape_refl(g_ll);
                                    lemma_same_entries_shape_refl(g_ml);
                                    lemma_same_entries_shape_refl(g_mr);
                                    lemma_same_entries_shape_refl(g_r);
                                    assert(s_pre.same_entries_shape(spec_rotate_lr(o)));
                                }
                                let _ = self.update_weights(2);
                                proof {
                                    lemma_same_entries_shape_trans(*self, s_pre, spec_rotate_lr(o));
                                    assert(self.spec_key() == o.spec_left().spec_right().spec_key());
                                }
                            },
                            Tree::Empty => {
                                proof {
                                    assert(false);
                                }
                            },
                        }
                    },
                    Tree::Empty => {
                        proof {
                            assert(false);
                        }
                    },
                }
            },
            Tree::Empty => {
                proof {
                    assert(false);
                }
            },
        }
    }

    /// Performs a right-left rotation on the current `Tree`: the right
    /// child's left node becomes the new root of this subtree.
    fn rotate_right_left(&mut self)
        requires
            old(self).well_formed(),
            *old(self) is Filled,
            old(self).spec_right() is Filled,
            old(self).spec_right().spec_left() is Filled,
        ensures
            *final(self) is Filled,
            final(self).well_formed(),
            final(self).inorder() == old(self).inorder(),
            final(self).as_map() == old(self).as_map(),
            final(self).same_entries_shape(spec_rotate_rl(*old(self))),
            final(self).spec_key() == old(self).spec_right().spec_left().spec_key(),
    {
        let ghost o = *old(self);
        let mut n = self.take();
        match n {
            Tree::Filled(mut nb) => {
                let ghost g_k = nb.key;
                let ghost g_v = nb.value;
                let ghost g_w0 = nb.weight;
                let ghost g_l = nb.left;
                let mut t1 = nb.right.take();
                match t1 {
                    Tree::Filled(mut t1b) => {
                        let ghost g_rk = t1b.key;
                        let ghost g_rv = t1b.value;
                        let ghost g_wr = t1b.weight;
                        let ghost g_rr = t1b.right;
                        let mut t2 = t1b.left.take();
                        match t2 {
                            Tree::Filled(mut t2b) => {
                                let ghost g_mk = t2b.key;
                                let ghost g_mv = t2b.value;
                                let ghost g_wm = t2b.weight;
                                let ghost g_ml = t2b.left;
                                let ghost g_mr = t2b.right;
                                nb.right = t2b.left.take();
                                t1b.left = t2b.right.take();
                                t2b.left = Tree::Filled(nb);
                                t2b.right = Tree::Filled(t1b);
                                *self = Tree::Filled(t2b);
                                let ghost s_pre = *self;
                                proof {
                                    assert(o == mk(g_k, g_v, g_w0, g_l,
                                        mk(g_rk, g_rv, g_wr, mk(g_mk, g_mv, g_wm, g_ml, g_mr), g_rr)));
                                    assert(*self == mk(g_mk, g_mv, g_wm,
                                        mk(g_k, g_v, g_w0, g_l, g_ml), mk(g_rk, g_rv, g_wr, g_mr, g_rr)));
                                    lemma_rotate_rl(g_k, g_v, g_w0, g_rk, g_rv, g_wr, g_mk, g_mv,
                                        g_wm, g_wm, g_w0, g_wr, g_l, g_ml, g_mr, g_rr);
                                    lemma_rotate_rl_map(g_k, g_v, g_w0, g_rk, g_rv, g_wr, g_mk, g_mv,
                                        g_wm, g_wm, g_w0, g_wr, g_l, g_ml, g_mr, g_rr);
                                    reveal_with_fuel(Tree::same_entries_shape, 3);
                                    lemma_same_entries_shape_refl(g_l);
                                    lemma_same_entries_shape_refl(g_ml);
                                    lemma_same_entries_shape_refl(g_mr);
                                    lemma_same_entries_shape_refl(g_rr);
                                    assert(s_pre.same_entries_shape(spec_rotate_rl(o)));
                                }
                                let _ = self.update_weights(2);
                                proof {
                                    lemma_same_entries_shape_trans(*self, s_pre, spec_rotate_rl(o));
                                    assert(self.spec_key() == o.spec_right().spec_left().spec_key());
                                }
                            },
                            Tree::Empty => {
                                proof {
                                    assert(false);
                                }
                            },
                        }
                    },
                    Tree::Empty => {
                        proof {
                            assert(false);
                        }
                    },
                }
            },
            Tree::Empty => {
                proof {
                    assert(false);
                }
            },
        }
    }

    /// Updates the weights of a sub-tree by descending `depth` levels to find
    /// valid values, which are then used to repair the nodes in the higher
    /// ranks.  This is invoked after rotations, which disturb the weights of
    /// the re-parented nodes only.
    fn update_weights(&mut self, depth: isize) -> (w: isize)
        requires
            *old(self) is Filled,
            old(self).weights_ok_below(depth as int),
            old(self).inorder().len() <= isize::MAX,
        ensures
            *final(self) is Filled,
            final(self).weights_ok(),
            final(self).same_entries_shape(*old(self)),
            final(self).inorder() == old(self).inorder(),
            final(self).as_map() == old(self).as_map(),
            final(self).ordered() == old(self).ordered(),
            w as int == final(self).spec_weight(),
            w as int == old(self).inorder().len(),
        decreases *old(self),
    {
        if depth >= 0 {
            match self {
                Tree::Filled(node) => {
                    let ghost g_l0 = node.left;
                    let ghost g_r0 = node.right;
                    let mut wt_l: isize = 0;
                    let mut wt_r: isize = 0;
                    if node.left.is_filled() {
                        wt_l = node.left.update_weights(depth - 1);
                    }
                    if node.right.is_filled() {
                        wt_r = node.right.update_weights(depth - 1);
                    }
                    node.weight = 1 + wt_l + wt_r;
                    proof {
                        assert(node.left.weights_ok());
                        assert(node.right.weights_ok());
                        assert(wt_l as int == node.left.inorder().len());
                        assert(wt_r as int == node.right.inorder().len());
                        lemma_same_entries_shape_refl(g_l0);
                        lemma_same_entries_shape_refl(g_r0);
                        assert(node.left.same_entries_shape(g_l0));
                        assert(node.right.same_entries_shape(g_r0));
                    }
                },
                Tree::Empty => {
                    proof {
                        assert(false);
                    }
                },
            }
        } else {
            proof {
                lemma_same_entries_shape_refl(*self);
            }
        }
        match self {
            Tree::Filled(node) => node.weight,
            Tree::Empty => vstd::pervasive::unreached(),
        }
    }
}

} // verus!
