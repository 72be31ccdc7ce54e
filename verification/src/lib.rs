//! An AVL-style tree that provides a dictionary-like interface.  Keys are
//! used as the data for comparison when inserting into the tree.  The keys
//! can be associated with values, which can be retrieved using the keys with
//! `O(log n)` time-complexity.  The tree also keeps a subtree size ("weight")
//! in every node, which supports positional (rank) queries: the k-th smallest
//! key can be found in `O(log n)` as well.
//!
//! Every operation carries a contract relating it to a mathematical model of
//! the tree: a `Map<u64, V>` view for key-based operations and an in-order
//! sequence for rank-based ones.  The proved invariants are the
//! binary-search-tree order and the exactness of every stored weight.
//!
//! Balance is judged by an approximate height, `floor(log2(weight))`, rather
//! than by true node depth: the weight is needed for rank queries anyway, so
//! no extra field is stored.  The rotations keep the tree shallow, but under
//! this measure the strict AVL bound is not an invariant; `is_balanced`
//! reports whether a given tree currently meets it.

mod tree;

pub use tree::Node;
pub use tree::Tree;
