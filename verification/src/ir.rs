//! The structure-of-arrays forest: the single representation written by
//! training and read by every later consumer.
//!
//! Per-node floating-point payloads (thresholds, weighted counts, impurities,
//! leaf outputs) are carried as IEEE-754 single-precision bit patterns
//! (`f32::to_bits`); the forest itself only moves them around.
use vstd::prelude::*;
use crate::config::{Criterion, Task};
use crate::error::{SylvaError, decimal, decimal_text, text};

verus! {

/// Sentinel `feature_id` marking a leaf node.
pub const LEAF_FEATURE: i32 = -1;
/// Sentinel child id marking "no child" (a leaf's children).
pub const NO_CHILD: i32 = -1;

/// Structure-of-arrays forest. Each per-node array is indexed by a global node
/// id; `tree_offsets` carves the node arrays into per-tree ranges.
#[derive(Debug, Clone, PartialEq)]
pub struct ForestIR {
    /// Split feature, or [`LEAF_FEATURE`] for leaves.
    pub feature_id: Vec<i32>,
    /// Split threshold (f32 bits): go left when `x[feature] <= threshold`.
    pub threshold: Vec<u32>,
    /// Left child id, or [`NO_CHILD`] for leaves.
    pub left_child: Vec<i32>,
    /// Right child id, or [`NO_CHILD`] for leaves.
    pub right_child: Vec<i32>,
    /// Missing-value routing target: one of the two children.
    pub default_child: Vec<i32>,
    /// Leaf flag.
    pub is_leaf: Vec<bool>,
    /// Unweighted samples reaching the node.
    pub node_sample_count: Vec<u64>,
    /// Weighted samples reaching the node (f32 bits).
    pub node_weighted_count: Vec<u32>,
    /// Node impurity (f32 bits).
    pub impurity: Vec<u32>,
    /// Regressor leaf outputs (f32 bits), indexed by `leaf_offset`.
    pub leaf_value: Vec<u32>,
    /// Classifier leaf probabilities (f32 bits), stride `n_classes`.
    pub leaf_proba: Vec<u32>,
    /// Per node: index into the leaf payload block, or `-1` for internal nodes.
    pub leaf_offset: Vec<i32>,
    /// Node-range boundaries, length `n_trees + 1`, non-decreasing,
    /// ending at the node count.
    pub tree_offsets: Vec<usize>,
    /// Per-tree root node id.
    pub tree_root: Vec<i32>,
    pub n_trees: usize,
    pub n_features: usize,
    pub task: Task,
    pub criterion: Criterion,
    pub seed: u64,
}

impl ForestIR {
    /// Number of nodes, the length of `feature_id`.
    pub open spec fn nodes(&self) -> nat {
        self.feature_id@.len()
    }

    /// Every per-node array has one entry per node.
    pub open spec fn lengths_agree(&self) -> bool {
        let n = self.nodes();
        &&& self.threshold@.len() == n
        &&& self.left_child@.len() == n
        &&& self.right_child@.len() == n
        &&& self.default_child@.len() == n
        &&& self.is_leaf@.len() == n
        &&& self.node_sample_count@.len() == n
        &&& self.node_weighted_count@.len() == n
        &&& self.impurity@.len() == n
        &&& self.leaf_offset@.len() == n
    }

    /// `tree_offsets` has `n_trees + 1` entries, starts at 0, ends at the node
    /// count and never decreases.
    pub open spec fn offsets_ok(&self) -> bool {
        let t = self.tree_offsets@;
        &&& t.len() == self.n_trees + 1
        &&& t[0] == 0
        &&& t[t.len() - 1] == self.nodes()
        &&& forall|i: int| 0 <= i < t.len() - 1 ==> #[trigger] t[i] <= t[i + 1]
    }

    /// Node `i` is well linked: a leaf has no children; an internal node has
    /// two in-range children and routes missing values to one of them.
    pub open spec fn node_ok(&self, i: int) -> bool {
        let n = self.nodes();
        let l = self.left_child@[i];
        let r = self.right_child@[i];
        let d = self.default_child@[i];
        if self.is_leaf@[i] {
            l == NO_CHILD && r == NO_CHILD
        } else {
            &&& 0 <= l < n
            &&& 0 <= r < n
            &&& (d == l || d == r)
        }
    }

    /// The structural invariants every reader of a forest relies on.
    pub open spec fn structure_ok(&self) -> bool {
        &&& self.lengths_agree()
        &&& self.offsets_ok()
        &&& forall|i: int| 0 <= i < self.nodes() ==> #[trigger] self.node_ok(i)
    }

    /// The message for a per-node array of length `len` in a forest of `n` nodes.
    pub open spec fn length_message(name: Seq<char>, len: nat, n: nat) -> Seq<char> {
        "array "@ + name + " length "@ + decimal(len) + " != node_count "@ + decimal(n)
    }

    /// The first per-node array (in field order after `feature_id`) whose
    /// length is not the node count, as its message.
    pub open spec fn length_fault(&self) -> Option<Seq<char>> {
        let n = self.nodes();
        if self.threshold@.len() != n {
            Some(Self::length_message("threshold"@, self.threshold@.len(), n))
        } else if self.left_child@.len() != n {
            Some(Self::length_message("left_child"@, self.left_child@.len(), n))
        } else if self.right_child@.len() != n {
            Some(Self::length_message("right_child"@, self.right_child@.len(), n))
        } else if self.default_child@.len() != n {
            Some(Self::length_message("default_child"@, self.default_child@.len(), n))
        } else if self.is_leaf@.len() != n {
            Some(Self::length_message("is_leaf"@, self.is_leaf@.len(), n))
        } else if self.node_sample_count@.len() != n {
            Some(Self::length_message("node_sample_count"@, self.node_sample_count@.len(), n))
        } else if self.node_weighted_count@.len() != n {
            Some(Self::length_message("node_weighted_count"@, self.node_weighted_count@.len(), n))
        } else if self.impurity@.len() != n {
            Some(Self::length_message("impurity"@, self.impurity@.len(), n))
        } else if self.leaf_offset@.len() != n {
            Some(Self::length_message("leaf_offset"@, self.leaf_offset@.len(), n))
        } else {
            None
        }
    }

    /// What is wrong with node `i`, if anything: a leaf with a child, an
    /// internal node with a child out of range, or a default child that is
    /// neither child.
    pub open spec fn node_fault(&self, i: int) -> Option<Seq<char>> {
        let n = self.nodes();
        let l = self.left_child@[i];
        let r = self.right_child@[i];
        let d = self.default_child@[i];
        if self.is_leaf@[i] {
            if l != NO_CHILD || r != NO_CHILD {
                Some("leaf node "@ + decimal(i as nat) + " has children"@)
            } else {
                None
            }
        } else if l < 0 || r < 0 || l >= n || r >= n {
            Some("internal node "@ + decimal(i as nat) + " has out-of-range children"@)
        } else if d != l && d != r {
            Some("internal node "@ + decimal(i as nat) + " default_child must be one of its children"@)
        } else {
            None
        }
    }

    /// The fault of the first broken node at or after `i`.
    pub open spec fn node_fault_from(&self, i: int) -> Option<Seq<char>>
        decreases self.nodes() - i,
    {
        if i < 0 || i >= self.nodes() {
            None
        } else {
            match self.node_fault(i) {
                Some(m) => Some(m),
                None => self.node_fault_from(i + 1),
            }
        }
    }

    /// The first broken structural rule, as its message: array lengths,
    /// then the shape of `tree_offsets`, then the nodes in order.
    pub open spec fn structure_fault(&self) -> Option<Seq<char>> {
        let t = self.tree_offsets@;
        if self.length_fault() is Some {
            self.length_fault()
        } else if t.len() != self.n_trees + 1 {
            Some("tree_offsets length must be n_trees + 1"@)
        } else if t[0] != 0 || t[t.len() - 1] != self.nodes() {
            Some("tree_offsets must start at 0 and end at node_count"@)
        } else if !(forall|w: int| 0 <= w < t.len() - 1 ==> #[trigger] t[w] <= t[w + 1]) {
            Some("tree_offsets must be non-decreasing"@)
        } else {
            self.node_fault_from(0)
        }
    }

    /// Total node count across all trees.
    pub fn node_count(&self) -> (r: usize)
        ensures
            r == self.nodes(),
    {
        self.feature_id.len()
    }

    /// Number of classes (`1` for regression).
    pub fn n_classes(&self) -> (r: usize)
        ensures
            r == self.task.classes(),
    {
        match self.task {
            Task::Classification { n_classes } => n_classes,
            Task::Regression => 1,
        }
    }

    /// Global node-id range `tree_offsets[t] .. tree_offsets[t + 1]` of tree `t`.
    pub fn tree_node_range(&self, t: usize) -> (r: std::ops::Range<usize>)
        requires
            t + 1 < self.tree_offsets@.len(),
        ensures
            r.start == self.tree_offsets@[t as int],
            r.end == self.tree_offsets@[t + 1],
    {
        let _len = self.tree_offsets.len();
        std::ops::Range { start: self.tree_offsets[t], end: self.tree_offsets[t + 1] }
    }

    /// The message for array `name` of length `len` in a forest of `n` nodes.
    fn length_error(name: &str, len: usize, n: usize) -> (e: SylvaError)
        ensures
            e matches SylvaError::InvalidIr(m) && m@ == Self::length_message(name@, len as nat, n as nat),
    {
        let m = text("array ").concat(name).concat(" length ").concat(decimal_text(len).as_str()).concat(
            " != node_count ",
        ).concat(decimal_text(n).as_str());
        SylvaError::InvalidIr(m)
    }

    /// The message for node `i` with the given fault text after its index.
    fn node_error(prefix: &str, i: usize, rest: &str) -> (e: SylvaError)
        ensures
            e matches SylvaError::InvalidIr(m) && m@ == prefix@ + decimal(i as nat) + rest@,
    {
        SylvaError::InvalidIr(text(prefix).concat(decimal_text(i).as_str()).concat(rest))
    }

    /// Check the structural invariants; `Ok` exactly when they hold, an
    /// `InvalidIr` error with the message of the first broken one otherwise.
    pub fn validate_structure(&self) -> (r: Result<(), SylvaError>)
        ensures
            r is Ok <==> self.structure_ok(),
            r is Ok <==> self.structure_fault() is None,
            r matches Err(e) ==> (e matches SylvaError::InvalidIr(m) && self.structure_fault() == Some(m@)),
    {
        proof {
            reveal_strlit("threshold");
            reveal_strlit("left_child");
            reveal_strlit("right_child");
            reveal_strlit("default_child");
            reveal_strlit("is_leaf");
            reveal_strlit("node_sample_count");
            reveal_strlit("node_weighted_count");
            reveal_strlit("impurity");
            reveal_strlit("leaf_offset");
            reveal_strlit("leaf node ");
            reveal_strlit(" has children");
            reveal_strlit("internal node ");
            reveal_strlit(" has out-of-range children");
            reveal_strlit(" default_child must be one of its children");
        }
        let n = self.feature_id.len();
        if self.threshold.len() != n {
            return Err(Self::length_error("threshold", self.threshold.len(), n));
        }
        if self.left_child.len() != n {
            return Err(Self::length_error("left_child", self.left_child.len(), n));
        }
        if self.right_child.len() != n {
            return Err(Self::length_error("right_child", self.right_child.len(), n));
        }
        if self.default_child.len() != n {
            return Err(Self::length_error("default_child", self.default_child.len(), n));
        }
        if self.is_leaf.len() != n {
            return Err(Self::length_error("is_leaf", self.is_leaf.len(), n));
        }
        if self.node_sample_count.len() != n {
            return Err(Self::length_error("node_sample_count", self.node_sample_count.len(), n));
        }
        if self.node_weighted_count.len() != n {
            return Err(Self::length_error("node_weighted_count", self.node_weighted_count.len(), n));
        }
        if self.impurity.len() != n {
            return Err(Self::length_error("impurity", self.impurity.len(), n));
        }
        if self.leaf_offset.len() != n {
            return Err(Self::length_error("leaf_offset", self.leaf_offset.len(), n));
        }
        assert(self.length_fault() is None);
        let t_len = self.tree_offsets.len();
        if t_len == 0 || t_len - 1 != self.n_trees {
            return Err(SylvaError::InvalidIr(text("tree_offsets length must be n_trees + 1")));
        }
        if self.tree_offsets[0] != 0 || self.tree_offsets[t_len - 1] != n {
            return Err(SylvaError::InvalidIr(text("tree_offsets must start at 0 and end at node_count")));
        }
        let mut w: usize = 0;
        while w + 1 < t_len
            invariant
                t_len == self.tree_offsets@.len(),
                t_len >= 1,
                w + 1 <= t_len,
                n == self.nodes(),
                self.length_fault() is None,
                t_len == self.n_trees + 1,
                self.tree_offsets@[0] == 0,
                self.tree_offsets@[t_len - 1] == n,
                forall|i: int| 0 <= i < w ==> #[trigger] self.tree_offsets@[i] <= self.tree_offsets@[i + 1],
            decreases t_len - w,
        {
            if self.tree_offsets[w + 1] < self.tree_offsets[w] {
                assert(!(self.tree_offsets@[w as int] <= self.tree_offsets@[w as int + 1]));
                assert(!self.offsets_ok());
                return Err(SylvaError::InvalidIr(text("tree_offsets must be non-decreasing")));
            }
            w = w + 1;
        }
        let mut i: usize = 0;
        while i < n
            invariant
                n == self.nodes(),
                self.lengths_agree(),
                self.length_fault() is None,
                self.offsets_ok(),
                i <= n,
                forall|j: int| 0 <= j < i ==> #[trigger] self.node_ok(j),
                self.node_fault_from(0) == self.node_fault_from(i as int),
            decreases n - i,
        {
            if self.is_leaf[i] {
                if self.left_child[i] != NO_CHILD || self.right_child[i] != NO_CHILD {
                    assert(!self.node_ok(i as int));
                    assert(self.node_fault_from(i as int) == self.node_fault(i as int));
                    return Err(Self::node_error("leaf node ", i, " has children"));
                }
            } else {
                let l = self.left_child[i];
                let r = self.right_child[i];
                if l < 0 || r < 0 || l as usize >= n || r as usize >= n {
                    assert(!self.node_ok(i as int));
                    assert(self.node_fault_from(i as int) == self.node_fault(i as int));
                    return Err(Self::node_error("internal node ", i, " has out-of-range children"));
                }
                let d = self.default_child[i];
                if d != l && d != r {
                    assert(!self.node_ok(i as int));
                    assert(self.node_fault_from(i as int) == self.node_fault(i as int));
                    return Err(Self::node_error("internal node ", i, " default_child must be one of its children"));
                }
            }
            assert(self.node_fault(i as int) is None);
            i = i + 1;
        }
        assert(self.node_fault_from(n as int) is None);
        Ok(())
    }
}

} // verus!
