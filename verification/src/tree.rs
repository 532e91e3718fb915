//! Growing one tree. The splitting work (impurities, thresholds, which rows
//! go left) depends on floating-point feature values and is done by the
//! caller; this module holds the tree under construction and every
//! structural decision: node numbering in pre-order, child links, the
//! missing-value direction, sample counts, leaf numbering and payload layout.
//! For a classifier it also holds each row's class, so it decides itself
//! whether a node is pure and computes each leaf's class shares.
//!
//! The caller drives a [`TreeBuilder`]: it looks at the [`TreeBuilder::current`]
//! node, computes what it needs, and answers with [`TreeBuilder::make_leaf`]
//! or [`TreeBuilder::make_split`], until no node is pending.
use vstd::prelude::*;
use crate::config::Task;
use crate::float::{count_to_f32_bits, f32_bits_of, round_f32};
use crate::ir::{LEAF_FEATURE, NO_CHILD};
use crate::partition::{lemma_select_members, partition_rows, select, RowPartition};
use crate::split::{class_count, class_counts, classes_pure, classes_present, leaf_probabilities, proba_bits, same_label};

verus! {

/// Largest node count a tree (and a forest) can hold: node ids are `i32`.
pub const MAX_NODES: usize = 0x7FFF_FFFF;

/// Number of `true` entries among the first `i` of `s`.
pub open spec fn leaf_count(s: Seq<bool>, i: int) -> nat
    decreases i,
{
    if i <= 0 {
        0
    } else {
        leaf_count(s, i - 1) + if s[i - 1] { 1nat } else { 0nat }
    }
}

/// `leaf_count` of a prefix does not see what is appended after it.
pub proof fn lemma_leaf_count_push(s: Seq<bool>, b: bool, i: int)
    requires
        0 <= i <= s.len(),
    ensures
        leaf_count(s.push(b), i) == leaf_count(s, i),
    decreases i,
{
    if i > 0 {
        lemma_leaf_count_push(s, b, i - 1);
    }
}

/// `leaf_count` grows by at most one per entry.
pub proof fn lemma_leaf_count_bound(s: Seq<bool>, i: int)
    requires
        0 <= i <= s.len(),
    ensures
        leaf_count(s, i) <= i,
    decreases i,
{
    if i > 0 {
        lemma_leaf_count_bound(s, i - 1);
    }
}

/// `leaf_count` never decreases along the sequence.
pub proof fn lemma_leaf_count_mono(s: Seq<bool>, i: int, j: int)
    requires
        0 <= i <= j <= s.len(),
    ensures
        leaf_count(s, i) <= leaf_count(s, j),
    decreases j - i,
{
    if i < j {
        lemma_leaf_count_mono(s, i, j - 1);
    }
}

/// One tree's node arrays, before they are merged into a forest. Node ids are
/// local to the tree; leaf payload slots are numbered from 0.
#[derive(Debug, Clone)]
pub struct TreeFragment {
    pub feature_id: Vec<i32>,
    pub threshold: Vec<u32>,
    pub left_child: Vec<i32>,
    pub right_child: Vec<i32>,
    pub default_child: Vec<i32>,
    pub is_leaf: Vec<bool>,
    pub node_sample_count: Vec<u64>,
    pub node_weighted_count: Vec<u32>,
    pub impurity: Vec<u32>,
    pub leaf_value: Vec<u32>,
    pub leaf_proba: Vec<u32>,
    pub leaf_offset: Vec<i32>,
    /// Number of leaf payload slots written.
    pub n_leaf_slots: usize,
}

impl TreeFragment {
    pub open spec fn nodes(&self) -> nat {
        self.feature_id@.len()
    }

    pub open spec fn lengths_agree(&self) -> bool {
        let n = self.nodes();
        &&& self.threshold@.len() == n
        &&& self.left_child@.len() == n
        &&& self.right_child@.len() == n
        &&& self.default_child@.len() == n
        &&& self.is_leaf@.len() == n
        &&& self.node_sample_count@.len() == n
        &&& self.node_weighted_count@.len() == n
        &&& self.impurity@.len() == n
        &&& self.leaf_offset@.len() == n
    }

    /// One payload slot per leaf: a value per leaf, and for a classifier
    /// `n_classes` probabilities per leaf.
    pub open spec fn payload_ok(&self, task: Task) -> bool {
        &&& self.n_leaf_slots == leaf_count(self.is_leaf@, self.nodes() as int)
        &&& self.leaf_value@.len() == self.n_leaf_slots
        &&& self.leaf_proba@.len() == match task {
            Task::Classification { n_classes } => self.n_leaf_slots * n_classes,
            Task::Regression => 0,
        }
    }

    /// Node `i` is a leaf with sentinel feature and children, numbered by the
    /// leaves before it.
    pub open spec fn leaf_ok(&self, i: int) -> bool {
        &&& self.feature_id@[i] == LEAF_FEATURE
        &&& self.left_child@[i] == NO_CHILD
        &&& self.right_child@[i] == NO_CHILD
        &&& self.default_child@[i] == NO_CHILD
        &&& self.leaf_offset@[i] == leaf_count(self.is_leaf@, i)
    }

    /// Node `i` of a finished tree: it holds at least one sample and its
    /// weighted count is its sample count as an `f32`; a leaf is well formed;
    /// an internal node splits on a feature, has two later children whose
    /// sample counts add up to its own, and sends missing values to the child
    /// with more samples (the left one on a tie).
    pub open spec fn node_grown(&self, i: int) -> bool {
        let n = self.nodes();
        let l = self.left_child@[i];
        let r = self.right_child@[i];
        let s = self.node_sample_count@;
        &&& s[i] >= 1
        &&& self.node_weighted_count@[i] == f32_bits_of(round_f32(s[i] as nat))
        &&& if self.is_leaf@[i] {
            self.leaf_ok(i)
        } else {
            &&& self.feature_id@[i] >= 0
            &&& self.leaf_offset@[i] == -1
            &&& i < l < n
            &&& i < r < n
            &&& s[i] == s[l as int] + s[r as int]
            &&& self.default_child@[i] == if s[l as int] >= s[r as int] { l } else { r }
        }
    }

    /// A finished tree.
    pub open spec fn grown(&self, task: Task) -> bool {
        &&& 1 <= self.nodes() <= MAX_NODES
        &&& self.lengths_agree()
        &&& self.payload_ok(task)
        &&& forall|i: int| 0 <= i < self.nodes() ==> #[trigger] self.node_grown(i)
    }

    /// A tree with no node and no payload yet.
    fn new() -> (f: TreeFragment)
        ensures
            f.nodes() == 0,
            f.lengths_agree(),
            f.n_leaf_slots == 0,
            f.leaf_value@.len() == 0,
            f.leaf_proba@.len() == 0,
    {
        TreeFragment {
            feature_id: Vec::new(),
            threshold: Vec::new(),
            left_child: Vec::new(),
            right_child: Vec::new(),
            default_child: Vec::new(),
            is_leaf: Vec::new(),
            node_sample_count: Vec::new(),
            node_weighted_count: Vec::new(),
            impurity: Vec::new(),
            leaf_value: Vec::new(),
            leaf_proba: Vec::new(),
            leaf_offset: Vec::new(),
            n_leaf_slots: 0,
        }
    }

    /// `d` gives each node its depth: the root at 0, each child one below
    /// its parent; no node lies below the depth limit, and only nodes above
    /// it are split.
    pub open spec fn depths_ok(&self, d: Seq<nat>, max_depth: Option<usize>) -> bool {
        let lim = depth_limit(max_depth);
        &&& d.len() == self.nodes()
        &&& self.nodes() >= 1 ==> d[0] == 0
        &&& forall|i: int|
            0 <= i < self.nodes() ==> #[trigger] d[i] <= lim && (!self.is_leaf@[i] ==> d[i] < lim
                && d[self.left_child@[i] as int] == d[i] + 1 && d[self.right_child@[i] as int] == d[i] + 1)
    }

    /// `links` gives each node the slot it hangs from: node 0 is the root,
    /// every other node is the left or right child of an earlier internal
    /// node whose child id names it, and each internal node's children name
    /// it back. So the nodes form one tree, each node below the root having
    /// exactly one parent.
    pub open spec fn links_ok(&self, links: Seq<Link>) -> bool {
        let n = self.nodes();
        &&& links.len() == n
        &&& n >= 1 ==> links[0] == Link::Root
        &&& forall|i: int|
            0 <= i < n ==> match #[trigger] links[i] {
                Link::Root => i == 0,
                Link::Left(p) => p < i && self.left_child@[p as int] == i,
                Link::Right(p) => p < i && self.right_child@[p as int] == i,
            }
        &&& forall|i: int|
            0 <= i < n && !self.is_leaf@[i] ==> links[self.left_child@[i] as int] == Link::Left(i as usize)
                && links[self.right_child@[i] as int] == Link::Right(i as usize)
    }

    /// Every internal node splits on one of the `n_features` features.
    pub open spec fn features_below(&self, n_features: usize) -> bool {
        forall|i: int|
            0 <= i < self.nodes() && !#[trigger] self.is_leaf@[i] ==> 0 <= self.feature_id@[i] < n_features
    }

    /// Nodes are numbered in pre-order: an internal node's left child is the
    /// node right after it.
    pub open spec fn preorder(&self) -> bool {
        forall|i: int| 0 <= i < self.nodes() && !#[trigger] self.is_leaf@[i] ==> self.left_child@[i] == i + 1
    }

    /// Node sizes respect the stopping rules: every internal node holds at
    /// least `min_samples_split` rows, and every node below the root at least
    /// `min_samples_leaf` rows (and at least one).
    pub open spec fn sizes_ok(&self, min_samples_split: usize, min_samples_leaf: usize) -> bool {
        forall|i: int|
            0 <= i < self.nodes() ==> {
                &&& (!#[trigger] self.is_leaf@[i] ==> self.node_sample_count@[i] >= min_samples_split)
                &&& (i >= 1 ==> self.node_sample_count@[i] >= min_leaf_rows(min_samples_leaf))
            }
    }

    /// The nodes form one tree: some assignment of parent slots satisfies
    /// [`TreeFragment::links_ok`].
    pub open spec fn one_tree(&self) -> bool {
        exists|links: Seq<Link>| #[trigger] self.links_ok(links)
    }

    /// Total node count of the fragment.
    pub fn node_count(&self) -> (r: usize)
        ensures
            r == self.nodes(),
    {
        self.feature_id.len()
    }
}

/// Where a pending node hangs: the root, or the left or right child of an
/// already numbered internal node.
#[derive(Debug, Clone, Copy, PartialEq, Eq, Structural)]
pub enum Link {
    Root,
    Left(usize),
    Right(usize),
}

/// A node waiting to be decided: its rows, its depth, where it hangs, and
/// whether its parent sends missing values to it.
#[derive(Debug, Clone)]
pub struct NodeJob {
    pub rows: Vec<usize>,
    pub depth: usize,
    pub link: Link,
    pub takes_default: bool,
}

/// What a leaf predicts: a regression value (`f32` bits, computed by the
/// caller), or, for a classifier, the share of the node's rows in each class,
/// which the builder computes from the labels it holds.
#[derive(Debug, Clone, Copy, PartialEq, Eq, Structural)]
pub enum LeafPayload {
    Value(u32),
    ClassShares,
}

/// Why the builder refused a step. Each names a misuse by the caller or a
/// machine limit; the builder is left unchanged.
#[derive(Debug, Clone, Copy, PartialEq, Eq, Structural)]
pub enum BuildError {
    /// No node is pending.
    NoPendingNode,
    /// The payload does not fit the task (wrong kind or class count).
    PayloadMismatch,
    /// The flags do not have one entry per row of the node.
    FlagsMismatch,
    /// The node is at the depth limit or has too few rows to be split.
    MustBeLeaf,
    /// A child would get fewer rows than allowed (or none).
    ChildTooSmall,
    /// The split feature is not one of the forest's features.
    FeatureOutOfRange,
    /// The tree would exceed [`MAX_NODES`] nodes.
    TooManyNodes,
    /// Some node is still pending.
    Unfinished,
}

/// Whether there is a pending job hanging at `link`.
pub open spec fn has_pending(p: Seq<NodeJob>, link: Link) -> bool {
    exists|k: int| 0 <= k < p.len() && (#[trigger] p[k]).link == link
}

/// Whether a leaf payload fits the task: a value for a regressor, one
/// probability per class for a classifier.
pub open spec fn payload_fits(task: Task, payload: LeafPayload) -> bool {
    match (payload, task) {
        (LeafPayload::Value(_), Task::Regression) => true,
        (LeafPayload::ClassShares, Task::Classification { .. }) => true,
        _ => false,
    }
}

/// A classifier leaf's probabilities (f32 bits): for each class below
/// `n_classes`, its count among `rows` over the number of rows.
pub open spec fn leaf_shares(rows: Seq<usize>, labels: Seq<usize>, n_classes: nat) -> Seq<u32> {
    Seq::new(n_classes, |c: int| proba_bits(class_count(rows, labels, c as nat), rows.len()) as u32)
}

/// Whether a node with `rows` is pure as the builder decides it: a
/// classifier node whose rows all carry the first row's label, or among
/// whose rows at most one class occurs. A regression node's purity is a
/// floating-point question the caller answers.
pub open spec fn labels_pure(task: Task, rows: Seq<usize>, labels: Seq<usize>) -> bool {
    match task {
        Task::Classification { n_classes } => same_label(rows, labels) || classes_present(
            rows,
            labels,
            n_classes as nat,
        ) <= 1,
        Task::Regression => false,
    }
}

/// The parent node a link names (`-1` for the root).
pub open spec fn parent_of(link: Link) -> int {
    match link {
        Link::Root => -1,
        Link::Left(p) => p as int,
        Link::Right(p) => p as int,
    }
}

/// The left child id of node `p` in `f`.
pub open spec fn l_of(f: TreeFragment, p: usize) -> int {
    f.left_child@[p as int] as int
}

/// The right child id of node `p` in `f`.
pub open spec fn r_of(f: TreeFragment, p: usize) -> int {
    f.right_child@[p as int] as int
}

/// The fewest rows a child may hold: `min_samples_leaf`, and at least one.
pub open spec fn min_leaf_rows(min_samples_leaf: usize) -> nat {
    if min_samples_leaf == 0 {
        1
    } else {
        min_samples_leaf as nat
    }
}

/// The deepest a node may sit: `max_depth`, or `usize::MAX` without one.
pub open spec fn depth_limit(max_depth: Option<usize>) -> nat {
    match max_depth {
        Some(d) => d as nat,
        None => usize::MAX as nat,
    }
}

/// `s` with entry `p` set to `n` when `cond` holds.
pub open spec fn hang_at(s: Seq<i32>, cond: bool, p: int, n: int) -> Seq<i32> {
    if cond {
        s.update(p, n as i32)
    } else {
        s
    }
}

/// The builder's settings are unchanged between `a` and `b`.
pub open spec fn same_settings(a: TreeBuilder, b: TreeBuilder) -> bool {
    &&& a.task() == b.task()
    &&& a.n_features() == b.n_features()
    &&& a.max_depth() == b.max_depth()
    &&& a.min_samples_split() == b.min_samples_split()
    &&& a.min_samples_leaf() == b.min_samples_leaf()
    &&& a.labels()@ == b.labels()@
    &&& a.root_count() == b.root_count()
}

/// The per-node arrays of `g` are those of `f` with one node appended, and
/// the new node `n` hung below the parent that `link` names.
pub open spec fn node_appended(
    f: TreeFragment,
    g: TreeFragment,
    link: Link,
    takes_default: bool,
    feature: i32,
    threshold: u32,
    leaf: bool,
    count: nat,
    impurity: u32,
    leaf_offset: i32,
) -> bool {
    let n = f.nodes() as int;
    let p = parent_of(link);
    &&& g.feature_id@ == f.feature_id@.push(feature)
    &&& g.threshold@ == f.threshold@.push(threshold)
    &&& g.left_child@ == hang_at(f.left_child@.push(NO_CHILD), link is Left, p, n)
    &&& g.right_child@ == hang_at(f.right_child@.push(NO_CHILD), link is Right, p, n)
    &&& g.default_child@ == hang_at(f.default_child@.push(NO_CHILD), takes_default && !(link is Root), p, n)
    &&& g.is_leaf@ == f.is_leaf@.push(leaf)
    &&& g.node_sample_count@ == f.node_sample_count@.push(count as u64)
    &&& g.node_weighted_count@ == f.node_weighted_count@.push(f32_bits_of(round_f32(count)) as u32)
    &&& g.impurity@ == f.impurity@.push(impurity)
    &&& g.leaf_offset@ == f.leaf_offset@.push(leaf_offset)
}

/// `b` is `a` after its current node became a leaf holding `payload`.
pub open spec fn leaf_step(a: TreeBuilder, b: TreeBuilder, impurity: u32, payload: LeafPayload) -> bool {
    let f = a.fragment();
    let g = b.fragment();
    let j = a.jobs().last();
    &&& b.jobs() == a.jobs().drop_last()
    &&& node_appended(f, g, j.link, j.takes_default, LEAF_FEATURE, 0, true, j.rows@.len(), impurity,
        f.n_leaf_slots as i32)
    &&& g.n_leaf_slots == f.n_leaf_slots + 1
    &&& match payload {
        LeafPayload::Value(v) => g.leaf_value@ == f.leaf_value@.push(v) && g.leaf_proba@ == f.leaf_proba@,
        LeafPayload::ClassShares => g.leaf_value@ == f.leaf_value@.push(0) && g.leaf_proba@ == f.leaf_proba@
            + leaf_shares(j.rows@, a.labels()@, a.task().classes()),
    }
}

/// `b` is `a` after its current node became an internal node splitting on
/// `feature` at `threshold`, its rows partitioned by `goes_left`.
pub open spec fn split_step(
    a: TreeBuilder,
    b: TreeBuilder,
    feature: usize,
    threshold: u32,
    impurity: u32,
    goes_left: Seq<bool>,
) -> bool {
    let f = a.fragment();
    let g = b.fragment();
    let j = a.jobs().last();
    let n = f.nodes() as usize;
    let left = select(j.rows@, goes_left, true);
    let right = select(j.rows@, goes_left, false);
    let default_left = left.len() >= right.len();
    let pj = b.jobs();
    &&& pj.len() == a.jobs().len() + 1
    &&& pj.subrange(0, a.jobs().len() - 1) == a.jobs().drop_last()
    &&& pj[pj.len() - 2].rows@ == right
    &&& pj[pj.len() - 2].depth == j.depth + 1
    &&& pj[pj.len() - 2].link == Link::Right(n)
    &&& pj[pj.len() - 2].takes_default == !default_left
    &&& pj[pj.len() - 1].rows@ == left
    &&& pj[pj.len() - 1].depth == j.depth + 1
    &&& pj[pj.len() - 1].link == Link::Left(n)
    &&& pj[pj.len() - 1].takes_default == default_left
    &&& node_appended(f, g, j.link, j.takes_default, feature as i32, threshold, false, j.rows@.len(), impurity, -1i32)
    &&& g.n_leaf_slots == f.n_leaf_slots
    &&& g.leaf_value@ == f.leaf_value@
    &&& g.leaf_proba@ == f.leaf_proba@
}

/// A tree under construction, grown node by node in pre-order.
pub struct TreeBuilder {
    frag: TreeFragment,
    pending: Vec<NodeJob>,
    task: Task,
    n_features: usize,
    max_depth: Option<usize>,
    min_samples_split: usize,
    min_samples_leaf: usize,
    exp_left: Ghost<Seq<nat>>,
    exp_right: Ghost<Seq<nat>>,
    depth_of: Ghost<Seq<nat>>,
    link_of: Ghost<Seq<Link>>,
    labels: Vec<usize>,
    root_n: Ghost<nat>,
}

impl TreeBuilder {
    pub closed spec fn fragment(&self) -> TreeFragment {
        self.frag
    }

    pub closed spec fn jobs(&self) -> Seq<NodeJob> {
        self.pending@
    }

    pub closed spec fn task(&self) -> Task {
        self.task
    }

    pub closed spec fn n_features(&self) -> usize {
        self.n_features
    }

    pub closed spec fn max_depth(&self) -> Option<usize> {
        self.max_depth
    }

    pub closed spec fn min_samples_split(&self) -> usize {
        self.min_samples_split
    }

    pub closed spec fn min_samples_leaf(&self) -> usize {
        self.min_samples_leaf
    }

    /// Each row's class (classifier trees).
    pub closed spec fn labels(&self) -> Vec<usize> {
        self.labels
    }

    /// The number of rows at the root.
    pub closed spec fn root_count(&self) -> nat {
        self.root_n@
    }

    /// The depth of each node decided so far.
    pub closed spec fn depths(&self) -> Seq<nat> {
        self.depth_of@
    }

    /// The slot each node decided so far hangs from.
    pub closed spec fn links(&self) -> Seq<Link> {
        self.link_of@
    }

    /// The node that the pending job `j` would become.
    closed spec fn job_ok(&self, j: NodeJob) -> bool {
        let n = self.frag.nodes();
        &&& j.rows@.len() >= 1
        &&& j.depth <= n
        &&& j.depth <= depth_limit(self.max_depth)
        &&& (self.task is Classification ==> forall|k: int|
            0 <= k < j.rows@.len() ==> #[trigger] j.rows@[k] < self.labels@.len())
        &&& (j.link is Root ==> j.rows@.len() == self.root_n@)
        &&& (j.link !is Root ==> j.rows@.len() >= min_leaf_rows(self.min_samples_leaf))
        &&& match j.link {
            Link::Root => j.depth == 0 && n == 0,
            Link::Left(p) => {
                &&& p < n
                &&& self.frag.left_child@[p as int] == NO_CHILD
                &&& j.depth == self.depth_of@[p as int] + 1
                &&& !self.frag.is_leaf@[p as int]
                &&& j.rows@.len() == self.exp_left@[p as int]
                &&& j.takes_default == (self.exp_left@[p as int] >= self.exp_right@[p as int])
            },
            Link::Right(p) => {
                &&& p < n
                &&& self.frag.right_child@[p as int] == NO_CHILD
                &&& j.depth == self.depth_of@[p as int] + 1
                &&& !self.frag.is_leaf@[p as int]
                &&& j.rows@.len() == self.exp_right@[p as int]
                &&& j.takes_default == !(self.exp_left@[p as int] >= self.exp_right@[p as int])
            },
        }
    }

    /// Node `i` as built so far; an internal node's children are either linked
    /// or still pending.
    closed spec fn node_inv(&self, i: int) -> bool {
        let f = self.frag;
        let n = f.nodes();
        let l = f.left_child@[i];
        let r = f.right_child@[i];
        let el = self.exp_left@[i];
        let er = self.exp_right@[i];
        let s = f.node_sample_count@;
        let d = self.depth_of@;
        &&& s[i] >= 1
        &&& f.node_weighted_count@[i] == f32_bits_of(round_f32(s[i] as nat))
        &&& d[i] <= depth_limit(self.max_depth)
        &&& (i >= 1 ==> s[i] >= min_leaf_rows(self.min_samples_leaf))
        &&& match self.link_of@[i] {
            Link::Root => i == 0,
            Link::Left(p) => p < i && l_of(f, p) == i,
            Link::Right(p) => p < i && r_of(f, p) == i,
        }
        &&& if f.is_leaf@[i] {
            f.leaf_ok(i)
        } else {
            &&& (l != NO_CHILD ==> self.link_of@[l as int] == Link::Left(i as usize) && l == i + 1)
            &&& (r != NO_CHILD ==> self.link_of@[r as int] == Link::Right(i as usize))
            &&& d[i] < depth_limit(self.max_depth)
            &&& f.feature_id@[i] < self.n_features
            &&& (l != NO_CHILD ==> d[l as int] == d[i] + 1)
            &&& (r != NO_CHILD ==> d[r as int] == d[i] + 1)
            &&& f.feature_id@[i] >= 0
            &&& f.leaf_offset@[i] == -1
            &&& s[i] >= self.min_samples_split
            &&& s[i] == el + er
            &&& (l == NO_CHILD ==> has_pending(self.pending@, Link::Left(i as usize)))
            &&& (l != NO_CHILD ==> i < l < n && s[l as int] == el)
            &&& (r == NO_CHILD ==> has_pending(self.pending@, Link::Right(i as usize)))
            &&& (r != NO_CHILD ==> i < r < n && s[r as int] == er)
            &&& f.default_child@[i] == if el >= er { l } else { r }
        }
    }

    /// The builder's invariant.
    pub closed spec fn wf(&self) -> bool {
        let f = self.frag;
        let n = f.nodes();
        &&& f.lengths_agree()
        &&& self.exp_left@.len() == n
        &&& self.exp_right@.len() == n
        &&& self.depth_of@.len() == n
        &&& (n >= 1 ==> self.depth_of@[0] == 0)
        &&& self.link_of@.len() == n
        &&& (n >= 1 ==> self.link_of@[0] == Link::Root)
        &&& (n >= 1 ==> self.frag.node_sample_count@[0] == self.root_n@)
        &&& forall|k: int|
            0 <= k < self.pending@.len() && (#[trigger] self.pending@[k]).link is Left ==> k == self.pending@.len()
                - 1 && parent_of(self.pending@[k].link) + 1 == n
        &&& forall|a: int, b: int|
            0 <= a < b < self.pending@.len() ==> (#[trigger] self.pending@[a]).link != (#[trigger] self.pending@[b]).link
        &&& n <= MAX_NODES
        &&& f.payload_ok(self.task)
        &&& forall|i: int| 0 <= i < n ==> #[trigger] self.node_inv(i)
        &&& forall|k: int| 0 <= k < self.pending@.len() ==> #[trigger] self.job_ok(self.pending@[k])
        &&& (n == 0 ==> self.pending@.len() >= 1)
    }

    /// Link the new node `n` below the parent that `link` names.
    fn hang(&mut self, link: Link, takes_default: bool, n: usize)
        requires
            n < old(self).frag.left_child@.len(),
            n < old(self).frag.right_child@.len(),
            n < old(self).frag.default_child@.len(),
            parent_of(link) < n,
        ensures
            final(self).frag.left_child@ == hang_at(old(self).frag.left_child@, link is Left, parent_of(link), n as int),
            final(self).frag.right_child@ == hang_at(old(self).frag.right_child@, link is Right, parent_of(link), n as int),
            final(self).frag.default_child@ == hang_at(
                old(self).frag.default_child@,
                takes_default && !(link is Root),
                parent_of(link),
                n as int,
            ),
            final(self).frag.feature_id == old(self).frag.feature_id,
            final(self).frag.threshold == old(self).frag.threshold,
            final(self).frag.is_leaf == old(self).frag.is_leaf,
            final(self).frag.node_sample_count == old(self).frag.node_sample_count,
            final(self).frag.node_weighted_count == old(self).frag.node_weighted_count,
            final(self).frag.impurity == old(self).frag.impurity,
            final(self).frag.leaf_value == old(self).frag.leaf_value,
            final(self).frag.leaf_proba == old(self).frag.leaf_proba,
            final(self).frag.leaf_offset == old(self).frag.leaf_offset,
            final(self).frag.n_leaf_slots == old(self).frag.n_leaf_slots,
            final(self).pending == old(self).pending,
            final(self).task == old(self).task,
            final(self).n_features == old(self).n_features,
            final(self).max_depth == old(self).max_depth,
            final(self).min_samples_split == old(self).min_samples_split,
            final(self).min_samples_leaf == old(self).min_samples_leaf,
            final(self).exp_left == old(self).exp_left,
            final(self).exp_right == old(self).exp_right,
            final(self).depth_of == old(self).depth_of,
            final(self).link_of == old(self).link_of,
            final(self).labels == old(self).labels,
            final(self).root_n == old(self).root_n,
    {
        match link {
            Link::Root => {},
            Link::Left(p) => {
                self.frag.left_child.set(p, n as i32);
                if takes_default {
                    self.frag.default_child.set(p, n as i32);
                }
            },
            Link::Right(p) => {
                self.frag.right_child.set(p, n as i32);
                if takes_default {
                    self.frag.default_child.set(p, n as i32);
                }
            },
        }
    }

    /// After the top job was popped, any other pending link still has a job.
    proof fn lemma_pending_kept(&self, old_b: TreeBuilder, top: int, i: int)
        requires
            top == old_b.pending@.len() - 1,
            self.pending@.len() >= top,
            forall|k: int| 0 <= k < top ==> self.pending@[k] == old_b.pending@[k],
        ensures
            forall|link: Link| link != old_b.pending@[top].link && has_pending(old_b.pending@, link)
                ==> has_pending(self.pending@, link),
    {
        assert forall|link: Link| link != old_b.pending@[top].link && has_pending(old_b.pending@, link)
            implies has_pending(self.pending@, link) by {
            let k = choose|k: int| 0 <= k < old_b.pending@.len() && (#[trigger] old_b.pending@[k]).link == link;
            assert(self.pending@[k] == old_b.pending@[k]);
        }
    }

    /// After the top job `old_b.pending[top]` became node `n`, hung at its
    /// link: the old nodes keep their parent slots, the slot the new node
    /// took was empty, and no other pending job targets it.
    proof fn lemma_links_kept(&self, old_b: TreeBuilder, top: int)
        requires
            old_b.wf(),
            top == old_b.pending@.len() - 1,
            top >= 0,
            self.frag.left_child@ == hang_at(
                old_b.frag.left_child@.push(NO_CHILD),
                old_b.pending@[top].link is Left,
                parent_of(old_b.pending@[top].link),
                old_b.frag.nodes() as int,
            ),
            self.frag.right_child@ == hang_at(
                old_b.frag.right_child@.push(NO_CHILD),
                old_b.pending@[top].link is Right,
                parent_of(old_b.pending@[top].link),
                old_b.frag.nodes() as int,
            ),
            self.frag.is_leaf@.len() == old_b.frag.nodes() + 1,
            forall|i: int| 0 <= i < old_b.frag.nodes() ==> self.frag.is_leaf@[i] == old_b.frag.is_leaf@[i],
            self.link_of@ == old_b.link_of@.push(old_b.pending@[top].link),
        ensures
            forall|i: int|
                0 <= i < old_b.frag.nodes() + 1 ==> match #[trigger] self.link_of@[i] {
                    Link::Root => i == 0,
                    Link::Left(p) => p < i && l_of(self.frag, p) == i,
                    Link::Right(p) => p < i && r_of(self.frag, p) == i,
                },
            forall|i: int|
                0 <= i < old_b.frag.nodes() && !old_b.frag.is_leaf@[i] ==> {
                    let l = self.frag.left_child@[i];
                    let r = self.frag.right_child@[i];
                    &&& (l != NO_CHILD ==> self.link_of@[l as int] == Link::Left(i as usize))
                    &&& (r != NO_CHILD ==> self.link_of@[r as int] == Link::Right(i as usize))
                },
            old_b.frag.nodes() == 0 ==> old_b.pending@[top].link == Link::Root,
            (old_b.frag.nodes() + 1 >= 1 ==> self.link_of@[0] == Link::Root),
    {
        let n = old_b.frag.nodes() as int;
        let link = old_b.pending@[top].link;
        assert(old_b.job_ok(old_b.pending@[top]));
        assert forall|i: int| 0 <= i < n + 1 implies match #[trigger] self.link_of@[i] {
            Link::Root => i == 0,
            Link::Left(p) => p < i && l_of(self.frag, p) == i,
            Link::Right(p) => p < i && r_of(self.frag, p) == i,
        } by {
            if i < n {
                assert(old_b.node_inv(i));
                assert(self.link_of@[i] == old_b.link_of@[i]);
                match old_b.link_of@[i] {
                    Link::Left(q) => {
                        assert(old_b.frag.left_child@[q as int] == i);
                        if link == Link::Left(q) {
                            assert(old_b.frag.left_child@[q as int] == NO_CHILD);
                        }
                    },
                    Link::Right(q) => {
                        assert(old_b.frag.right_child@[q as int] == i);
                        if link == Link::Right(q) {
                            assert(old_b.frag.right_child@[q as int] == NO_CHILD);
                        }
                    },
                    Link::Root => {},
                }
            }
        }
        assert forall|i: int| 0 <= i < n && !old_b.frag.is_leaf@[i] implies {
            let l = self.frag.left_child@[i];
            let r = self.frag.right_child@[i];
            &&& (l != NO_CHILD ==> self.link_of@[l as int] == Link::Left(i as usize))
            &&& (r != NO_CHILD ==> self.link_of@[r as int] == Link::Right(i as usize))
        } by {
            assert(old_b.node_inv(i));
        }
    }

    /// Start a tree whose root holds `root_rows`.
    pub fn new(
        root_rows: Vec<usize>,
        task: Task,
        n_features: usize,
        max_depth: Option<usize>,
        min_samples_split: usize,
        min_samples_leaf: usize,
        labels: Vec<usize>,
    ) -> (b: TreeBuilder)
        requires
            root_rows@.len() >= 1,
            task is Classification ==> forall|k: int| 0 <= k < root_rows@.len() ==> #[trigger] root_rows@[k] < labels@.len(),
        ensures
            b.wf(),
            b.fragment().nodes() == 0,
            b.jobs().len() == 1,
            b.jobs()[0].rows@ == root_rows@,
            b.jobs()[0].depth == 0,
            b.jobs()[0].link == Link::Root,
            b.task() == task,
            b.n_features() == n_features,
            b.max_depth() == max_depth,
            b.min_samples_split() == min_samples_split,
            b.min_samples_leaf() == min_samples_leaf,
            b.labels()@ == labels@,
            b.root_count() == root_rows@.len(),
    {
        let frag = TreeFragment::new();
        let ghost root_n = root_rows@.len();
        let mut pending: Vec<NodeJob> = Vec::new();
        pending.push(NodeJob { rows: root_rows, depth: 0, link: Link::Root, takes_default: false });
        let b = TreeBuilder {
            frag,
            pending,
            task,
            n_features,
            max_depth,
            min_samples_split,
            min_samples_leaf,
            exp_left: Ghost(Seq::empty()),
            exp_right: Ghost(Seq::empty()),
            depth_of: Ghost(Seq::empty()),
            link_of: Ghost(Seq::empty()),
            labels,
            root_n: Ghost(root_n),
        };
        assert(b.job_ok(b.pending@[0]));
        b
    }

    /// The node to decide next (the top of the pending stack), if any.
    pub fn current(&self) -> (r: Option<&NodeJob>)
        ensures
            self.jobs().len() == 0 ==> r is None,
            self.jobs().len() > 0 ==> r == Some(&self.jobs()[self.jobs().len() - 1]),
    {
        let k = self.pending.len();
        if k == 0 {
            None
        } else {
            Some(&self.pending[k - 1])
        }
    }

    /// The id the current node gets: nodes are numbered in the order they are
    /// decided.
    pub fn next_node_id(&self) -> (r: usize)
        ensures
            r == self.fragment().nodes(),
    {
        self.frag.feature_id.len()
    }

    /// Whether every node has been decided.
    pub fn is_done(&self) -> (r: bool)
        ensures
            r == (self.jobs().len() == 0),
    {
        self.pending.len() == 0
    }

    /// Why [`TreeBuilder::make_leaf`] would refuse, if it would.
    pub open spec fn leaf_refusal(&self, payload: LeafPayload) -> Option<BuildError> {
        if self.jobs().len() == 0 {
            Some(BuildError::NoPendingNode)
        } else if !payload_fits(self.task(), payload) {
            Some(BuildError::PayloadMismatch)
        } else if self.fragment().nodes() >= MAX_NODES {
            Some(BuildError::TooManyNodes)
        } else {
            None
        }
    }

    /// Decide the current node as a leaf holding `payload`, with the given
    /// impurity (f32 bits). The leaf takes the next payload slot and becomes
    /// its parent's child on the side it hangs from.
    #[verifier::rlimit(60)]
    #[verifier::spinoff_prover]
    pub fn make_leaf(&mut self, impurity: u32, payload: LeafPayload) -> (r: Result<(), BuildError>)
        requires
            old(self).wf(),
        ensures
            final(self).wf(),
            same_settings(*old(self), *final(self)),
            r is Err <==> old(self).leaf_refusal(payload) is Some,
            r matches Err(e) ==> old(self).leaf_refusal(payload) == Some(e) && *final(self) == *old(self),
            r is Ok ==> leaf_step(*old(self), *final(self), impurity, payload),
    {
        if self.pending.len() == 0 {
            return Err(BuildError::NoPendingNode);
        }
        let fits = match (&payload, self.task) {
            (LeafPayload::Value(_), Task::Regression) => true,
            (LeafPayload::ClassShares, Task::Classification { .. }) => true,
            _ => false,
        };
        if !fits {
            return Err(BuildError::PayloadMismatch);
        }
        let n = self.frag.feature_id.len();
        if n >= MAX_NODES {
            return Err(BuildError::TooManyNodes);
        }
        let ghost old_b = *self;
        let ghost top = self.pending@.len() - 1;
        let job = self.pending.pop().unwrap();
        assert(old_b.job_ok(old_b.pending@[top]));
        let cnt = job.rows.len() as u64;
        let slot = self.frag.n_leaf_slots;
        proof {
            lemma_leaf_count_bound(self.frag.is_leaf@, n as int);
        }
        self.frag.feature_id.push(LEAF_FEATURE);
        self.frag.threshold.push(0);
        self.frag.left_child.push(NO_CHILD);
        self.frag.right_child.push(NO_CHILD);
        self.frag.default_child.push(NO_CHILD);
        self.frag.is_leaf.push(true);
        self.frag.node_sample_count.push(cnt);
        self.frag.node_weighted_count.push(count_to_f32_bits(cnt));
        self.frag.impurity.push(impurity);
        self.frag.leaf_offset.push(slot as i32);
        self.frag.n_leaf_slots = slot + 1;
        match payload {
            LeafPayload::Value(v) => {
                self.frag.leaf_value.push(v);
            },
            LeafPayload::ClassShares => {
                let n_classes = match self.task {
                    Task::Classification { n_classes } => n_classes,
                    Task::Regression => 0,
                };
                let counts = class_counts(&job.rows, &self.labels, n_classes);
                let mut ps = leaf_probabilities(&counts, job.rows.len());
                assert(ps@ =~= leaf_shares(job.rows@, self.labels@, n_classes as nat));
                self.frag.leaf_proba.append(&mut ps);
                self.frag.leaf_value.push(0);
            },
        }
        self.exp_left = Ghost(self.exp_left@.push(0));
        self.exp_right = Ghost(self.exp_right@.push(0));
        self.depth_of = Ghost(self.depth_of@.push(job.depth as nat));
        self.link_of = Ghost(self.link_of@.push(job.link));
        self.hang(job.link, job.takes_default, n);
        proof {
            lemma_leaf_count_push(old_b.frag.is_leaf@, true, n as int);
            match self.task {
                Task::Classification { n_classes } => {
                    assert((slot + 1) * n_classes == slot * n_classes + n_classes) by (nonlinear_arith);
                },
                Task::Regression => {},
            }
            self.lemma_links_kept(old_b, top);
            assert forall|i: int| 0 <= i < n + 1 implies #[trigger] self.node_inv(i) by {
                if i < n {
                    assert(old_b.node_inv(i));
                    lemma_leaf_count_push(old_b.frag.is_leaf@, true, i);
                    self.lemma_pending_kept(old_b, top, i);
                }
            }
            assert forall|k: int| 0 <= k < self.pending@.len() implies #[trigger] self.job_ok(self.pending@[k]) by {
                assert(old_b.job_ok(old_b.pending@[k]));
                assert(old_b.pending@[k].link != old_b.pending@[top].link);
            }
        }
        Ok(())
    }

    /// Why [`TreeBuilder::make_split`] would refuse, if it would.
    pub open spec fn split_refusal(&self, feature: usize, goes_left: Seq<bool>) -> Option<BuildError> {
        let j = self.jobs().last();
        let min_child = min_leaf_rows(self.min_samples_leaf());
        if self.jobs().len() == 0 {
            Some(BuildError::NoPendingNode)
        } else if Self::forced_leaf(
            self.max_depth(),
            self.min_samples_split(),
            j.depth,
            j.rows@.len(),
            labels_pure(self.task(), j.rows@, self.labels()@),
        ) {
            Some(BuildError::MustBeLeaf)
        } else if goes_left.len() != j.rows@.len() {
            Some(BuildError::FlagsMismatch)
        } else if feature >= self.n_features() || feature > MAX_NODES {
            Some(BuildError::FeatureOutOfRange)
        } else if select(j.rows@, goes_left, true).len() < min_child
            || select(j.rows@, goes_left, false).len() < min_child {
            Some(BuildError::ChildTooSmall)
        } else if self.fragment().nodes() >= MAX_NODES {
            Some(BuildError::TooManyNodes)
        } else {
            None
        }
    }

    /// Decide the current node as an internal node splitting on `feature` at
    /// `threshold` (f32 bits), with the given impurity (f32 bits). Row
    /// `rows[i]` of the node goes left exactly when `goes_left[i]` is set. The
    /// two children become pending, the left one on top, so the tree is
    /// numbered in pre-order; missing values go to the child with more rows,
    /// the left one on a tie.
    #[verifier::rlimit(100)]
    #[verifier::spinoff_prover]
    pub fn make_split(&mut self, feature: usize, threshold: u32, impurity: u32, goes_left: &Vec<bool>)
        -> (r: Result<(), BuildError>)
        requires
            old(self).wf(),
        ensures
            final(self).wf(),
            same_settings(*old(self), *final(self)),
            r is Err <==> old(self).split_refusal(feature, goes_left@) is Some,
            r matches Err(e) ==> old(self).split_refusal(feature, goes_left@) == Some(e) && *final(self) == *old(self),
            r is Ok ==> split_step(*old(self), *final(self), feature, threshold, impurity, goes_left@),
    {
        if self.pending.len() == 0 {
            return Err(BuildError::NoPendingNode);
        }
        let k = self.pending.len() - 1;
        let depth = self.pending[k].depth;
        let nrows = self.pending[k].rows.len();
        let limit = match self.max_depth {
            Some(d) => d,
            None => usize::MAX,
        };
        if depth == limit || nrows < self.min_samples_split {
            return Err(BuildError::MustBeLeaf);
        }
        assert(self.job_ok(self.pending@[k as int]));
        let pure = match self.task {
            Task::Classification { n_classes } => classes_pure(&self.pending[k].rows, &self.labels, n_classes),
            Task::Regression => false,
        };
        if pure {
            return Err(BuildError::MustBeLeaf);
        }
        if goes_left.len() != nrows {
            return Err(BuildError::FlagsMismatch);
        }
        if feature >= self.n_features || feature > MAX_NODES {
            return Err(BuildError::FeatureOutOfRange);
        }
        let part = partition_rows(&self.pending[k].rows, goes_left);
        let min_child = if self.min_samples_leaf == 0 { 1 } else { self.min_samples_leaf };
        if part.left_rows.len() < min_child || part.right_rows.len() < min_child {
            return Err(BuildError::ChildTooSmall);
        }
        let n = self.frag.feature_id.len();
        if n >= MAX_NODES {
            return Err(BuildError::TooManyNodes);
        }
        let ghost old_b = *self;
        let ghost top = k as int;
        let job = self.pending.pop().unwrap();
        assert(old_b.job_ok(old_b.pending@[top]));
        let cnt = job.rows.len() as u64;
        proof {
            crate::partition::lemma_select_len(job.rows@, goes_left@);
        }
        self.frag.feature_id.push(feature as i32);
        self.frag.threshold.push(threshold);
        self.frag.left_child.push(NO_CHILD);
        self.frag.right_child.push(NO_CHILD);
        self.frag.default_child.push(NO_CHILD);
        self.frag.is_leaf.push(false);
        self.frag.node_sample_count.push(cnt);
        self.frag.node_weighted_count.push(count_to_f32_bits(cnt));
        self.frag.impurity.push(impurity);
        self.frag.leaf_offset.push(-1);
        self.exp_left = Ghost(self.exp_left@.push(part.left_rows@.len()));
        self.exp_right = Ghost(self.exp_right@.push(part.right_rows@.len()));
        self.depth_of = Ghost(self.depth_of@.push(job.depth as nat));
        self.link_of = Ghost(self.link_of@.push(job.link));
        self.hang(job.link, job.takes_default, n);
        let default_left = part.default_left;
        let RowPartition { left_rows, right_rows, n_left: _, n_right: _, default_left: _ } = part;
        self.pending.push(NodeJob {
            rows: right_rows,
            depth: depth + 1,
            link: Link::Right(n),
            takes_default: !default_left,
        });
        self.pending.push(NodeJob { rows: left_rows, depth: depth + 1, link: Link::Left(n), takes_default: default_left });
        proof {
            lemma_leaf_count_push(old_b.frag.is_leaf@, false, n as int);
            let np = self.pending@.len();
            assert(self.pending@[np - 1].link == Link::Left(n));
            assert(self.pending@[np - 2].link == Link::Right(n));
            self.lemma_links_kept(old_b, top);
            assert forall|i: int| 0 <= i < n + 1 implies #[trigger] self.node_inv(i) by {
                if i < n {
                    assert(old_b.node_inv(i));
                    lemma_leaf_count_push(old_b.frag.is_leaf@, false, i);
                    self.lemma_pending_kept(old_b, top, i);
                }
            }
            if self.task is Classification {
                assert forall|side: bool, q: int| 0 <= q < select(job.rows@, goes_left@, side).len() implies
                    #[trigger] select(job.rows@, goes_left@, side)[q] < self.labels@.len() by {
                    lemma_select_members(job.rows@, goes_left@, side, q);
                }
                assert(forall|q: int| 0 <= q < self.pending@[np - 1].rows@.len() ==> #[trigger] self.pending@[np
                    - 1].rows@[q] == select(job.rows@, goes_left@, true)[q]);
                assert(forall|q: int| 0 <= q < self.pending@[np - 2].rows@.len() ==> #[trigger] self.pending@[np
                    - 2].rows@[q] == select(job.rows@, goes_left@, false)[q]);
            }
            assert forall|k: int| 0 <= k < self.pending@.len() implies #[trigger] self.job_ok(self.pending@[k]) by {
                if k < top {
                    assert(old_b.job_ok(old_b.pending@[k]));
                    assert(old_b.pending@[k].link != old_b.pending@[top].link);
                }
            }
            assert forall|a: int, b: int| 0 <= a < b < self.pending@.len() implies (#[trigger] self.pending@[a]).link
                != (#[trigger] self.pending@[b]).link by {
                if b < top {
                    assert(old_b.pending@[a].link != old_b.pending@[b].link);
                } else if a < top {
                    assert(old_b.job_ok(old_b.pending@[a]));
                }
            }
            assert(self.pending@.subrange(0, top) =~= old_b.pending@.drop_last());
            assert(node_appended(old_b.frag, self.frag, job.link, job.takes_default, feature as i32, threshold,
                false, job.rows@.len(), impurity, -1i32));
        }
        Ok(())
    }

    /// The finished tree, once no node is pending; `Unfinished` otherwise.
    pub fn finish(self) -> (r: Result<TreeFragment, BuildError>)
        requires
            self.wf(),
        ensures
            r is Err <==> self.jobs().len() > 0,
            r matches Err(e) ==> e == BuildError::Unfinished,
            r matches Ok(f) ==> f == self.fragment() && f.grown(self.task()),
            r matches Ok(f) ==> f.depths_ok(self.depths(), self.max_depth()),
            r matches Ok(f) ==> f.links_ok(self.links()),
            r matches Ok(f) ==> f.preorder(),
            r matches Ok(f) ==> f.features_below(self.n_features()),
            r matches Ok(f) ==> f.node_sample_count@[0] == self.root_count(),
            r matches Ok(f) ==> f.sizes_ok(self.min_samples_split(), self.min_samples_leaf()),
    {
        if self.pending.len() > 0 {
            return Err(BuildError::Unfinished);
        }
        proof {
            let f = self.frag;
            assert forall|i: int| 0 <= i < f.nodes() implies #[trigger] f.node_grown(i) by {
                assert(self.node_inv(i));
                if !f.is_leaf@[i] {
                    assert(!has_pending(self.pending@, Link::Left(i as usize)));
                    assert(!has_pending(self.pending@, Link::Right(i as usize)));
                }
            }
            assert forall|i: int| 0 <= i < f.nodes() && !f.is_leaf@[i] implies self.link_of@[f.left_child@[i] as int]
                == Link::Left(i as usize) && self.link_of@[f.right_child@[i] as int] == Link::Right(i as usize) by {
                assert(self.node_inv(i));
                assert(!has_pending(self.pending@, Link::Left(i as usize)));
                assert(!has_pending(self.pending@, Link::Right(i as usize)));
            }
            assert forall|i: int| 0 <= i < f.nodes() implies match #[trigger] self.link_of@[i] {
                Link::Root => i == 0,
                Link::Left(p) => p < i && f.left_child@[p as int] == i,
                Link::Right(p) => p < i && f.right_child@[p as int] == i,
            } by {
                assert(self.node_inv(i));
            }
            assert forall|i: int| 0 <= i < f.nodes() && !#[trigger] f.is_leaf@[i] implies 0 <= f.feature_id@[i]
                < self.n_features by {
                assert(self.node_inv(i));
            }
            assert forall|i: int| 0 <= i < f.nodes() && !#[trigger] f.is_leaf@[i] implies f.left_child@[i] == i + 1 by {
                assert(self.node_inv(i));
                assert(!has_pending(self.pending@, Link::Left(i as usize)));
            }
            assert forall|i: int| 0 <= i < f.nodes() implies {
                &&& (!#[trigger] f.is_leaf@[i] ==> f.node_sample_count@[i] >= self.min_samples_split)
                &&& (i >= 1 ==> f.node_sample_count@[i] >= min_leaf_rows(self.min_samples_leaf))
            } by {
                assert(self.node_inv(i));
            }
            let d = self.depth_of@;
            let lim = depth_limit(self.max_depth);
            assert forall|i: int| 0 <= i < f.nodes() implies #[trigger] d[i] <= lim && (!f.is_leaf@[i] ==> d[i]
                < lim && d[f.left_child@[i] as int] == d[i] + 1 && d[f.right_child@[i] as int] == d[i] + 1) by {
                assert(self.node_inv(i));
                if !f.is_leaf@[i] {
                    assert(!has_pending(self.pending@, Link::Left(i as usize)));
                    assert(!has_pending(self.pending@, Link::Right(i as usize)));
                }
            }
        }
        Ok(self.frag)
    }

    /// Whether a node at `depth` with `n_rows` rows must be a leaf: it sits
    /// at the depth limit, has fewer rows than `min_samples_split`, or is pure.
    pub open spec fn forced_leaf(
        max_depth: Option<usize>,
        min_samples_split: usize,
        depth: usize,
        n_rows: nat,
        pure: bool,
    ) -> bool {
        ||| depth == match max_depth {
            Some(d) => d,
            None => usize::MAX,
        }
        ||| n_rows < min_samples_split
        ||| pure
    }

    /// Whether the current node must become a leaf. `pure` is the caller's
    /// answer to whether a regression node is pure (a floating-point
    /// question); a classifier node's purity is decided here from its labels,
    /// and `pure` is not consulted.
    pub fn must_be_leaf(&self, pure: bool) -> (r: bool)
        requires
            self.wf(),
            self.jobs().len() > 0,
        ensures
            r == Self::forced_leaf(
                self.max_depth(),
                self.min_samples_split(),
                self.jobs().last().depth,
                self.jobs().last().rows@.len(),
                match self.task() {
                    Task::Classification { .. } => labels_pure(self.task(), self.jobs().last().rows@, self.labels()@),
                    Task::Regression => pure,
                },
            ),
    {
        let k = self.pending.len() - 1;
        let j = &self.pending[k];
        assert(self.job_ok(self.pending@[k as int]));
        let limit = match self.max_depth {
            Some(d) => d,
            None => usize::MAX,
        };
        let node_pure = match self.task {
            Task::Classification { n_classes } => classes_pure(&j.rows, &self.labels, n_classes),
            Task::Regression => pure,
        };
        j.depth == limit || j.rows.len() < self.min_samples_split || node_pure
    }
}

} // verus!
