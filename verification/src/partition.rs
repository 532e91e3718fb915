//! Splitting a node's rows into its two children: the rows whose flag is set
//! go left, the others go right, each side keeping the parent's row order.
use vstd::prelude::*;

verus! {

/// The rows whose flag equals `side`, in their original order.
pub open spec fn select(rows: Seq<usize>, flags: Seq<bool>, side: bool) -> Seq<usize>
    decreases rows.len(),
{
    if rows.len() == 0 {
        Seq::empty()
    } else {
        let prev = select(rows.drop_last(), flags.drop_last(), side);
        if flags[rows.len() - 1] == side {
            prev.push(rows.last())
        } else {
            prev
        }
    }
}

/// The two sides of a partition together have as many rows as the parent.
pub proof fn lemma_select_len(rows: Seq<usize>, flags: Seq<bool>)
    requires
        rows.len() == flags.len(),
    ensures
        select(rows, flags, true).len() + select(rows, flags, false).len() == rows.len(),
    decreases rows.len(),
{
    if rows.len() > 0 {
        lemma_select_len(rows.drop_last(), flags.drop_last());
    }
}

/// The two sides of a partition together hold exactly the parent's rows:
/// no row is lost and none is duplicated.
pub proof fn lemma_partition_covers(rows: Seq<usize>, flags: Seq<bool>)
    requires
        rows.len() == flags.len(),
    ensures
        select(rows, flags, true).to_multiset().add(select(rows, flags, false).to_multiset())
            =~= rows.to_multiset(),
    decreases rows.len(),
{
    broadcast use vstd::seq_lib::group_to_multiset_ensures;
    if rows.len() > 0 {
        lemma_partition_covers(rows.drop_last(), flags.drop_last());
        assert(rows.drop_last().push(rows.last()) =~= rows);
    } else {
        assert(rows.to_multiset() =~= vstd::multiset::Multiset::empty());
    }
}

/// Every row on a side comes from the parent and carries that side's flag.
pub proof fn lemma_select_members(rows: Seq<usize>, flags: Seq<bool>, side: bool, k: int)
    requires
        rows.len() == flags.len(),
        0 <= k < select(rows, flags, side).len(),
    ensures
        exists|j: int| 0 <= j < rows.len() && flags[j] == side && rows[j] == #[trigger] select(rows, flags, side)[k],
    decreases rows.len(),
{
    let prev = select(rows.drop_last(), flags.drop_last(), side);
    if k < prev.len() {
        lemma_select_members(rows.drop_last(), flags.drop_last(), side, k);
        let j = choose|j: int| 0 <= j < rows.drop_last().len() && flags.drop_last()[j] == side
            && rows.drop_last()[j] == prev[k];
        assert(rows[j] == select(rows, flags, side)[k]);
    } else {
        assert(rows[rows.len() - 1] == select(rows, flags, side)[k]);
    }
}

/// A node's rows split into two children.
#[derive(Debug, Clone)]
pub struct RowPartition {
    /// Rows that go to the left child.
    pub left_rows: Vec<usize>,
    /// Rows that go to the right child.
    pub right_rows: Vec<usize>,
    /// Sample count of the left child.
    pub n_left: u64,
    /// Sample count of the right child.
    pub n_right: u64,
    /// Whether missing values are routed left: the child with more rows takes
    /// them, the left one on a tie.
    pub default_left: bool,
}

/// Split `rows` by `goes_left`: row `rows[i]` goes left exactly when
/// `goes_left[i]` is set. Both sides keep the parent's order.
pub fn partition_rows(rows: &Vec<usize>, goes_left: &Vec<bool>) -> (p: RowPartition)
    requires
        rows.len() == goes_left.len(),
    ensures
        p.left_rows@ == select(rows@, goes_left@, true),
        p.right_rows@ == select(rows@, goes_left@, false),
        p.n_left == p.left_rows@.len(),
        p.n_right == p.right_rows@.len(),
        p.n_left + p.n_right == rows@.len(),
        p.default_left == (p.n_left >= p.n_right),
{
    let mut left: Vec<usize> = Vec::new();
    let mut right: Vec<usize> = Vec::new();
    let mut i: usize = 0;
    while i < rows.len()
        invariant
            rows.len() == goes_left.len(),
            i <= rows.len(),
            left@ == select(rows@.take(i as int), goes_left@.take(i as int), true),
            right@ == select(rows@.take(i as int), goes_left@.take(i as int), false),
        decreases rows.len() - i,
    {
        assert(rows@.take(i + 1).drop_last() =~= rows@.take(i as int));
        assert(goes_left@.take(i + 1).drop_last() =~= goes_left@.take(i as int));
        if goes_left[i] {
            left.push(rows[i]);
        } else {
            right.push(rows[i]);
        }
        i = i + 1;
    }
    assert(rows@.take(rows.len() as int) =~= rows@);
    assert(goes_left@.take(rows.len() as int) =~= goes_left@);
    proof {
        lemma_select_len(rows@, goes_left@);
    }
    let n_left = left.len() as u64;
    let n_right = right.len() as u64;
    RowPartition { left_rows: left, right_rows: right, n_left, n_right, default_left: n_left >= n_right }
}

} // verus!
