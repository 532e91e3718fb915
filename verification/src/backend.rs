//! Device-neutral handle types named by the histogram-training contract, and
//! the CPU backend marker. No device pointer or stream type appears here.
use vstd::prelude::*;

verus! {

/// Per-feature bin edges produced by quantization.
#[derive(Debug, Clone, Copy, Default)]
pub struct BinEdges;

/// The set of nodes being grown in the current breadth-first wave.
#[derive(Debug, Clone, Copy, Default)]
pub struct Frontier;

/// A device-neutral handle to a set of row indices.
#[derive(Debug, Clone, Copy, Default)]
pub struct RowIndex;

/// Per-node, per-feature histograms.
#[derive(Debug, Clone, Copy, Default)]
pub struct Histograms;

/// Split-evaluation mode and parameters.
#[derive(Debug, Clone, Copy, Default)]
pub struct SplitMode;

/// A chosen split (feature, threshold or bin, default direction).
#[derive(Debug, Clone, Copy, Default)]
pub struct SplitDecision;

/// The row ranges of the two children after partitioning.
#[derive(Debug, Clone, Copy, Default)]
pub struct ChildRanges;

/// The CPU backend: trains by recursive exact splitting. Thread-safe; it
/// holds no state.
#[derive(Debug, Clone, Copy, Default)]
pub struct CpuBackend;

} // verus!
