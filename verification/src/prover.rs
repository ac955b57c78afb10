//! Options, proofs and errors of the proving stage.

use vstd::prelude::*;

verus! {

/// What a caller chooses about a proof: how many queries the low-degree
/// test makes and by how much codewords are blown up.
#[derive(Debug, Clone, Copy, PartialEq, Eq, Structural)]
pub struct ProofOptions {
    pub num_queries: u8,
    pub blowup_factor: u8,
}

impl ProofOptions {
    /// Options with the given number of queries and blowup factor.
    pub fn new(num_queries: u8, blowup_factor: u8) -> (r: Self)
        ensures
            r.num_queries == num_queries,
            r.blowup_factor == blowup_factor,
    {
        ProofOptions { num_queries, blowup_factor }
    }
}

/// The shape of an execution trace.
#[derive(Debug, Clone, Copy, PartialEq, Eq, Structural)]
pub struct TraceInfo {
    pub num_base_columns: usize,
    pub num_extension_columns: usize,
    pub trace_len: usize,
}

/// A proof generated by a mini-stark prover
#[derive(Debug, Clone)]
pub struct Proof {
    options: ProofOptions,
    trace_info: TraceInfo,
    commitments: Vec<u64>,
}

impl Proof {
    /// The options that the proof was made under.
    pub closed spec fn spec_options(&self) -> ProofOptions {
        self.options
    }

    /// The shape of the trace that the proof is about.
    pub closed spec fn spec_trace_info(&self) -> TraceInfo {
        self.trace_info
    }

    /// The commitments that the proof holds, in the order they were made.
    pub closed spec fn spec_commitments(&self) -> Seq<u64> {
        self.commitments@
    }

    /// A proof made under `options` about a trace of shape `trace_info`,
    /// holding the given commitments.
    pub fn new(options: ProofOptions, trace_info: TraceInfo, commitments: Vec<u64>) -> (r: Proof)
        ensures
            r.spec_options() == options,
            r.spec_trace_info() == trace_info,
            r.spec_commitments() == commitments@,
    {
        Proof { options, trace_info, commitments }
    }

    /// The options that the proof was made under.
    pub fn options(&self) -> (r: ProofOptions)
        ensures
            r == self.spec_options(),
    {
        self.options
    }

    /// The shape of the trace that the proof is about.
    pub fn trace_info(&self) -> (r: TraceInfo)
        ensures
            r == self.spec_trace_info(),
    {
        self.trace_info
    }

    /// The commitments that the proof holds, in the order they were made.
    pub fn commitments(&self) -> (r: &Vec<u64>)
        ensures
            r@ == self.spec_commitments(),
    {
        &self.commitments
    }
}

/// Errors that can occur during the proving stage.
#[derive(Debug, Clone, Copy, PartialEq, Eq, Structural)]
pub enum ProvingError {
    /// An argument breaks a precondition that is cheap to check: a length
    /// that is no power of two, a root that is not primitive, lists whose
    /// lengths differ.
    InvalidInput,
    /// The inverse of zero was asked for.
    DivisionByZero,
}

} // verus!
