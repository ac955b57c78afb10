use mini_stark::field::Felt;
use mini_stark::multivariate::MultivariatePolynomial;
use mini_stark::powers_of_two::{exact_log2, next_power_of_two};
use mini_stark::prover::{Proof, ProofOptions, ProvingError, TraceInfo};
use mini_stark::stark::{
    ceil_power_of_two, codeword_length, largest_of, BrainFuckStark, StarkParams,
};
use mini_stark::table::Table;

/// A table of one column whose one transition constraint has the given
/// exponent in the current-row variable.
struct PlainTable {
    rows: Vec<Vec<Felt>>,
    exponent: u64,
    interpolant_degree: usize,
}

impl PlainTable {
    fn new(exponent: u64, interpolant_degree: usize) -> Self {
        PlainTable { rows: Vec::new(), exponent, interpolant_degree }
    }
}

impl Table for PlainTable {
    const BASE_WIDTH: usize = 1;
    const EXTENSION_WIDTH: usize = 1;

    fn len(&self) -> usize {
        self.rows.len()
    }

    fn height(&self) -> usize {
        self.rows.len()
    }

    fn pad(&mut self, n: usize) {
        while self.rows.len() < n {
            self.rows.push(vec![Felt::zero()]);
        }
    }

    fn base_boundary_constraints() -> Vec<MultivariatePolynomial> {
        Vec::new()
    }

    fn base_transition_constraints() -> Vec<MultivariatePolynomial> {
        Vec::new()
    }

    fn extension_boundary_constraints(_challenges: &[Felt]) -> Vec<MultivariatePolynomial> {
        Vec::new()
    }

    fn extension_transition_constraints(challenges: &[Felt]) -> Vec<MultivariatePolynomial> {
        // the degree of the constraint is the number of challenges
        vec![MultivariatePolynomial::new(vec![vec![challenges.len() as u64, 0]], vec![Felt::one()])]
    }

    fn extension_terminal_constraints(
        &self,
        _challenges: &[Felt],
        _terminals: &[Felt],
    ) -> Vec<MultivariatePolynomial> {
        vec![MultivariatePolynomial::new(vec![vec![self.exponent]], vec![Felt::one()])]
    }

    fn interpolant_degree(&self) -> usize {
        self.interpolant_degree
    }

    fn set_matrix(&mut self, matrix: Vec<Vec<Felt>>) {
        self.rows = matrix;
    }

    fn extend(&mut self, _challenges: &[Felt], _initials: &[Felt]) {}

    fn base_lde(&mut self, _offset: Felt, _codeword_len: usize) -> Vec<Vec<Felt>> {
        Vec::new()
    }

    fn extension_lde(&mut self, _offset: Felt, _codeword_len: usize) -> Vec<Vec<Felt>> {
        Vec::new()
    }
}

fn matrix(rows: u64) -> Vec<Vec<Felt>> {
    (0..rows).map(|i| vec![Felt::new(i)]).collect()
}

fn prover(interpolant_degree: usize) -> BrainFuckStark<PlainTable, PlainTable, PlainTable, PlainTable, PlainTable> {
    BrainFuckStark::new(
        StarkParams::new(4, 128),
        PlainTable::new(1, interpolant_degree),
        PlainTable::new(1, 1),
        PlainTable::new(1, 1),
        PlainTable::new(1, 1),
        PlainTable::new(1, 1),
    )
}

#[test]
fn stark_params_keep_their_values() {
    let params = StarkParams::new(8, 160);
    assert_eq!(params.expansion_factor(), 8);
    assert_eq!(params.security_level(), 160);
    assert_eq!(params.num_randomizers(), 160);
}

#[test]
fn proof_options_keep_their_values() {
    let options = ProofOptions::new(30, 8);
    assert_eq!(options.num_queries, 30);
    assert_eq!(options.blowup_factor, 8);
}

#[test]
fn proof_keeps_its_parts() {
    let options = ProofOptions::new(30, 8);
    let info = TraceInfo { num_base_columns: 3, num_extension_columns: 2, trace_len: 16 };
    let proof = Proof::new(options, info, vec![1, 2, 3]);
    assert_eq!(proof.options(), options);
    assert_eq!(proof.trace_info(), info);
    assert_eq!(proof.commitments(), &vec![1, 2, 3]);
}

#[test]
fn ceil_power_of_two_rounds_up() {
    assert_eq!(ceil_power_of_two(0), 1);
    assert_eq!(ceil_power_of_two(1), 1);
    assert_eq!(ceil_power_of_two(2), 2);
    assert_eq!(ceil_power_of_two(3), 4);
    assert_eq!(ceil_power_of_two(8), 8);
    assert_eq!(ceil_power_of_two(9), 16);
    assert_eq!(ceil_power_of_two(1000), 1024);
}

#[test]
fn powers_of_two_of_machine_words() {
    assert_eq!(exact_log2(0), None);
    assert_eq!(exact_log2(1), Some(0));
    assert_eq!(exact_log2(2), Some(1));
    assert_eq!(exact_log2(6), None);
    assert_eq!(exact_log2(1 << 20), Some(20));
    assert_eq!(next_power_of_two(5), Some(8));
    assert_eq!(next_power_of_two(usize::MAX), None);
    assert_eq!(next_power_of_two((usize::MAX >> 1) + 1), Some((usize::MAX >> 1) + 1));
}

#[test]
fn largest_of_five() {
    assert_eq!(largest_of(1, 5, 3, 2, 4), 5);
    assert_eq!(largest_of(0, 0, 0, 0, 9), 9);
    assert_eq!(largest_of(7, 7, 7, 7, 7), 7);
}

#[test]
fn codeword_length_exact_values() {
    assert_eq!(codeword_length(5, 4), Some(32));
    assert_eq!(codeword_length(8, 4), Some(32));
    assert_eq!(codeword_length(1, 16), Some(16));
    assert_eq!(codeword_length(usize::MAX / 2, 4), None);
}

#[test]
fn fri_codeword_length_needs_a_populated_processor_table() {
    let stark = prover(1);
    assert_eq!(stark.fri_codeword_length(), Err(ProvingError::InvalidInput));
}

#[test]
fn fri_codeword_length_of_populated_tables() {
    let mut stark = prover(3);
    let proof = stark.prove(matrix(3), matrix(1), matrix(2), matrix(0), matrix(0));
    assert!(proof.is_empty());
    // every table is padded to four rows; the transition constraint of the
    // processor table has degree 30 in a variable of degree 3: 90 less
    // the 3 rows below the last, rounded up to 128, times 4
    assert_eq!(stark.fri_codeword_length(), Ok(512));
}
