use mini_stark::field::Felt;
use mini_stark::multivariate::MultivariatePolynomial;
use mini_stark::prover::ProvingError;
use mini_stark::table::{
    boundary_quotient_codewords, max_quotient_degree, quotient_degree_bounds,
    terminal_quotient_codewords, transition_quotient_codewords, Table,
};

const P: u64 = 18446744069414584321;

/// A table of one column that counts its rows.
struct CounterTable {
    rows: Vec<Vec<Felt>>,
    height: usize,
    interpolant_degree: usize,
}

impl CounterTable {
    fn new(height: usize, interpolant_degree: usize) -> Self {
        CounterTable { rows: Vec::new(), height, interpolant_degree }
    }
}

/// next - current - 1, over the variables (current, next)
fn counter_increment() -> MultivariatePolynomial {
    MultivariatePolynomial::new(
        vec![vec![0, 1], vec![1, 0], vec![0, 0]],
        vec![Felt::one(), Felt::new(P - 1), Felt::new(P - 1)],
    )
}

/// current^3
fn cube() -> MultivariatePolynomial {
    MultivariatePolynomial::new(vec![vec![3]], vec![Felt::one()])
}

impl Table for CounterTable {
    const BASE_WIDTH: usize = 1;
    const EXTENSION_WIDTH: usize = 1;

    fn len(&self) -> usize {
        self.rows.len()
    }

    fn height(&self) -> usize {
        self.height
    }

    fn pad(&mut self, n: usize) {
        while self.rows.len() < n {
            let next = Felt::new(self.rows.len() as u64);
            self.rows.push(vec![next]);
        }
        self.height = n;
    }

    fn base_boundary_constraints() -> Vec<MultivariatePolynomial> {
        vec![cube()]
    }

    fn base_transition_constraints() -> Vec<MultivariatePolynomial> {
        vec![counter_increment()]
    }

    fn extension_boundary_constraints(_challenges: &[Felt]) -> Vec<MultivariatePolynomial> {
        vec![cube()]
    }

    fn extension_transition_constraints(_challenges: &[Felt]) -> Vec<MultivariatePolynomial> {
        vec![counter_increment()]
    }

    fn extension_terminal_constraints(
        &self,
        _challenges: &[Felt],
        _terminals: &[Felt],
    ) -> Vec<MultivariatePolynomial> {
        vec![cube()]
    }

    fn interpolant_degree(&self) -> usize {
        self.interpolant_degree
    }

    fn set_matrix(&mut self, matrix: Vec<Vec<Felt>>) {
        self.rows = matrix;
    }

    fn extend(&mut self, _challenges: &[Felt], _initials: &[Felt]) {}

    fn base_lde(&mut self, _offset: Felt, _codeword_len: usize) -> Vec<Vec<Felt>> {
        Vec::new()
    }

    fn extension_lde(&mut self, _offset: Felt, _codeword_len: usize) -> Vec<Vec<Felt>> {
        Vec::new()
    }
}

fn domain_point(codeword_len: u64, i: u64) -> Felt {
    let omega = Felt::get_root_of_unity(codeword_len.trailing_zeros()).unwrap();
    Felt::generator().mul(omega.pow(i))
}

fn last_row_point(height: u64) -> Felt {
    Felt::get_root_of_unity(height.trailing_zeros()).unwrap().inverse().unwrap()
}

#[test]
fn transition_quotient_of_counter_vanishes_off_the_wrap() {
    // height 2, blowup factor 4: the row that follows index i sits at i + 4
    let codeword: Vec<Felt> = [0u64, 0, 0, 0, 1, 1, 1, 1].iter().map(|v| Felt::new(*v)).collect();
    let table = CounterTable::new(2, 1);
    let quotients = table.transition_quotients(8, &[codeword], &[]).unwrap();
    assert_eq!(quotients.len(), 1);
    assert_eq!(quotients[0].len(), 8);
    for i in 0..4 {
        assert_eq!(quotients[0][i], Felt::zero());
    }
    for i in 4..8 {
        assert_ne!(quotients[0][i], Felt::zero());
    }
}

#[test]
fn transition_next_row_wraps_around() {
    // the column holds its own index plus one; the constraint is the
    // next-row variable alone
    let height: u64 = 4;
    let len: u64 = 16;
    let codeword: Vec<Felt> = (0..len).map(|i| Felt::new(i + 1)).collect();
    let next_only = MultivariatePolynomial::new(vec![vec![0, 1]], vec![Felt::one()]);
    let quotients =
        transition_quotient_codewords(height as usize, len as usize, &[codeword.clone()], &[next_only])
            .unwrap();
    let step = len / height;
    for i in 0..len {
        let x = domain_point(len, i);
        let zerofier_inverse = x
            .pow(height)
            .sub(Felt::one())
            .inverse()
            .unwrap()
            .mul(x.sub(last_row_point(height)));
        let next = codeword[((i + step) % len) as usize];
        assert_eq!(quotients[0][i as usize], next.mul(zerofier_inverse));
    }
    // at i = len - len/height the next row is the first row
    let i = len - step;
    let x = domain_point(len, i);
    let zerofier_inverse =
        x.pow(height).sub(Felt::one()).inverse().unwrap().mul(x.sub(last_row_point(height)));
    assert_eq!(quotients[0][i as usize], codeword[0].mul(zerofier_inverse));
}

#[test]
fn boundary_quotient_divides_by_x_minus_one() {
    let len: u64 = 8;
    let codeword: Vec<Felt> = (0..len).map(|i| Felt::new(3 * i + 2)).collect();
    let quotients = boundary_quotient_codewords(len as usize, &[codeword.clone()], &[cube()]).unwrap();
    for i in 0..len {
        let x = domain_point(len, i);
        let value = codeword[i as usize].pow(3);
        assert_eq!(quotients[0][i as usize].mul(x.sub(Felt::one())), value);
    }
}

#[test]
fn terminal_quotient_divides_by_x_minus_last_row() {
    let len: u64 = 8;
    let height: u64 = 4;
    let codeword: Vec<Felt> = (0..len).map(|i| Felt::new(5 * i + 1)).collect();
    let quotients =
        terminal_quotient_codewords(height as usize, len as usize, &[codeword.clone()], &[cube()])
            .unwrap();
    for i in 0..len {
        let x = domain_point(len, i);
        let value = codeword[i as usize].pow(3);
        assert_eq!(quotients[0][i as usize].mul(x.sub(last_row_point(height))), value);
    }
}

#[test]
fn quotients_reject_bad_domains() {
    let codeword: Vec<Felt> = (0..6u64).map(Felt::new).collect();
    assert_eq!(
        boundary_quotient_codewords(6, &[codeword.clone()], &[cube()]),
        Err(ProvingError::InvalidInput)
    );
    let codeword: Vec<Felt> = (0..8u64).map(Felt::new).collect();
    // a codeword of the wrong length
    assert_eq!(
        boundary_quotient_codewords(4, &[codeword.clone()], &[cube()]),
        Err(ProvingError::InvalidInput)
    );
    // a height that is no power of two, and one above the codeword length
    assert_eq!(
        transition_quotient_codewords(3, 8, &[codeword.clone()], &[counter_increment()]),
        Err(ProvingError::InvalidInput)
    );
    assert_eq!(
        transition_quotient_codewords(16, 8, &[codeword.clone()], &[counter_increment()]),
        Err(ProvingError::InvalidInput)
    );
    // a constraint over more variables than there are columns
    assert_eq!(
        boundary_quotient_codewords(8, &[codeword.clone()], &[counter_increment()]),
        Err(ProvingError::InvalidInput)
    );
}

#[test]
fn all_quotients_come_in_fixed_order() {
    let codeword: Vec<Felt> = (0..8u64).map(|i| Felt::new(i * i + 1)).collect();
    let table = CounterTable::new(4, 3);
    let codewords = [codeword];
    let boundary = table.boundary_quotients(8, &codewords, &[]).unwrap();
    let transition = table.transition_quotients(8, &codewords, &[]).unwrap();
    let terminal = table.terminal_quotients(8, &codewords, &[], &[]).unwrap();
    let all = table.all_quotients(8, &codewords, &[], &[]).unwrap();
    assert_eq!(all.len(), 3);
    assert_eq!(all[0], boundary[0]);
    assert_eq!(all[1], transition[0]);
    assert_eq!(all[2], terminal[0]);
}

#[test]
fn boundary_degree_bound_of_height_four_table() {
    // interpolant degree 3, largest exponent 3: 3 * 3 - 1
    let mut table = CounterTable::new(4, 3);
    table.set_matrix((0..4u64).map(|i| vec![Felt::new(i)]).collect());
    assert_eq!(table.boundary_quotient_degree_bounds(&[]), vec![8]);
    assert_eq!(table.terminal_quotient_degree_bounds(&[], &[]), vec![8]);
    // the transition constraint has degree 1 in each variable: 3 - (4 - 1)
    assert_eq!(table.transition_quotient_degree_bounds(&[]), vec![0]);
    assert_eq!(table.all_quotient_degree_bounds(&[], &[]), vec![8, 0, 8]);
}

#[test]
fn max_degree_of_empty_table_is_one() {
    let table = CounterTable::new(0, 0);
    assert!(table.is_empty());
    assert_eq!(table.max_degree(), 1);
}

#[test]
fn max_degree_subtracts_the_length() {
    let mut table = CounterTable::new(4, 9);
    table.set_matrix((0..4u64).map(|i| vec![Felt::new(i)]).collect());
    // degree bound 9, less the 3 rows that the zerofier covers
    assert_eq!(table.max_degree(), 6);
}

#[test]
fn degree_bounds_exact_values() {
    // x0^3 and x0 x1^2 with every variable of degree at most 5, less a
    // zerofier of degree 4: 15 - 4 and 15 - 4
    let constraints = vec![
        cube(),
        MultivariatePolynomial::new(vec![vec![1, 2]], vec![Felt::one()]),
        counter_increment(),
    ];
    assert_eq!(quotient_degree_bounds(&constraints, 5, 2, 4), vec![11, 11, 1]);
    // a bound below the degree of the zerofier gives 0
    assert_eq!(quotient_degree_bounds(&constraints, 1, 2, 4), vec![0, 0, 0]);
    // a variable beyond the width has the same bound
    assert_eq!(quotient_degree_bounds(&constraints, 5, 1, 4), vec![11, 11, 1]);
    assert_eq!(max_quotient_degree(&constraints, 5, 2, 4), 11);
    assert_eq!(max_quotient_degree(&constraints, 1, 2, 4), 1);
    assert_eq!(max_quotient_degree(&[], 5, 2, 4), 1);
}
