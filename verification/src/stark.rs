//! Parameters of the proof system and the prover that owns the tables.

use vstd::prelude::*;
use vstd::arithmetic::mul::*;
use crate::field::Felt;
use crate::powers_of_two::{is_pow2, lemma_next_pow2_properties, next_pow2, next_power_of_two};
use crate::prover::ProvingError;
use crate::table::Table;

verus! {

/// Parameters of the proof system.
#[derive(Debug, Clone, Copy)]
pub struct StarkParams {
    /// power of 2 expansion factor
    expansion_factor: usize,
    /// security level of generated proofs
    security_level: usize,
}

impl StarkParams {
    #[verifier::type_invariant]
    spec fn valid(self) -> bool {
        self.expansion_factor >= 4 && is_pow2(self.expansion_factor as int)
    }

    /// The expansion factor, as a mathematical value.
    pub closed spec fn spec_expansion_factor(&self) -> nat {
        self.expansion_factor as nat
    }

    /// The security level, as a mathematical value.
    pub closed spec fn spec_security_level(&self) -> nat {
        self.security_level as nat
    }

    /// Parameters with the given expansion factor, a power of two that is
    /// at least 4, and security level.
    pub fn new(expansion_factor: usize, security_level: usize) -> (r: StarkParams)
        requires
            expansion_factor >= 4,
            is_pow2(expansion_factor as int),
        ensures
            r.spec_expansion_factor() == expansion_factor,
            r.spec_security_level() == security_level,
    {
        StarkParams { expansion_factor, security_level }
    }

    /// The number of randomizer rows that blind a trace: the security
    /// level.
    pub fn num_randomizers(&self) -> (r: usize)
        ensures
            r == self.spec_security_level(),
    {
        self.security_level
    }

    /// The security level of generated proofs.
    pub fn security_level(&self) -> (r: usize)
        ensures
            r == self.spec_security_level(),
    {
        self.security_level
    }

    /// The expansion factor: by how much codewords are longer than the
    /// trace, a power of two that is at least 4.
    pub fn expansion_factor(&self) -> (r: usize)
        ensures
            r == self.spec_expansion_factor(),
            r >= 4,
            is_pow2(r as int),
    {
        proof {
            use_type_invariant(self);
        }
        self.expansion_factor
    }
}

/// The prover for one execution: it owns the parameters and the five
/// tables of the trace.
pub struct BrainFuckStark<P: Table, M: Table, I: Table, N: Table, O: Table> {
    params: StarkParams,
    processor_table: P,
    memory_table: M,
    instruction_table: I,
    input_table: N,
    output_table: O,
}

/// The largest of five lengths.
pub open spec fn largest(a: int, b: int, c: int, d: int, e: int) -> int {
    let ab: int = if a >= b {
        a
    } else {
        b
    };
    let cd: int = if c >= d {
        c
    } else {
        d
    };
    let abcd: int = if ab >= cd {
        ab
    } else {
        cd
    };
    if abcd >= e {
        abcd
    } else {
        e
    }
}

/// The largest of five lengths.
pub fn largest_of(a: usize, b: usize, c: usize, d: usize, e: usize) -> (r: usize)
    ensures
        r == largest(a as int, b as int, c as int, d as int, e as int),
{
    let ab: usize = if a >= b {
        a
    } else {
        b
    };
    let cd: usize = if c >= d {
        c
    } else {
        d
    };
    let abcd: usize = if ab >= cd {
        ab
    } else {
        cd
    };
    if abcd >= e {
        abcd
    } else {
        e
    }
}

/// Rounds the input value up the the nearest power of two
pub fn ceil_power_of_two(value: usize) -> (r: usize)
    requires
        next_pow2(value as int) <= usize::MAX,
    ensures
        r == next_pow2(value as int),
{
    match next_power_of_two(value) {
        Some(v) => v,
        None => value,
    }
}

/// The length of the codewords for quotients of degree at most
/// `max_degree`: that degree rounded up to a power of two, times the
/// expansion factor; `None` where that does not fit a machine word.
pub fn codeword_length(max_degree: usize, expansion_factor: usize) -> (r: Option<usize>)
    ensures
        r is Some <==> next_pow2(max_degree as int) * expansion_factor <= usize::MAX,
        r matches Some(n) ==> n == next_pow2(max_degree as int) * expansion_factor,
{
    proof {
        lemma_next_pow2_properties(max_degree as int);
    }
    match next_power_of_two(max_degree) {
        Some(v) => v.checked_mul(expansion_factor),
        None => {
            proof {
                if expansion_factor == 0 {
                    assert(next_pow2(max_degree as int) * 0 == 0);
                } else {
                    lemma_mul_increases(expansion_factor as int, next_pow2(max_degree as int));
                    lemma_mul_is_commutative(
                        expansion_factor as int,
                        next_pow2(max_degree as int),
                    );
                }
            }
            if expansion_factor == 0 {
                Some(0)
            } else {
                None
            }
        },
    }
}

/// The height to which the tables of a trace are padded: the largest
/// number of rows of any of the five matrices, rounded up to a power of
/// two.
pub open spec fn padded_height(
    processor: usize,
    memory: usize,
    instruction: usize,
    input: usize,
    output: usize,
) -> usize {
    next_pow2(
        largest(processor as int, memory as int, instruction as int, input as int, output as int),
    ) as usize
}

/// `r` is the codeword length for quotients of degree at most
/// `max_degree`: that degree rounded up to a power of two, times the
/// expansion factor, or an error where that does not fit a machine word.
pub open spec fn is_codeword_length(
    max_degree: int,
    expansion_factor: int,
    r: Result<usize, ProvingError>,
) -> bool {
    if next_pow2(max_degree) * expansion_factor <= usize::MAX {
        r == Ok::<usize, ProvingError>((next_pow2(max_degree) * expansion_factor) as usize)
    } else {
        r == Err::<usize, ProvingError>(ProvingError::InvalidInput)
    }
}

impl<P: Table, M: Table, I: Table, N: Table, O: Table> BrainFuckStark<P, M, I, N, O> {
    /// The parameters that the prover was made with.
    pub closed spec fn spec_params(&self) -> StarkParams {
        self.params
    }

    /// A prover with the given parameters that owns the given tables,
    /// which are still to be filled.
    pub fn new(
        params: StarkParams,
        processor_table: P,
        memory_table: M,
        instruction_table: I,
        input_table: N,
        output_table: O,
    ) -> (r: Self)
        ensures
            r.spec_params() == params,
            r.spec_processor_table() == processor_table,
            r.spec_memory_table() == memory_table,
            r.spec_instruction_table() == instruction_table,
            r.spec_input_table() == input_table,
            r.spec_output_table() == output_table,
    {
        BrainFuckStark {
            params,
            processor_table,
            memory_table,
            instruction_table,
            input_table,
            output_table,
        }
    }

    /// The processor table.
    pub closed spec fn spec_processor_table(&self) -> P {
        self.processor_table
    }

    /// The memory table.
    pub closed spec fn spec_memory_table(&self) -> M {
        self.memory_table
    }

    /// The instruction table.
    pub closed spec fn spec_instruction_table(&self) -> I {
        self.instruction_table
    }

    /// The input table.
    pub closed spec fn spec_input_table(&self) -> N {
        self.input_table
    }

    /// The output table.
    pub closed spec fn spec_output_table(&self) -> O {
        self.output_table
    }

    /// The length of the codewords that the low-degree test will work on:
    /// the largest quotient degree of any table, rounded up to a power of
    /// two, times the expansion factor. The processor table must hold
    /// rows, and the length must fit a machine word.
    pub fn fri_codeword_length(&self) -> (r: Result<usize, ProvingError>)
        ensures
            exists|empty: bool|
                {
                    &&& #[trigger] call_ensures(
                        P::is_empty,
                        (&self.spec_processor_table(),),
                        empty,
                    )
                    &&& empty ==> r == Err::<usize, ProvingError>(ProvingError::InvalidInput)
                    &&& !empty ==> exists|
                        processor: usize,
                        memory: usize,
                        instruction: usize,
                        input: usize,
                        output: usize,
                    |
                        {
                            &&& #[trigger] call_ensures(
                                P::max_degree,
                                (&self.spec_processor_table(),),
                                processor,
                            )
                            &&& #[trigger] call_ensures(
                                M::max_degree,
                                (&self.spec_memory_table(),),
                                memory,
                            )
                            &&& #[trigger] call_ensures(
                                I::max_degree,
                                (&self.spec_instruction_table(),),
                                instruction,
                            )
                            &&& #[trigger] call_ensures(
                                N::max_degree,
                                (&self.spec_input_table(),),
                                input,
                            )
                            &&& #[trigger] call_ensures(
                                O::max_degree,
                                (&self.spec_output_table(),),
                                output,
                            )
                            &&& is_codeword_length(
                                largest(
                                    processor as int,
                                    memory as int,
                                    instruction as int,
                                    input as int,
                                    output as int,
                                ),
                                self.spec_params().spec_expansion_factor() as int,
                                r,
                            )
                        }
                },
    {
        let empty: bool = self.processor_table.is_empty();
        proof {
            assert(call_ensures(P::is_empty, (&self.spec_processor_table(),), empty));
        }
        if empty {
            return Err(ProvingError::InvalidInput);
        }
        let processor: usize = self.processor_table.max_degree();
        let memory: usize = self.memory_table.max_degree();
        let instruction: usize = self.instruction_table.max_degree();
        let input: usize = self.input_table.max_degree();
        let output: usize = self.output_table.max_degree();
        let max_degree: usize = largest_of(processor, memory, instruction, input, output);
        let expansion_factor: usize = self.params.expansion_factor();
        let r: Result<usize, ProvingError> = match codeword_length(max_degree, expansion_factor) {
            Some(n) => Ok(n),
            None => Err(ProvingError::InvalidInput),
        };
        proof {
            assert(call_ensures(P::max_degree, (&self.spec_processor_table(),), processor));
            assert(call_ensures(M::max_degree, (&self.spec_memory_table(),), memory));
            assert(call_ensures(I::max_degree, (&self.spec_instruction_table(),), instruction));
            assert(call_ensures(N::max_degree, (&self.spec_input_table(),), input));
            assert(call_ensures(O::max_degree, (&self.spec_output_table(),), output));
            assert(is_codeword_length(
                largest(
                    processor as int,
                    memory as int,
                    instruction as int,
                    input as int,
                    output as int,
                ),
                self.spec_params().spec_expansion_factor() as int,
                r,
            ));
        }
        r
    }

    /// Fills the five tables with the rows of the trace and pads each to
    /// the same height: the largest number of rows of any of them, rounded
    /// up to a power of two. Every table ends as its `set_matrix` leaves it
    /// on its own matrix, followed by its `pad` on that height; the
    /// parameters stay as they are, and the proof that is returned is
    /// still empty.
    pub fn prove(
        &mut self,
        processor_matrix: Vec<Vec<Felt>>,
        memory_matrix: Vec<Vec<Felt>>,
        instruction_matrix: Vec<Vec<Felt>>,
        input_matrix: Vec<Vec<Felt>>,
        output_matrix: Vec<Vec<Felt>>,
    ) -> (r: Vec<u8>)
        requires
            next_pow2(
                largest(
                    processor_matrix.len() as int,
                    memory_matrix.len() as int,
                    instruction_matrix.len() as int,
                    input_matrix.len() as int,
                    output_matrix.len() as int,
                ),
            ) <= usize::MAX,
        ensures
            r@ == Seq::<u8>::empty(),
            final(self).spec_params() == old(self).spec_params(),
            exists|filling: &mut P, padding: &mut P|
                {
                    &&& *filling == old(self).spec_processor_table()
                    &&& #[trigger] call_ensures(P::set_matrix, (filling, processor_matrix), ())
                    &&& *padding == *final(filling)
                    &&& #[trigger] call_ensures(
                        P::pad,
                        (
                            padding,
                            padded_height(
                                processor_matrix.len(),
                                memory_matrix.len(),
                                instruction_matrix.len(),
                                input_matrix.len(),
                                output_matrix.len(),
                            ),
                        ),
                        (),
                    )
                    &&& *final(padding) == final(self).spec_processor_table()
                },
            exists|filling: &mut M, padding: &mut M|
                {
                    &&& *filling == old(self).spec_memory_table()
                    &&& #[trigger] call_ensures(M::set_matrix, (filling, memory_matrix), ())
                    &&& *padding == *final(filling)
                    &&& #[trigger] call_ensures(
                        M::pad,
                        (
                            padding,
                            padded_height(
                                processor_matrix.len(),
                                memory_matrix.len(),
                                instruction_matrix.len(),
                                input_matrix.len(),
                                output_matrix.len(),
                            ),
                        ),
                        (),
                    )
                    &&& *final(padding) == final(self).spec_memory_table()
                },
            exists|filling: &mut I, padding: &mut I|
                {
                    &&& *filling == old(self).spec_instruction_table()
                    &&& #[trigger] call_ensures(I::set_matrix, (filling, instruction_matrix), ())
                    &&& *padding == *final(filling)
                    &&& #[trigger] call_ensures(
                        I::pad,
                        (
                            padding,
                            padded_height(
                                processor_matrix.len(),
                                memory_matrix.len(),
                                instruction_matrix.len(),
                                input_matrix.len(),
                                output_matrix.len(),
                            ),
                        ),
                        (),
                    )
                    &&& *final(padding) == final(self).spec_instruction_table()
                },
            exists|filling: &mut N, padding: &mut N|
                {
                    &&& *filling == old(self).spec_input_table()
                    &&& #[trigger] call_ensures(N::set_matrix, (filling, input_matrix), ())
                    &&& *padding == *final(filling)
                    &&& #[trigger] call_ensures(
                        N::pad,
                        (
                            padding,
                            padded_height(
                                processor_matrix.len(),
                                memory_matrix.len(),
                                instruction_matrix.len(),
                                input_matrix.len(),
                                output_matrix.len(),
                            ),
                        ),
                        (),
                    )
                    &&& *final(padding) == final(self).spec_input_table()
                },
            exists|filling: &mut O, padding: &mut O|
                {
                    &&& *filling == old(self).spec_output_table()
                    &&& #[trigger] call_ensures(O::set_matrix, (filling, output_matrix), ())
                    &&& *padding == *final(filling)
                    &&& #[trigger] call_ensures(
                        O::pad,
                        (
                            padding,
                            padded_height(
                                processor_matrix.len(),
                                memory_matrix.len(),
                                instruction_matrix.len(),
                                input_matrix.len(),
                                output_matrix.len(),
                            ),
                        ),
                        (),
                    )
                    &&& *final(padding) == final(self).spec_output_table()
                },
    {
        let padding_length: usize = {
            let max_length: usize = largest_of(
                processor_matrix.len(),
                memory_matrix.len(),
                instruction_matrix.len(),
                input_matrix.len(),
                output_matrix.len(),
            );
            ceil_power_of_two(max_length)
        };
        proof {
            assert(padding_length == padded_height(
                processor_matrix.len(),
                memory_matrix.len(),
                instruction_matrix.len(),
                input_matrix.len(),
                output_matrix.len(),
            ));
        }

        self.processor_table.set_matrix(processor_matrix);
        self.memory_table.set_matrix(memory_matrix);
        self.instruction_table.set_matrix(instruction_matrix);
        self.input_table.set_matrix(input_matrix);
        self.output_table.set_matrix(output_matrix);

        // pad tables to height 2^k
        self.processor_table.pad(padding_length);
        self.memory_table.pad(padding_length);
        self.instruction_table.pad(padding_length);
        self.input_table.pad(padding_length);
        self.output_table.pad(padding_length);

        Vec::new()
    }
}

} // verus!
