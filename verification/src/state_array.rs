//! The demonstration state: a bounded integer vector, with arithmetic move
//! operators that clamp their result to the valid domain.

use vstd::prelude::*;

use crate::constants::{STATE_SIZE, STATE_VALUE_MAX, STATE_VALUE_MIN};
use crate::types::State;
use crate::utils::random_array;

verus! {

/// A fixed-size vector of bounded integers: one point in the demonstration
/// search space.
#[derive(Clone, Copy, Debug)]
pub struct StateArray(pub [i32; STATE_SIZE]);

impl PartialEq for StateArray {
    fn eq(&self, other: &StateArray) -> (r: bool) {
        let mut k: usize = 0;
        let mut all_equal: bool = true;

        while k < STATE_SIZE
            invariant
                k <= STATE_SIZE,
                all_equal == (forall|j: int| 0 <= j < k ==> self.0[j] == other.0[j]),
            decreases STATE_SIZE - k,
        {
            if self.0[k] != other.0[k] {
                all_equal = false;
            }
            k += 1;
        }

        proof {
            if all_equal {
                assert(self.0 =~= other.0);
            }
        }
        all_equal
    }
}

impl Eq for StateArray {

}

impl vstd::std_specs::cmp::PartialEqSpecImpl for StateArray {
    open spec fn obeys_eq_spec() -> bool {
        true
    }

    open spec fn eq_spec(&self, other: &StateArray) -> bool {
        self.0 == other.0
    }
}

/// One arithmetic move operator on a single coordinate.
#[derive(Clone, Copy, Debug, PartialEq, Eq, Structural)]
pub enum ArrayOp {
    AddOne,
    SubOne,
    MultiplyTwo,
    DivideTwo,
    MultiplyThree,
    DivideThree,
    MultiplyFive,
    DivideFive,
    MultiplySeven,
    DivideSeven,
    MultiplyEleven,
    DivideEleven,
}

/// One legal move: apply `op` to coordinate `index` and clamp the result.
/// A move whose coordinate lies out of range acts as the identity.
#[derive(Clone, Copy, Debug, PartialEq, Eq, Structural)]
pub struct ArrayMutation {
    pub index: usize,
    pub op: ArrayOp,
}

/// Builds the move that applies `op` to coordinate `index`.
pub fn make_mutation(index: usize, op: ArrayOp) -> (m: ArrayMutation)
    ensures
        m == (ArrayMutation { index, op }),
{
    ArrayMutation { index, op }
}

/// Truncating division (rounding toward zero), as the move operators compute
/// it.
pub open spec fn tdiv(a: int, b: int) -> int {
    if a >= 0 {
        a / b
    } else {
        -((-a) / b)
    }
}

/// The unclamped arithmetic meaning of one operator.
pub open spec fn apply_op_spec(op: ArrayOp, x: int) -> int {
    match op {
        ArrayOp::AddOne => x + 1,
        ArrayOp::SubOne => x - 1,
        ArrayOp::MultiplyTwo => 2 * x,
        ArrayOp::DivideTwo => tdiv(x, 2),
        ArrayOp::MultiplyThree => 3 * x,
        ArrayOp::DivideThree => tdiv(x, 3),
        ArrayOp::MultiplyFive => 5 * x,
        ArrayOp::DivideFive => tdiv(x, 5),
        ArrayOp::MultiplySeven => 7 * x,
        ArrayOp::DivideSeven => tdiv(x, 7),
        ArrayOp::MultiplyEleven => 11 * x,
        ArrayOp::DivideEleven => tdiv(x, 11),
    }
}

/// Clamps a value to the valid coordinate domain.
pub open spec fn clamp_spec(x: int) -> int {
    if x < STATE_VALUE_MIN as int {
        STATE_VALUE_MIN as int
    } else if x > STATE_VALUE_MAX as int {
        STATE_VALUE_MAX as int
    } else {
        x
    }
}

/// The operator kind at position `code` of a coordinate's operator block.
pub open spec fn op_code(code: int) -> ArrayOp {
    if code == 0 {
        ArrayOp::AddOne
    } else if code == 1 {
        ArrayOp::SubOne
    } else if code == 2 {
        ArrayOp::MultiplyTwo
    } else if code == 3 {
        ArrayOp::DivideTwo
    } else if code == 4 {
        ArrayOp::MultiplyThree
    } else if code == 5 {
        ArrayOp::DivideThree
    } else if code == 6 {
        ArrayOp::MultiplyFive
    } else if code == 7 {
        ArrayOp::DivideFive
    } else if code == 8 {
        ArrayOp::MultiplySeven
    } else if code == 9 {
        ArrayOp::DivideSeven
    } else if code == 10 {
        ArrayOp::MultiplyEleven
    } else {
        ArrayOp::DivideEleven
    }
}

/// The operator kind at position `code`, executable form.
fn op_from_code(code: usize) -> (op: ArrayOp)
    requires
        code < 12,
    ensures
        op == op_code(code as int),
{
    if code == 0 {
        ArrayOp::AddOne
    } else if code == 1 {
        ArrayOp::SubOne
    } else if code == 2 {
        ArrayOp::MultiplyTwo
    } else if code == 3 {
        ArrayOp::DivideTwo
    } else if code == 4 {
        ArrayOp::MultiplyThree
    } else if code == 5 {
        ArrayOp::DivideThree
    } else if code == 6 {
        ArrayOp::MultiplyFive
    } else if code == 7 {
        ArrayOp::DivideFive
    } else if code == 8 {
        ArrayOp::MultiplySeven
    } else if code == 9 {
        ArrayOp::DivideSeven
    } else if code == 10 {
        ArrayOp::MultiplyEleven
    } else {
        ArrayOp::DivideEleven
    }
}

/// Truncating division of `x` by a positive divisor, computed over
/// magnitudes so that no intermediate step leaves the valid range.
fn div_trunc(x: i64, d: i64) -> (r: i64)
    requires
        d >= 1,
        x > i64::MIN,
    ensures
        r == tdiv(x as int, d as int),
{
    if x >= 0 {
        ((x as u64) / (d as u64)) as i64
    } else {
        let m: u64 = (-x) as u64;
        -((m / (d as u64)) as i64)
    }
}

impl State for StateArray {
    type Mutation = ArrayMutation;

    open spec fn valid(self) -> bool {
        forall|k: int|
            0 <= k < STATE_SIZE ==> STATE_VALUE_MIN <= #[trigger] self.0[k] <= STATE_VALUE_MAX
    }

    open spec fn apply_spec(self, m: ArrayMutation) -> Self {
        if m.index >= STATE_SIZE {
            self
        } else {
            StateArray(
                vstd::array::spec_array_update(
                    self.0,
                    m.index as int,
                    clamp_spec(apply_op_spec(m.op, self.0[m.index as int] as int)) as i32,
                ),
            )
        }
    }

    open spec fn mutation_seq() -> Seq<ArrayMutation> {
        Seq::new(
            (STATE_SIZE * 12) as nat,
            |i: int| ArrayMutation { index: (i / 12) as usize, op: op_code(i % 12) },
        )
    }

    fn apply(self, m: ArrayMutation) -> (r: Self) {
        if m.index >= STATE_SIZE {
            return self;
        }
        let x: i64 = self.0[m.index] as i64;
        let y: i64 = match m.op {
            ArrayOp::AddOne => x + 1,
            ArrayOp::SubOne => x - 1,
            ArrayOp::MultiplyTwo => 2 * x,
            ArrayOp::DivideTwo => div_trunc(x, 2),
            ArrayOp::MultiplyThree => 3 * x,
            ArrayOp::DivideThree => div_trunc(x, 3),
            ArrayOp::MultiplyFive => 5 * x,
            ArrayOp::DivideFive => div_trunc(x, 5),
            ArrayOp::MultiplySeven => 7 * x,
            ArrayOp::DivideSeven => div_trunc(x, 7),
            ArrayOp::MultiplyEleven => 11 * x,
            ArrayOp::DivideEleven => div_trunc(x, 11),
        };
        let clamped: i32 = if y < STATE_VALUE_MIN as i64 {
            STATE_VALUE_MIN
        } else if y > STATE_VALUE_MAX as i64 {
            STATE_VALUE_MAX
        } else {
            y as i32
        };
        let mut new_state = self;
        new_state.0[m.index] = clamped;
        proof {
            assert(new_state.0 =~= self.apply_spec(m).0);
        }
        new_state
    }

    fn eq_state(&self, other: &Self) -> (r: bool) {
        *self == *other
    }

    fn get_possible_mutations() -> (ms: Vec<ArrayMutation>) {
        let mut ms: Vec<ArrayMutation> = Vec::new();
        let total: usize = STATE_SIZE * 12;

        for i in 0..total
            invariant
                total == STATE_SIZE * 12,
                ms@.len() == i,
                forall|j: int| 0 <= j < i ==> ms@[j] == Self::mutation_seq()[j],
        {
            let m = make_mutation(i / 12, op_from_code(i % 12));
            proof {
                assert(m == Self::mutation_seq()[i as int]);
            }
            ms.push(m);
        }

        proof {
            assert(ms@ =~= Self::mutation_seq());
        }
        ms
    }

    fn random_state() -> (s: Self)
        ensures
            forall|k: int|
                0 <= k < STATE_SIZE ==> STATE_VALUE_MIN <= #[trigger] s.0[k] < STATE_VALUE_MAX,
    {
        StateArray(random_array(STATE_VALUE_MIN, STATE_VALUE_MAX))
    }
}

} // verus!
