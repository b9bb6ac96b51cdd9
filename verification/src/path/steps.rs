//! The outcome of one step of an algorithm that runs in steps.

use vstd::prelude::*;

verus! {

/// What a step has to show for itself.
pub enum AlgorithmStepResult<T> {
    Success(T),
    Failed,
    NotExecuted,
}

/// One step of an algorithm: it is run on an input and then asked for what
/// it produced.
pub trait AlgorithmStep {
    type Input;

    type Output;

    fn execute(&mut self, input: &Self::Input);

    fn get_result(&self) -> AlgorithmStepResult<&Self::Output>;
}

} // verus!
