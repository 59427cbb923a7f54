//! Kinds of pipeline stages and the fixed functions of transform stages.
use vstd::prelude::*;

verus! {

/// The kind of a pipeline stage, as recorded in the persisted form.
#[derive(Clone, Copy, Debug, PartialEq, Eq, Structural)]
pub enum SegmentTypes {
    MultiSegNetwork,
    FlexibleNetwork,
    FunctionSegment,
}

/// The fixed vector functions a transform stage may apply: pass-through,
/// division of each element by the sum, and exponentiation followed by that
/// division.
#[derive(Clone, Copy, Debug, PartialEq, Eq, Structural)]
pub enum FunctionSegmentFunctionEnum {
    DoNothing,
    Fraction,
    SoftMax,
}

impl SegmentTypes {
    /// Whether a stage of this kind is trained when its pipeline is: only
    /// a flexible network has parameters to adjust.
    pub fn can_fitting(&self) -> (r: bool)
        ensures
            r == (*self == SegmentTypes::FlexibleNetwork),
    {
        match self {
            SegmentTypes::FlexibleNetwork => true,
            _ => false,
        }
    }
}

/// The target a trainable stage is trained toward.
#[derive(Clone, Copy, Debug, PartialEq, Eq, Structural)]
pub enum StageTarget {
    /// The pipeline's own target, for the last stage.
    PipelineTarget,
    /// The input the given (next) stage received in the last evaluation.
    InputOf(usize),
}

/// The target of stage `i` of a pipeline of `count` stages.
pub open spec fn stage_target(i: int, count: int) -> StageTarget {
    if i == count - 1 {
        StageTarget::PipelineTarget
    } else {
        StageTarget::InputOf((i + 1) as usize)
    }
}

/// The trainable stages among the first `k` of `trainable`, in stage
/// order, each with its target.
pub open spec fn fitting_plan_prefix(trainable: Seq<bool>, k: int) -> Seq<(usize, StageTarget)>
    decreases k,
{
    if k <= 0 {
        Seq::empty()
    } else if trainable[k - 1] {
        fitting_plan_prefix(trainable, k - 1).push(
            ((k - 1) as usize, stage_target(k - 1, trainable.len() as int)),
        )
    } else {
        fitting_plan_prefix(trainable, k - 1)
    }
}

/// How a pipeline whose stages are trainable as `trainable` says passes a
/// training request on: each trainable stage, in stage order, with the
/// target it is trained toward. The last stage is trained toward the
/// pipeline's target; any other toward what the next stage received.
pub fn fitting_plan(trainable: &Vec<bool>) -> (r: Vec<(usize, StageTarget)>)
    ensures
        r@ == fitting_plan_prefix(trainable@, trainable@.len() as int),
{
    let count = trainable.len();
    let mut r: Vec<(usize, StageTarget)> = Vec::new();
    let mut i: usize = 0;
    while i < count
        invariant
            count == trainable@.len(),
            i <= count,
            r@ == fitting_plan_prefix(trainable@, i as int),
        decreases count - i,
    {
        if trainable[i] {
            let target = if i == count - 1 {
                StageTarget::PipelineTarget
            } else {
                StageTarget::InputOf(i + 1)
            };
            r.push((i, target));
        }
        i = i + 1;
    }
    r
}

} // verus!
