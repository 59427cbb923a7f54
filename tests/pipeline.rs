use rust_rl::segment::{fitting_plan, SegmentTypes, StageTarget};

#[test]
fn only_networks_are_trained() {
    assert!(SegmentTypes::FlexibleNetwork.can_fitting());
    assert!(!SegmentTypes::FunctionSegment.can_fitting());
    assert!(!SegmentTypes::MultiSegNetwork.can_fitting());
}

#[test]
fn network_before_transform_trains_toward_its_next_input() {
    assert_eq!(fitting_plan(&vec![true, false]), vec![(0, StageTarget::InputOf(1))]);
}

#[test]
fn last_stage_trains_toward_pipeline_target() {
    assert_eq!(fitting_plan(&vec![false, true]), vec![(1, StageTarget::PipelineTarget)]);
    assert_eq!(fitting_plan(&vec![true]), vec![(0, StageTarget::PipelineTarget)]);
}

#[test]
fn every_trainable_stage_is_planned_in_order() {
    assert_eq!(
        fitting_plan(&vec![true, false, true]),
        vec![(0, StageTarget::InputOf(1)), (2, StageTarget::PipelineTarget)]
    );
    assert!(fitting_plan(&vec![false, false]).is_empty());
    assert!(fitting_plan(&Vec::new()).is_empty());
}
