use sniprun::error::SniprunError;
use sniprun::interpreter::{first_stage, next_stage, RunNext, RunStage};
use sniprun::interpreter::SupportLevel;

#[test]
fn levels_are_ordered_by_rank() {
    assert!(SupportLevel::Unsupported < SupportLevel::Line);
    assert!(SupportLevel::Line < SupportLevel::Bloc);
    assert!(SupportLevel::Bloc < SupportLevel::Import);
    assert!(SupportLevel::Import < SupportLevel::File);
    assert!(SupportLevel::File < SupportLevel::Project);
    assert!(SupportLevel::Project < SupportLevel::System);
    assert!(SupportLevel::System < SupportLevel::Selected);
    assert!(SupportLevel::File >= SupportLevel::Bloc);
    assert!(!(SupportLevel::Line >= SupportLevel::Bloc));
    assert_eq!(SupportLevel::Import.value(), 5);
    assert_eq!(SupportLevel::Selected.value(), 255);
    assert_eq!(SupportLevel::Line.partial_cmp(&SupportLevel::Line), Some(std::cmp::Ordering::Equal));
}

#[test]
fn level_comparisons_follow_ranks() {
    assert_eq!(SupportLevel::System.partial_cmp(&SupportLevel::Line), Some(std::cmp::Ordering::Greater));
    assert_eq!(SupportLevel::Line.partial_cmp(&SupportLevel::System), Some(std::cmp::Ordering::Less));
    assert!(SupportLevel::Bloc <= SupportLevel::Bloc);
}

#[test]
fn run_stages_stop_at_the_first_error() {
    assert_eq!(first_stage(None), RunNext::Step(RunStage::Fetch));
    assert_eq!(first_stage(Some(Ok(String::from("done")))), RunNext::Done(Ok(String::from("done"))));
    assert_eq!(next_stage(RunStage::Fetch, Ok(())), RunNext::Step(RunStage::Boilerplate));
    assert_eq!(next_stage(RunStage::Boilerplate, Ok(())), RunNext::Step(RunStage::Build));
    assert_eq!(next_stage(RunStage::Build, Ok(())), RunNext::Step(RunStage::Execute));
    let err = SniprunError::CompilationError(String::from("x"));
    assert_eq!(
        next_stage(RunStage::Build, Err(err)),
        RunNext::Done(Err(SniprunError::CompilationError(String::from("x"))))
    );
}
