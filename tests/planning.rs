use zipmerge::plan::plan_create;
use zipmerge::plan::plan_update;
use zipmerge::plan::Step;
use zipmerge::publish::publish_next;
use zipmerge::publish::publish_start;
use zipmerge::publish::PublishAction;
use zipmerge::publish::PublishEvent;
use zipmerge::publish::PublishState;

fn names(v: &[&str]) -> Vec<String> {
    v.iter().map(|s| s.to_string()).collect()
}

#[test]
fn plan_update_replaces_in_place_and_appends_new() {
    let steps = plan_update(&names(&["A", "B", "C"]), &names(&["B", "D"]), &vec![true, true]);
    assert_eq!(
        steps,
        vec![
            Step::Copy { at: 0 },
            Step::Replace { at: 1, source: 0 },
            Step::Copy { at: 2 },
            Step::Add { source: 1 },
        ]
    );
}

#[test]
fn plan_update_takes_first_of_equal_candidates() {
    let steps = plan_update(&names(&["A"]), &names(&["A", "A"]), &vec![true, true]);
    assert_eq!(steps, vec![Step::Replace { at: 0, source: 0 }]);
}

#[test]
fn plan_create_marks_missing() {
    let steps = plan_create(&names(&["x", "y"]), &vec![false, true]);
    assert_eq!(steps, vec![Step::Missing { source: 0 }, Step::Add { source: 1 }]);
}

#[test]
fn publish_falls_back_to_copy_across_devices() {
    let (s, a) = publish_start();
    assert_eq!(a, PublishAction::RemoveOriginal);
    let (s, a) = publish_next(s, PublishEvent::Succeeded);
    assert_eq!(a, PublishAction::MoveTemp);
    let (s, a) = publish_next(s, PublishEvent::CrossDevice);
    assert_eq!(a, PublishAction::CopyTemp);
    let (s, a) = publish_next(s, PublishEvent::Succeeded);
    assert_eq!(a, PublishAction::RemoveTemp);
    let (s, a) = publish_next(s, PublishEvent::Succeeded);
    assert_eq!((s, a), (PublishState::Published, PublishAction::Stop));
}

#[test]
fn publish_by_rename() {
    let (s, _) = publish_start();
    let (s, _) = publish_next(s, PublishEvent::Succeeded);
    assert_eq!(publish_next(s, PublishEvent::Succeeded), (PublishState::Published, PublishAction::Stop));
}

#[test]
fn publish_other_rename_failure_strands_temp() {
    let (s, _) = publish_start();
    let (s, _) = publish_next(s, PublishEvent::Succeeded);
    assert_eq!(publish_next(s, PublishEvent::Failed), (PublishState::Stranded, PublishAction::Stop));
}

#[test]
fn publish_failed_removal_of_original_stops() {
    let (s, _) = publish_start();
    assert_eq!(publish_next(s, PublishEvent::Failed), (PublishState::Stranded, PublishAction::Stop));
}

#[test]
fn publish_copy_then_failed_temp_removal() {
    let s = PublishState::RemovingTemp;
    assert_eq!(publish_next(s, PublishEvent::Failed), (PublishState::PublishedTempLeft, PublishAction::Stop));
}

#[test]
fn entry_names_are_final_components() {
    let paths = names(&["dir/sub/a.txt", "b.txt", "/", "x/y/"]);
    assert_eq!(zipmerge::plan::entry_names_for(&paths), names(&["a.txt", "b.txt", "", "y"]));
}

#[test]
fn plan_update_reports_missing_new_candidate() {
    let steps = plan_update(&names(&["A"]), &names(&["B", "C"]), &vec![false, true]);
    assert_eq!(steps, vec![Step::Copy { at: 0 }, Step::Missing { source: 0 }, Step::Add { source: 1 }]);
}

#[test]
fn plan_update_adds_a_repeated_new_name_once() {
    let steps = plan_update(&names(&["A"]), &names(&["D", "D"]), &vec![true, true]);
    assert_eq!(steps, vec![Step::Copy { at: 0 }, Step::Add { source: 0 }]);
}
