use lab_checker::github::RepoState;
use lab_checker::lab::{
    after_build, after_test, select_students, test_verdict, updated_students, CheckAction,
    LabError,
};
use lab_checker::program::RunnerError;

#[test]
fn verdict_time_limit_comes_first() {
    assert_eq!(
        test_verdict(3, true, Err(RunnerError::RuntimeError("x".to_string())), "1"),
        Err(LabError::TimeLimit(3))
    );
    assert_eq!(test_verdict(0, true, Ok("1".to_string()), "1"), Err(LabError::TimeLimit(0)));
}

#[test]
fn verdict_compares_trimmed_output() {
    assert_eq!(test_verdict(1, false, Ok(" 42\n".to_string()), "42\n\n"), Ok(()));
    assert_eq!(test_verdict(1, false, Ok("41".to_string()), "42"), Err(LabError::WrongAnswer(1)));
}

#[test]
fn verdict_runtime_error() {
    assert_eq!(
        test_verdict(2, false, Err(RunnerError::RuntimeError("boom".to_string())), "42"),
        Err(LabError::RuntimeError(2, RunnerError::RuntimeError("boom".to_string())))
    );
}

#[test]
fn check_steps() {
    assert_eq!(
        after_build(Err(RunnerError::CompilationError("e".to_string())), 3),
        CheckAction::Finish(Err(LabError::BuildError(RunnerError::CompilationError(
            "e".to_string()
        ))))
    );
    assert_eq!(after_build(Ok(()), 0), CheckAction::Finish(Ok(())));
    assert_eq!(after_build(Ok(()), 2), CheckAction::RunTest(0));
    assert_eq!(after_test(0, 2, Ok(())), CheckAction::RunTest(1));
    assert_eq!(after_test(1, 2, Ok(())), CheckAction::Finish(Ok(())));
    assert_eq!(
        after_test(0, 2, Err(LabError::WrongAnswer(0))),
        CheckAction::Finish(Err(LabError::WrongAnswer(0)))
    );
}

fn drive(build: Result<(), RunnerError>, verdicts: &[Result<(), LabError>]) -> (Result<(), LabError>, usize) {
    let mut ran = 0;
    let mut action = after_build(build, verdicts.len());
    loop {
        match action {
            CheckAction::RunTest(i) => {
                ran += 1;
                action = after_test(i, verdicts.len(), verdicts[i].clone());
            }
            CheckAction::Finish(r) => return (r, ran),
        }
    }
}

#[test]
fn check_stops_at_first_failed_test() {
    let vs = vec![Ok(()), Err(LabError::WrongAnswer(1)), Err(LabError::TimeLimit(2))];
    assert_eq!(drive(Ok(()), &vs), (Err(LabError::WrongAnswer(1)), 2));
    assert_eq!(drive(Ok(()), &[Ok(()), Ok(())]), (Ok(()), 2));
    assert_eq!(
        drive(Err(RunnerError::ProcessSpawnError("x".to_string())), &vs),
        (Err(LabError::BuildError(RunnerError::ProcessSpawnError("x".to_string()))), 0)
    );
}

fn strings(v: &[&str]) -> Vec<String> {
    v.iter().map(|s| s.to_string()).collect()
}

#[test]
fn select_students_keeps_order_of_all() {
    let all = strings(&["petrov", "ivanov", "sidorov"]);
    let names = strings(&["sidorov", "petrov", "nobody"]);
    assert_eq!(select_students(&all, &names), strings(&["petrov", "sidorov"]));
    assert_eq!(select_students(&all, &vec![]), Vec::<String>::new());
}

#[test]
fn updated_students_filters_changed() {
    let names = strings(&["a", "b", "c"]);
    let states: Vec<Result<RepoState, String>> =
        vec![Ok(RepoState::Updated), Ok(RepoState::Old), Ok(RepoState::Updated)];
    assert_eq!(updated_students(&names, states), Ok(strings(&["a", "c"])));
}

#[test]
fn updated_students_reports_first_error() {
    let names = strings(&["a", "b", "c"]);
    let states: Vec<Result<RepoState, String>> =
        vec![Ok(RepoState::Updated), Err("net".to_string()), Err("disk".to_string())];
    assert_eq!(updated_students(&names, states), Err("net".to_string()));
}
