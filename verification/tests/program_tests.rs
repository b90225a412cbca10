use lab_checker::github::{
    auth_header, clone_url, comments_url, commits_url, latest_commit, pull_state, repo_dir,
    Commit, RepoState,
};
use lab_checker::process::ProcessOutcome;
use lab_checker::program::{Lang, Program, RunnerError};
use lab_checker::runner;
use std::path::PathBuf;

fn exited(success: bool, stdout: &[u8], stderr: &[u8]) -> ProcessOutcome {
    ProcessOutcome::Exited { success, stdout: stdout.to_vec(), stderr: stderr.to_vec() }
}

fn program() -> Program {
    Program::new(Lang::Cpp, None, "lab1".to_string(), "ivanov".to_string())
}

#[test]
fn program_new_keeps_fields() {
    let p = Program::new(Lang::Cpp, Some("abc".to_string()), "r".to_string(), "o".to_string());
    assert_eq!(p.lang, Lang::Cpp);
    assert_eq!(p.last_commit, Some("abc".to_string()));
    assert_eq!(p.repo, "r");
    assert_eq!(p.owner, "o");
}

#[test]
fn program_path_is_under_students() {
    assert_eq!(program().path(), "students/ivanov/lab1");
}

#[test]
fn build_result_cases() {
    let p = program();
    assert_eq!(p.build_result(exited(true, b"", b"warning")), Ok(()));
    assert_eq!(
        p.build_result(exited(false, b"", b"error: x")),
        Err(RunnerError::CompilationError("error: x".to_string()))
    );
    assert_eq!(
        p.build_result(ProcessOutcome::SpawnFailed("no make".to_string())),
        Err(RunnerError::ProcessSpawnError("no make".to_string()))
    );
}

#[test]
fn run_result_cases() {
    let p = program();
    assert_eq!(p.run_result(exited(true, "4\n".as_bytes(), b"")), Ok("4\n".to_string()));
    assert_eq!(
        p.run_result(exited(false, b"", "segfault é".as_bytes())),
        Err(RunnerError::RuntimeError("segfault é".to_string()))
    );
    assert_eq!(
        p.run_result(ProcessOutcome::SpawnFailed("not found".to_string())),
        Err(RunnerError::ProcessSpawnError("not found".to_string()))
    );
}

#[test]
fn comment_only_for_new_commit() {
    let mut p = program();
    assert!(p.needs_comment(&"c1".to_string()));
    p.record_commit("c1".to_string());
    assert_eq!(p.last_commit, Some("c1".to_string()));
    assert!(!p.needs_comment(&"c1".to_string()));
    assert!(p.needs_comment(&"c2".to_string()));
    assert_eq!(p.repo, "lab1");
    assert_eq!(p.owner, "ivanov");
}

#[test]
fn runner_program_cases() {
    let p = runner::Program::new(
        runner::Lang::Cpp,
        PathBuf::from("students/a/b"),
        PathBuf::from("students/a/b/prog.out"),
    );
    assert_eq!(p.path_to_src, PathBuf::from("students/a/b"));
    assert_eq!(p.path_to_exe, PathBuf::from("students/a/b/prog.out"));
    assert_eq!(p.build_result(exited(true, b"", b"")), Ok(()));
    assert_eq!(
        p.build_result(exited(false, b"", b"oops")),
        Err(runner::RunnerError::CompilationError("oops".to_string()))
    );
    assert_eq!(
        p.build_result(ProcessOutcome::SpawnFailed("x".to_string())),
        Err(runner::RunnerError::ProcessSpawnError)
    );
    assert_eq!(p.run_result(exited(true, b"out", b"")), Ok("out".to_string()));
    assert_eq!(
        p.run_result(exited(false, b"", b"bad")),
        Err(runner::RunnerError::RuntimeError("bad".to_string()))
    );
    assert_eq!(
        p.run_result(ProcessOutcome::SpawnFailed("x".to_string())),
        Err(runner::RunnerError::ProcessSpawnError)
    );
}

#[test]
fn addresses_are_built() {
    assert_eq!(repo_dir("ivanov", "lab1"), "students/ivanov/lab1");
    assert_eq!(commits_url("ivanov", "lab1"), "https://api.github.com/repos/ivanov/lab1/commits");
    assert_eq!(
        comments_url("ivanov", "lab1", "abc123"),
        "https://api.github.com/repos/ivanov/lab1/commits/abc123/comments"
    );
    assert_eq!(clone_url("ivanov", "lab1"), "https://github.com/ivanov/lab1");
    assert_eq!(auth_header("SECRET"), "token SECRET");
}

#[test]
fn latest_commit_is_last_listed() {
    let commits = vec![
        Commit { sha: "a1".to_string(), message: "first".to_string() },
        Commit { sha: "b2".to_string(), message: "second".to_string() },
    ];
    assert_eq!(latest_commit(&commits), Some("b2".to_string()));
    assert_eq!(latest_commit(&vec![]), None);
}

#[test]
fn pull_state_reads_git_output() {
    assert_eq!(pull_state(b"Already up to date.\n"), RepoState::Old);
    assert_eq!(pull_state(b"Updating 1a2b..3c4d\nFast-forward\n main.cpp | 2 +-\n"), RepoState::Updated);
    assert_eq!(pull_state(b""), RepoState::Updated);
    assert_eq!(pull_state(b"Already up to dat"), RepoState::Updated);
}

#[test]
fn needs_pull_only_when_old() {
    assert!(RepoState::Old.needs_pull());
    assert!(!RepoState::Updated.needs_pull());
}
