use vstd::prelude::*;
use vstd::utf8::{decode_utf8, valid_utf8};
use crate::github::{repo_dir, repo_path};
use crate::process::ProcessOutcome;
use crate::text::utf8_text;

verus! {

/// The language a student's program is written in.
#[derive(Debug, Clone, Copy, PartialEq, Eq)]
pub enum Lang {
    Cpp,
}

/// A student's program, found in the student's repository.
#[derive(Debug, Clone)]
pub struct Program {
    pub lang: Lang,
    pub last_commit: Option<String>,
    pub repo: String,
    pub owner: String,
}

/// What went wrong while building or running a program.
#[derive(Debug, Clone, PartialEq, Eq)]
pub enum RunnerError {
    /// The build or the program could not be started (not the student's
    /// fault); holds the reason.
    ProcessSpawnError(String),
    /// Holds what the build wrote to its standard error.
    CompilationError(String),
    /// Holds what the failed program wrote to its standard error.
    RuntimeError(String),
}

/// Whether the text that a finished process wrote to `stream` can be read:
/// it is valid UTF-8.
pub open spec fn readable(stream: Seq<u8>) -> bool {
    valid_utf8(stream)
}

impl Program {
    /// Whether a check of the commit `latest` is still to be reported: the
    /// program was last seen at another commit, or never.
    pub open spec fn comment_due(&self, latest: Seq<char>) -> bool {
        match self.last_commit {
            Some(c) => c@ != latest,
            None => true,
        }
    }

    pub fn new(lang: Lang, last_commit: Option<String>, repo: String, owner: String) -> (p: Self)
        ensures
            p.lang == lang,
            p.last_commit == last_commit,
            p.repo == repo,
            p.owner == owner,
    {
        Program { lang, last_commit, repo, owner }
    }

    /// The directory that holds the program: `students/<owner>/<repo>`.
    pub fn path(&self) -> (r: String)
        ensures
            r@ == repo_path(self.owner@, self.repo@),
    {
        repo_dir(self.owner.as_str(), self.repo.as_str())
    }

    /// What a build of the program came to, given what became of the build
    /// process. Its error output must be readable where the build failed.
    pub fn build_result(&self, outcome: ProcessOutcome) -> (r: Result<(), RunnerError>)
        requires
            outcome matches ProcessOutcome::Exited { success, stderr, .. } ==> (!success
                ==> readable(stderr@)),
        ensures
            match outcome {
                ProcessOutcome::SpawnFailed(reason) => r == Err::<(), RunnerError>(
                    RunnerError::ProcessSpawnError(reason),
                ),
                ProcessOutcome::Exited { success, stderr, .. } => if success {
                    r is Ok
                } else {
                    r matches Err(RunnerError::CompilationError(e)) && e@ == decode_utf8(stderr@)
                },
            },
    {
        match self.lang {
            Lang::Cpp => match outcome {
                ProcessOutcome::SpawnFailed(reason) => Err(RunnerError::ProcessSpawnError(reason)),
                ProcessOutcome::Exited { success, stdout: _, stderr } => {
                    if !success {
                        match utf8_text(stderr) {
                            Some(e) => Err(RunnerError::CompilationError(e)),
                            None => {
                                proof {
                                    assert(false);
                                }
                                Err(RunnerError::CompilationError(String::new()))
                            },
                        }
                    } else {
                        Ok(())
                    }
                },
            },
        }
    }

    /// What a run of the program came to, given what became of its process:
    /// on success, what it wrote to its standard output. The stream that is
    /// read must be readable.
    pub fn run_result(&self, outcome: ProcessOutcome) -> (r: Result<String, RunnerError>)
        requires
            outcome matches ProcessOutcome::Exited { success, stdout, stderr } ==> (if success {
                readable(stdout@)
            } else {
                readable(stderr@)
            }),
        ensures
            match outcome {
                ProcessOutcome::SpawnFailed(reason) => r == Err::<String, RunnerError>(
                    RunnerError::ProcessSpawnError(reason),
                ),
                ProcessOutcome::Exited { success, stdout, stderr } => if success {
                    r matches Ok(out) && out@ == decode_utf8(stdout@)
                } else {
                    r matches Err(RunnerError::RuntimeError(e)) && e@ == decode_utf8(stderr@)
                },
            },
    {
        match outcome {
            ProcessOutcome::SpawnFailed(reason) => Err(RunnerError::ProcessSpawnError(reason)),
            ProcessOutcome::Exited { success, stdout, stderr } => {
                if !success {
                    match utf8_text(stderr) {
                        Some(e) => Err(RunnerError::RuntimeError(e)),
                        None => {
                            proof {
                                assert(false);
                            }
                            Err(RunnerError::RuntimeError(String::new()))
                        },
                    }
                } else {
                    match utf8_text(stdout) {
                        Some(out) => Ok(out),
                        None => {
                            proof {
                                assert(false);
                            }
                            Ok(String::new())
                        },
                    }
                }
            },
        }
    }

    /// Whether the result of a check of the commit `latest` is still to be
    /// reported: the program was last seen at another commit, or never.
    pub fn needs_comment(&self, latest: &String) -> (r: bool)
        ensures
            r == self.comment_due(latest@),
    {
        match &self.last_commit {
            Some(c) => !c.eq(latest),
            None => true,
        }
    }

    /// Records that the program was seen at the commit `sha`.
    pub fn record_commit(&mut self, sha: String)
        ensures
            final(self).last_commit == Some(sha),
            final(self).lang == old(self).lang,
            final(self).repo == old(self).repo,
            final(self).owner == old(self).owner,
    {
        self.last_commit = Some(sha);
    }
}

/// Once the program is recorded at a commit, a check of that same commit is
/// not reported again; a check of any other commit is.
pub proof fn lemma_commit_reported_once(p: Program, sha: String, other: Seq<char>)
    requires
        p.last_commit == Some(sha),
    ensures
        !p.comment_due(sha@),
        other != sha@ ==> p.comment_due(other),
{
}

} // verus!
