use vstd::prelude::*;
use vstd::utf8::decode_utf8;
use std::path::PathBuf;
use crate::process::ProcessOutcome;
use crate::program::readable;
use crate::text::utf8_text;

verus! {

/// A path of the file system, carried through as it is.
#[verifier::external_type_specification]
#[verifier::external_body]
pub struct ExPathBuf(PathBuf);

/// The language a program is written in.
#[derive(Debug, Clone, Copy, PartialEq, Eq)]
pub enum Lang {
    Cpp,
}

/// A program, with the directory of its sources (where its Makefile is)
/// and the path of its executable once it is built.
#[derive(Debug)]
pub struct Program {
    pub lang: Lang,
    /// Path to the Makefile.
    pub path_to_src: PathBuf,
    /// Path to the executable after it is built.
    pub path_to_exe: PathBuf,
}

/// What went wrong while building or running a program.
#[derive(Debug, Clone, PartialEq, Eq)]
pub enum RunnerError {
    /// The build or the program could not be started.
    ProcessSpawnError,
    /// Holds what the build wrote to its standard error.
    CompilationError(String),
    /// Holds what the failed program wrote to its standard error.
    RuntimeError(String),
}

impl Program {
    pub fn new(lang: Lang, path_to_src: PathBuf, path_to_exe: PathBuf) -> (p: Self)
        ensures
            p.lang == lang,
            p.path_to_src == path_to_src,
            p.path_to_exe == path_to_exe,
    {
        Program { lang, path_to_src, path_to_exe }
    }

    /// What a build of the program came to, given what became of the build
    /// process. Its error output must be readable where the build failed.
    pub fn build_result(&self, outcome: ProcessOutcome) -> (r: Result<(), RunnerError>)
        requires
            outcome matches ProcessOutcome::Exited { success, stderr, .. } ==> (!success
                ==> readable(stderr@)),
        ensures
            match outcome {
                ProcessOutcome::SpawnFailed(_) => r == Err::<(), RunnerError>(
                    RunnerError::ProcessSpawnError,
                ),
                ProcessOutcome::Exited { success, stderr, .. } => if success {
                    r is Ok
                } else {
                    r matches Err(RunnerError::CompilationError(e)) && e@ == decode_utf8(stderr@)
                },
            },
    {
        match self.lang {
            Lang::Cpp => match outcome {
                ProcessOutcome::SpawnFailed(_) => Err(RunnerError::ProcessSpawnError),
                ProcessOutcome::Exited { success, stdout: _, stderr } => {
                    if !success {
                        match utf8_text(stderr) {
                            Some(e) => Err(RunnerError::CompilationError(e)),
                            None => {
                                proof {
                                    assert(false);
                                }
                                Err(RunnerError::CompilationError(String::new()))
                            },
                        }
                    } else {
                        Ok(())
                    }
                },
            },
        }
    }

    /// What a run of the program came to, given what became of its process:
    /// on success, what it wrote to its standard output. The stream that is
    /// read must be readable.
    pub fn run_result(&self, outcome: ProcessOutcome) -> (r: Result<String, RunnerError>)
        requires
            outcome matches ProcessOutcome::Exited { success, stdout, stderr } ==> (if success {
                readable(stdout@)
            } else {
                readable(stderr@)
            }),
        ensures
            match outcome {
                ProcessOutcome::SpawnFailed(_) => r == Err::<String, RunnerError>(
                    RunnerError::ProcessSpawnError,
                ),
                ProcessOutcome::Exited { success, stdout, stderr } => if success {
                    r matches Ok(out) && out@ == decode_utf8(stdout@)
                } else {
                    r matches Err(RunnerError::RuntimeError(e)) && e@ == decode_utf8(stderr@)
                },
            },
    {
        match outcome {
            ProcessOutcome::SpawnFailed(_) => Err(RunnerError::ProcessSpawnError),
            ProcessOutcome::Exited { success, stdout, stderr } => {
                if !success {
                    match utf8_text(stderr) {
                        Some(e) => Err(RunnerError::RuntimeError(e)),
                        None => {
                            proof {
                                assert(false);
                            }
                            Err(RunnerError::RuntimeError(String::new()))
                        },
                    }
                } else {
                    match utf8_text(stdout) {
                        Some(out) => Ok(out),
                        None => {
                            proof {
                                assert(false);
                            }
                            Ok(String::new())
                        },
                    }
                }
            },
        }
    }
}

} // verus!
