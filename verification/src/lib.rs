//! Checking of students' lab programs: building and running them against
//! tests, judging the answers, indexing similarity hashes, and deciding what
//! to report back to each student's repository.

pub mod ast;
pub mod github;
pub mod lab;
pub mod process;
pub mod program;
pub mod runner;
pub mod text;
