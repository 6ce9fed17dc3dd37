//! Lint checks run against a codebase.
use vstd::prelude::*;

verus! {

/// A lint mechanism.
#[derive(Clone, Copy, Debug, PartialEq, Eq)]
pub enum Mechanism {
    CliStructComment,
}

/// Why a lint run stopped.
#[derive(Debug, PartialEq, Eq)]
pub enum LintError {
    /// The `cli-struct-comment` mechanism is not implemented yet.
    CliStructCommentNotImplemented,
}

/// The options of a lint run.
pub struct Lint {
    /// Path to a directory of Rust source files.
    pub dir: String,
    /// Lint mechanism to run; all of them when `None`.
    pub mechanism: Option<Mechanism>,
    /// Detect only, don't apply fixes.
    pub dry: bool,
    /// Print LLM input/output/usage and wait for enter between each candidate.
    pub debug: bool,
}

/// The mechanisms that a run with the option `m` runs, in order.
pub open spec fn mechanisms_to_run(m: Option<Mechanism>) -> Seq<Mechanism> {
    match m {
        Some(x) => seq![x],
        None => seq![Mechanism::CliStructComment],
    }
}

/// The `cli-struct-comment` mechanism on the directory `dir`; it is not
/// implemented yet and always fails so.
pub fn cli_struct_comment(dir: &str) -> (r: Result<(), LintError>)
    ensures
        r matches Err(e) && e is CliStructCommentNotImplemented,
{
    Err(LintError::CliStructCommentNotImplemented)
}

impl LintError {
    /// The message that reports the error.
    pub fn message(&self) -> (r: &'static str)
        ensures
            r@ == "cli-struct-comment not yet implemented"@,
    {
        match self {
            LintError::CliStructCommentNotImplemented => "cli-struct-comment not yet implemented",
        }
    }
}

impl Lint {
    /// Runs the chosen mechanism, or every mechanism, in order; stops at the
    /// first that fails.
    pub fn execute(&self) -> (r: Result<(), LintError>)
        ensures
            r matches Err(e) && e is CliStructCommentNotImplemented,
    {
        let mut mechanisms: Vec<Mechanism> = Vec::new();
        match &self.mechanism {
            Some(Mechanism::CliStructComment) => mechanisms.push(Mechanism::CliStructComment),
            None => mechanisms.push(Mechanism::CliStructComment),
        }
        proof {
            assert(mechanisms@ =~= mechanisms_to_run(self.mechanism));
        }
        let mut i: usize = 0;
        while i < mechanisms.len()
            invariant
                i <= mechanisms.len(),
                mechanisms@ == mechanisms_to_run(self.mechanism),
                // no mechanism runs to completion, so the loop ends at the first
                i == 0,
            decreases mechanisms.len() - i,
        {
            match &mechanisms[i] {
                Mechanism::CliStructComment => match cli_struct_comment(self.dir.as_str()) {
                    Ok(()) => {},
                    Err(e) => return Err(e),
                },
            }
            i = i + 1;
        }
        Ok(())
    }
}

} // verus!
