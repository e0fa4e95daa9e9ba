//! Process exit codes and the command-level failure that carries one.

use vstd::prelude::*;

verus! {

pub const OK: i32 = 0;
pub const FAILURE: i32 = 1;
pub const TIMEOUT: i32 = 124;
pub const ABORTED: i32 = 130;

/// `anyhow::Error`, carried through unread.
#[verifier::external_type_specification]
#[verifier::external_body]
pub struct ExAnyhowError(anyhow::Error);

/// Command-level failure carrying its process exit code. Only `main` turns
/// this into an exit; everything else returns `AppResult`.
#[derive(Debug)]
pub enum AppError {
    /// Message printed to stderr, exit 1.
    Fail(anyhow::Error),
    /// Silent, exit 1 (Esc or nothing selected).
    NoSelection,
    /// Silent, exit 130 (Ctrl-C).
    Aborted,
    /// Exit 124. `None` prints the plain "timed out"; `Some` names what was
    /// waited on instead; the code never changes with it.
    Timeout(Option<anyhow::Error>),
    /// Silent, exit with the child's code.
    Child(i32),
}

/// The exit code each failure maps to.
pub open spec fn exit_code(e: AppError) -> i32 {
    match e {
        AppError::Fail(_) => FAILURE,
        AppError::NoSelection => FAILURE,
        AppError::Aborted => ABORTED,
        AppError::Timeout(_) => TIMEOUT,
        AppError::Child(code) => code,
    }
}

impl AppError {
    /// The process exit code.
    pub fn code(&self) -> (r: i32)
        ensures
            r == exit_code(*self),
    {
        match self {
            AppError::Fail(_) => FAILURE,
            AppError::NoSelection => FAILURE,
            AppError::Aborted => ABORTED,
            AppError::Timeout(_) => TIMEOUT,
            AppError::Child(code) => *code,
        }
    }
}

impl From<anyhow::Error> for AppError {
    fn from(err: anyhow::Error) -> (r: AppError) {
        AppError::Fail(err)
    }
}

impl vstd::std_specs::convert::FromSpecImpl<anyhow::Error> for AppError {
    open spec fn obeys_from_spec() -> bool {
        true
    }

    open spec fn from_spec(v: anyhow::Error) -> AppError {
        AppError::Fail(v)
    }
}

/// What a command returns.
pub type AppResult = Result<(), AppError>;

} // verus!
