use vstd::prelude::*;

verus! {

/// A failure surfaced to the caller: a tag that callers match on, and a
/// human-readable message.
#[derive(Debug, Clone)]
pub struct AppError {
    pub error_type: String,
    pub message: String,
}

pub type AppResult<T> = Result<T, AppError>;

/// Builds an error of the generic `unknown` kind.
pub fn app_error(message: String) -> (r: AppError)
    ensures
        r.error_type@ == "unknown"@,
        r.message@ == message@,
{
    AppError { error_type: "unknown".to_owned(), message }
}

/// Builds an error with the given tag and message.
pub fn make_error(error_type: &str, message: &str) -> (r: AppError)
    ensures
        r.error_type@ == error_type@,
        r.message@ == message@,
{
    AppError { error_type: error_type.to_owned(), message: message.to_owned() }
}

} // verus!
