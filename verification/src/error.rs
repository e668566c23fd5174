//! The error of every operation: a message for the user.

use vstd::prelude::*;
use vstd::string::StringExecFns;

verus! {

/// A failure, told in one message.
#[derive(Debug, Eq, PartialEq)]
pub struct AppError {
    message: String,
}

/// What an operation gives: its value, or the failure.
pub type Result<T> = std::result::Result<T, AppError>;

impl View for AppError {
    type V = Seq<char>;

    closed spec fn view(&self) -> Seq<char> {
        self.message@
    }
}

impl AppError {
    /// An error with this message.
    pub fn new(message: &str) -> (error: AppError)
        ensures
            error@ == message@,
    {
        AppError { message: message.to_owned() }
    }

    /// An error whose message puts `value` between two texts.
    pub fn about(before: &str, value: &str, after: &str) -> (error: AppError)
        ensures
            error@ == before@ + value@ + after@,
    {
        let mut message = before.to_owned();
        message.append(value);
        message.append(after);
        AppError { message }
    }

    /// An error whose message puts two values between three texts.
    pub fn about_two(
        before: &str,
        first: &str,
        between: &str,
        second: &str,
        after: &str,
    ) -> (error: AppError)
        ensures
            error@ == before@ + first@ + between@ + second@ + after@,
    {
        let mut message = before.to_owned();
        message.append(first);
        message.append(between);
        message.append(second);
        message.append(after);
        AppError { message }
    }

    /// An error about something, with its cause at the end of the message.
    pub fn caused(before: &str, value: &str, between: &str, cause: &str) -> (error: AppError)
        ensures
            error@ == before@ + value@ + between@ + cause@,
    {
        let mut message = before.to_owned();
        message.append(value);
        message.append(between);
        message.append(cause);
        AppError { message }
    }

    /// The message for the user.
    pub fn message(&self) -> (message: &str)
        ensures
            message@ == self@,
    {
        self.message.as_str()
    }
}

/// A result of a fallible operation by what can be observed of it: the view of its value, or the
/// text of its message.
pub open spec fn seen<T: View>(result: Result<T>) -> std::result::Result<T::V, Seq<char>> {
    match result {
        Ok(value) => Ok(value@),
        Err(error) => Err(error@),
    }
}

/// As `seen`, for a number.
pub open spec fn seen_number(result: Result<u64>) -> std::result::Result<nat, Seq<char>> {
    match result {
        Ok(value) => Ok(value as nat),
        Err(error) => Err(error@),
    }
}

/// What is seen of a success is its value, and of a failure its message.
pub proof fn law_seen<T: View>(value: T, number: u64, error: AppError)
    ensures
        seen(Ok::<T, AppError>(value)) == Ok::<T::V, Seq<char>>(value@),
        seen(Err::<T, AppError>(error)) == Err::<T::V, Seq<char>>(error@),
        seen_number(Ok(number)) == Ok::<nat, Seq<char>>(number as nat),
        seen_number(Err(error)) == Err::<nat, Seq<char>>(error@),
{
}

} // verus!
