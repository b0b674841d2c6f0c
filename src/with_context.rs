//! Errors that carry a note on what was being done when they happened.
use vstd::prelude::*;
use vstd::string::StringExecFns;

verus! {

/// An error together with a note on the step that failed.
#[derive(Debug)]
pub struct WrappedError<E> {
    pub msg: String,
    pub cause: E,
}

/// Adds a note to the error of a result.
pub trait Context<T, E>: Sized {
    fn with_context(self, context: &str) -> Result<T, WrappedError<E>>;
}

impl<T, E> Context<T, E> for Result<T, E> {
    fn with_context(self, context: &str) -> (r: Result<T, WrappedError<E>>)
        ensures
            match self {
                Ok(v) => r == Ok::<T, WrappedError<E>>(v),
                Err(e) => r matches Err(w) && w.cause == e && w.msg@ == context@,
            },
    {
        match self {
            Ok(v) => Ok(v),
            Err(e) => Err(WrappedError { msg: String::from_str(context), cause: e }),
        }
    }
}

/// Runs `block`, and notes `context` on its error if it fails.
pub fn with_context<T, E, F: FnOnce() -> Result<T, E>>(context: &str, block: F) -> (r: Result<
    T,
    WrappedError<E>,
>)
    requires
        block.requires(()),
    ensures
        match r {
            Ok(v) => block.ensures((), Ok::<T, E>(v)),
            Err(w) => w.msg@ == context@ && block.ensures((), Err::<T, E>(w.cause)),
        },
{
    match block() {
        Ok(v) => Ok(v),
        Err(e) => Err(WrappedError { msg: String::from_str(context), cause: e }),
    }
}

} // verus!
