//! The rules by which a client keeps trying to reach a server.

use crate::transaction::Duration;
use vstd::prelude::*;

verus! {

/// What follows from an attempt to connect.
pub enum AfterAttempt<C, E> {
    /// The client can be used.
    Connected(C),
    /// Another attempt is made later, if there is time left.
    TryAgain(E),
}

/// Decides what follows from an attempt to connect. No failure is final: each is worth another
/// attempt.
pub fn after_attempt<C, E>(attempt: Result<C, E>) -> (next: AfterAttempt<C, E>)
    ensures
        match attempt {
            Ok(client) => next == AfterAttempt::<C, E>::Connected(client),
            Err(error) => next == AfterAttempt::<C, E>::TryAgain(error),
        },
{
    match attempt {
        Ok(client) => AfterAttempt::Connected(client),
        Err(error) => AfterAttempt::TryAgain(error),
    }
}

/// How long attempts are made, `None` meaning without an end: as long as was asked for, and
/// otherwise as long as is the default.
pub fn max_elapsed_time(default_limit: Option<Duration>, requested: Option<Duration>) -> (limit:
    Option<Duration>)
    ensures
        limit == (if requested is Some {
            requested
        } else {
            default_limit
        }),
{
    match requested {
        Some(max_elapsed_time) => Some(max_elapsed_time),
        None => default_limit,
    }
}

} // verus!
