//! Answering a client that asks for its next message.
use vstd::prelude::*;

verus! {

/// What a client is told that is not subscribed.
pub const NOT_SUBSCRIBED: &'static str = "Not subscribed";

/// The answer to a client.
pub enum Answer<M> {
    /// The client may not ask.
    Unauthorized(String),
    /// The message that waited for the client.
    Message(M),
    /// No message could be had, and why.
    Failed(String),
}

impl<M> Answer<M> {
    /// The number of the answer in HTTP.
    pub open spec fn code(self) -> u16 {
        match self {
            Answer::Unauthorized(_) => 401,
            Answer::Message(_) => 200,
            Answer::Failed(_) => 500,
        }
    }

    /// The number of the answer in HTTP.
    pub fn status(&self) -> (code: u16)
        ensures
            code == self.code(),
            *self is Unauthorized ==> code == 401,
            *self is Message ==> code == 200,
            *self is Failed ==> code == 500,
    {
        match self {
            Answer::Unauthorized(_) => 401,
            Answer::Message(_) => 200,
            Answer::Failed(_) => 500,
        }
    }
}

/// The answer to a client that is turned away, or nothing where a message is to be waited for.
pub fn screen<M>(subscribed: bool) -> (answer: Option<Answer<M>>)
    ensures
        match answer {
            Some(Answer::Unauthorized(text)) => !subscribed && text@ == NOT_SUBSCRIBED@,
            Some(_) => false,
            None => subscribed,
        },
{
    if subscribed {
        None
    } else {
        Some(Answer::Unauthorized(NOT_SUBSCRIBED.to_owned()))
    }
}

/// The answer to a client that was let in: the message, or why there is none.
pub fn respond<M>(outcome: Result<M, String>) -> (answer: Answer<M>)
    ensures
        answer == (match outcome {
            Ok(message) => Answer::Message(message),
            Err(reason) => Answer::Failed(reason),
        }),
{
    match outcome {
        Ok(message) => Answer::Message(message),
        Err(reason) => Answer::Failed(reason),
    }
}

} // verus!
