//! Retrying quote downloads: what one attempt means and when to try again.
//! The caller performs each request and parses its body; these functions
//! decide what happens next.
use vstd::prelude::*;
use crate::error::{error_text, Error};
use crate::text::push_str;

verus! {

/// The outcome of one download attempt.
#[derive(Debug)]
pub enum Attempt<T> {
    /// Bars came back.
    Done(T),
    /// A well-formed but empty answer (usually a wrong symbol): not retried.
    Empty,
    /// A network failure or an unreadable body: worth another try.
    Retry(String),
}

/// Classifies a Sina attempt from the request's result and, when a body
/// came back, the parser's result: bars are done, no bars is empty, and any
/// error (request or parse) is retried with the error's text.
pub fn classify<T>(attempt: Result<Result<Vec<T>, Error>, Error>) -> (r: Attempt<Vec<T>>)
    ensures
        match attempt {
            Ok(Ok(bars)) => if bars@.len() == 0 {
                r is Empty
            } else {
                r matches Attempt::Done(b) && b@ == bars@
            },
            Ok(Err(e)) => r matches Attempt::Retry(m) && m@ == error_text(e),
            Err(e) => r matches Attempt::Retry(m) && m@ == error_text(e),
        },
{
    match attempt {
        Ok(Ok(bars)) => {
            if bars.len() == 0 {
                Attempt::Empty
            } else {
                Attempt::Done(bars)
            }
        },
        Ok(Err(e)) => Attempt::Retry(e.to_string()),
        Err(e) => Attempt::Retry(e.to_string()),
    }
}

/// Attempt counting for a download tried at most `max_retries + 1` times.
#[derive(Debug)]
pub struct RetryState {
    /// Attempts made before the current one.
    pub attempt: u32,
    pub max_retries: u32,
}

/// What to do after an attempt.
#[derive(Debug)]
pub enum Next<T> {
    /// Stop with this result.
    Finished(T),
    /// Try again with this state.
    Again(RetryState),
}

impl RetryState {
    /// The state before the first attempt.
    pub fn new(max_retries: u32) -> (s: Self)
        ensures
            s.attempt == 0,
            s.max_retries == max_retries,
    {
        RetryState { attempt: 0, max_retries }
    }

    /// Whether another attempt is allowed after the current one.
    pub open spec fn can_retry(&self) -> bool {
        self.attempt < self.max_retries
    }

    /// The next state after a failed attempt.
    pub open spec fn advanced(&self) -> RetryState {
        RetryState { attempt: (self.attempt + 1) as u32, max_retries: self.max_retries }
    }

    fn advance(&self) -> (s: RetryState)
        requires
            self.can_retry(),
        ensures
            s == self.advanced(),
    {
        RetryState { attempt: self.attempt + 1, max_retries: self.max_retries }
    }

    /// The Sina download's decision after an attempt: bars end it, an empty
    /// answer ends it with "no bars for <symbol>", and a retryable failure
    /// tries again while attempts remain, else ends it with the last error.
    pub fn sina_step<T>(&self, symbol: &str, outcome: Attempt<Vec<T>>) -> (n: Next<Result<Vec<T>, Error>>)
        ensures
            match outcome {
                Attempt::Done(bars) => n matches Next::Finished(Ok(b)) && b@ == bars@,
                Attempt::Empty => n matches Next::Finished(Err(Error::Data(m)))
                    && m@ == "sina returned no bars for "@ + symbol@,
                Attempt::Retry(e) => if self.can_retry() {
                    n matches Next::Again(s) && s == self.advanced()
                } else {
                    n matches Next::Finished(Err(Error::Data(m))) && m@ == "sina fetch failed after retries: "@ + e@
                },
            },
    {
        match outcome {
            Attempt::Done(bars) => Next::Finished(Ok(bars)),
            Attempt::Empty => {
                let mut m = String::from_str("sina returned no bars for ");
                push_str(&mut m, symbol);
                Next::Finished(Err(Error::Data(m)))
            },
            Attempt::Retry(e) => {
                if self.attempt < self.max_retries {
                    Next::Again(self.advance())
                } else {
                    let mut m = String::from_str("sina fetch failed after retries: ");
                    push_str(&mut m, e.as_str());
                    Next::Finished(Err(Error::Data(m)))
                }
            },
        }
    }

    /// The Tencent download's decision after an attempt: parsed bars end it
    /// (even when there are none); a request or parse error tries again while
    /// attempts remain, else ends it with the last error's text.
    pub fn tencent_step<T>(&self, attempt: Result<Result<Vec<T>, Error>, Error>) -> (n: Next<Result<Vec<T>, Error>>)
        ensures
            match attempt {
                Ok(Ok(bars)) => n matches Next::Finished(Ok(b)) && b@ == bars@,
                Ok(Err(e)) => if self.can_retry() {
                    n matches Next::Again(s) && s == self.advanced()
                } else {
                    n matches Next::Finished(Err(Error::Data(m)))
                        && m@ == "tencent fetch failed after retries: "@ + error_text(e)
                },
                Err(e) => if self.can_retry() {
                    n matches Next::Again(s) && s == self.advanced()
                } else {
                    n matches Next::Finished(Err(Error::Data(m)))
                        && m@ == "tencent fetch failed after retries: "@ + error_text(e)
                },
            },
    {
        let e = match attempt {
            Ok(Ok(bars)) => {
                return Next::Finished(Ok(bars));
            },
            Ok(Err(e)) => e,
            Err(e) => e,
        };
        if self.attempt < self.max_retries {
            Next::Again(self.advance())
        } else {
            let mut m = String::from_str("tencent fetch failed after retries: ");
            let t = e.to_string();
            push_str(&mut m, t.as_str());
            Next::Finished(Err(Error::Data(m)))
        }
    }

    /// The LLM call's decision after an attempt: an answer ends it; an error
    /// tries again while attempts remain, else ends it with an evaluation
    /// error carrying the last error's text.
    pub fn llm_step<T>(&self, attempt: Result<T, Error>) -> (n: Next<Result<T, Error>>)
        ensures
            match attempt {
                Ok(a) => n == Next::<Result<T, Error>>::Finished(Ok(a)),
                Err(e) => if self.can_retry() {
                    n matches Next::Again(s) && s == self.advanced()
                } else {
                    n matches Next::Finished(Err(Error::Eval(m))) && m@ == error_text(e)
                },
            },
    {
        match attempt {
            Ok(a) => Next::Finished(Ok(a)),
            Err(e) => {
                if self.attempt < self.max_retries {
                    Next::Again(self.advance())
                } else {
                    Next::Finished(Err(Error::Eval(e.to_string())))
                }
            },
        }
    }
}

} // verus!
