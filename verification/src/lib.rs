//! Intent-aware source search: verified core.
use vstd::prelude::*;

pub mod arrangement;
pub mod binary64;
pub mod cli;
pub mod collect;
pub mod config;
pub mod jev;
pub mod json;
pub mod laws;
pub mod protocol;
pub mod ranking;
pub mod render;
pub mod reply;
pub mod request;
pub mod run;
pub mod search;
pub mod session;
pub mod text;

verus! {

/// The user interrupted the run.
#[derive(Clone, Copy, Debug, PartialEq, Eq, Structural)]
pub struct Interrupted;

impl Interrupted {
    /// The text that tells the user what happened.
    pub fn message(&self) -> (message: String)
        ensures
            message@ == "interrupted"@,
    {
        "interrupted".to_owned()
    }
}

/// Stops pending work after an interrupt, without exposing partial rankings.
pub fn check_cancelled(cancelled: bool) -> (result: Result<(), Interrupted>)
    ensures
        result is Err <==> cancelled,
{
    if cancelled {
        Err(Interrupted)
    } else {
        Ok(())
    }
}

} // verus!
