//! Command-line mode selection.
//!
//! Two mutually exclusive modes exist: a receiver takes a listening port
//! and an output directory, a sender takes a source directory and a target
//! address.  Any other combination of arguments is a usage error, reported
//! before any engine starts.

use vstd::prelude::*;

use crate::error::AppError;

verus! {

/// Which engine to run, with its arguments.
#[derive(Debug)]
pub enum RunMode {
    /// Listen on a port and fill the output directory.
    Receiver { port: u16, output_dir: String },
    /// Push the source directory to the target address.
    Sender { from_dir: String, ws_addr: String },
}

/// Pick the run mode from the four optional command line arguments.
pub fn select_mode(
    port: Option<u16>,
    output_dir: Option<String>,
    from: Option<String>,
    to: Option<String>,
) -> (r: Result<RunMode, AppError>)
    ensures
        r is Ok <==> ((port is Some && output_dir is Some && from is None && to is None) || (
        port is None && output_dir is None && from is Some && to is Some)),
        port is Some && output_dir is Some && from is None && to is None ==> (r->Ok_0 matches
            RunMode::Receiver { port: p, output_dir: d } && p == port->0 && d@ == output_dir->0@),
        port is None && output_dir is None && from is Some && to is Some ==> (r->Ok_0 matches
            RunMode::Sender { from_dir: f, ws_addr: a } && f@ == from->0@ && a@ == to->0@),
        r is Err ==> (r->Err_0 matches AppError::InvalidArgs(_)),
{
    match (port, output_dir, from, to) {
        (Some(p), Some(d), None, None) => Ok(RunMode::Receiver { port: p, output_dir: d }),
        (None, None, Some(f), Some(a)) => Ok(RunMode::Sender { from_dir: f, ws_addr: a }),
        _ => Err(
            AppError::InvalidArgs("expected either a port and an output directory, or a source directory and a target address".to_owned()),
        ),
    }
}

} // verus!
