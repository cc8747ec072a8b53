//! Errors produced by the synchronization logic.
//!
//! Only conditions that the verified logic itself decides are listed here.
//! Failures that originate in the surrounding process (socket errors, raw
//! filesystem errors) are wrapped by the caller outside this crate.

use vstd::prelude::*;

verus! {

/// Error cases decided by the synchronization logic.
#[derive(Debug, Clone)]
pub enum AppError {
    /// The command line named neither a valid receiver nor a valid sender mode.
    InvalidArgs(String),
    /// The listening port lies in the system reserved range.
    SystemReservedPort(u16),
    /// The output path exists but is not a directory.
    InvalidDir(String),
    /// The output directory already holds a lock marker of another session.
    DirInUse(String),
    /// The target address could not be parsed as a URL.
    WsAddrParseError,
}

impl AppError {
    /// A short diagnostic text for logging by the surrounding process.
    pub fn message(&self) -> (r: String)
        ensures
            r@.len() > 0,
            r@ == match self {
                AppError::InvalidArgs(_) => "invalid command line arguments"@,
                AppError::SystemReservedPort(_) => "system reserved port"@,
                AppError::InvalidDir(_) => "invalid directory"@,
                AppError::DirInUse(_) => "directory is in use by another receiver"@,
                AppError::WsAddrParseError => "websocket address parse error"@,
            },
    {
        let r = match self {
            AppError::InvalidArgs(_) => "invalid command line arguments",
            AppError::SystemReservedPort(_) => "system reserved port",
            AppError::InvalidDir(_) => "invalid directory",
            AppError::DirInUse(_) => "directory is in use by another receiver",
            AppError::WsAddrParseError => "websocket address parse error",
        };
        proof {
            reveal_strlit("invalid command line arguments");
            reveal_strlit("system reserved port");
            reveal_strlit("invalid directory");
            reveal_strlit("directory is in use by another receiver");
            reveal_strlit("websocket address parse error");
        }
        r.to_owned()
    }
}

} // verus!
