//! What a format needs, and who can do it.

use vstd::prelude::*;
use crate::error::{CoreError, TerminalKind};

verus! {

/// The parameters of a quick format: the original file system and label are kept,
/// so the camera recognises the card as before.
#[derive(Debug, Clone, PartialEq, Eq)]
pub struct FormatParams {
    pub volume: String,
    pub file_system: String,
    pub label: String,
}

/// Something that can read a volume's format parameters and quick-format it.
pub trait Formatter {
    fn read_params(&self, volume: &str) -> Result<FormatParams, CoreError>;
    fn quick_format(&self, params: &FormatParams) -> Result<(), CoreError>;
}

/// The formatter of platforms that cannot format: every call is refused as
/// unsupported.
#[derive(Debug, Clone, Copy, PartialEq, Eq)]
pub struct UnsupportedFormatter;

impl Formatter for UnsupportedFormatter {
    fn read_params(&self, volume: &str) -> (r: Result<FormatParams, CoreError>)
        ensures
            r matches Err(CoreError::Terminal(TerminalKind::Unsupported, c)) && c.path is None && c.destination is None && c.cause is None,
    {
        Err(CoreError::terminal(TerminalKind::Unsupported))
    }

    fn quick_format(&self, params: &FormatParams) -> (r: Result<(), CoreError>)
        ensures
            r matches Err(CoreError::Terminal(TerminalKind::Unsupported, c)) && c.path is None && c.destination is None && c.cause is None,
    {
        Err(CoreError::terminal(TerminalKind::Unsupported))
    }
}

} // verus!
