//! Error taxonomy of the sync engine.
//!
//! Each variant corresponds to one boundary failure: a malformed upstream
//! response, a malformed manifest, a degenerate diff input. None of these
//! carries formatting machinery; a caller that needs text calls
//! `message`.

use vstd::prelude::*;

verus! {

broadcast use vstd::string::to_string_from_display_ensures_for_str;

/// A malformed upstream response: the frame shape deviated from the
/// documented protocol.
#[derive(Clone, Copy, Debug, PartialEq, Eq, Structural)]
pub enum ProtocolError {
    /// The frame did not start with the expected magic bytes.
    BadMagic,
    /// The frame ended before all documented fields were read.
    Truncated,
    /// Bytes followed the last documented field.
    TrailingBytes,
    /// The manifest locator field held a byte outside printable ASCII.
    BadLocator,
}

/// A structurally invalid manifest document.
#[derive(Clone, Copy, Debug, PartialEq, Eq, Structural)]
pub enum ParseError {
    /// The document's final record is not terminated by a newline.
    UnterminatedRecord,
    /// A record does not follow the `path fingerprint size [flags]` shape.
    MalformedRecord,
}

/// A degenerate input to the revision diff.
#[derive(Clone, Copy, Debug, PartialEq, Eq, Structural)]
pub enum DiffError {
    /// The candidate (new) asset set is empty: an empty manifest must never
    /// be interpreted as "remove everything".
    EmptyCandidate,
}

impl ProtocolError {
    /// The description `message` returns.
    pub open spec fn spec_message(self) -> Seq<char> {
        match self {
            ProtocolError::BadMagic => "upstream response: bad magic"@,
            ProtocolError::Truncated => "upstream response: truncated frame"@,
            ProtocolError::TrailingBytes => "upstream response: trailing bytes"@,
            ProtocolError::BadLocator => "upstream response: bad locator"@,
        }
    }

    /// A short description, for logging at the boundary.
    pub fn message(&self) -> (r: String)
        ensures
            r@ == self.spec_message(),
    {
        match self {
            ProtocolError::BadMagic => "upstream response: bad magic".to_string(),
            ProtocolError::Truncated => "upstream response: truncated frame".to_string(),
            ProtocolError::TrailingBytes => "upstream response: trailing bytes".to_string(),
            ProtocolError::BadLocator => "upstream response: bad locator".to_string(),
        }
    }
}

impl ParseError {
    /// The description `message` returns.
    pub open spec fn spec_message(self) -> Seq<char> {
        match self {
            ParseError::UnterminatedRecord => "manifest: unterminated record"@,
            ParseError::MalformedRecord => "manifest: malformed record"@,
        }
    }

    /// A short description, for logging at the boundary.
    pub fn message(&self) -> (r: String)
        ensures
            r@ == self.spec_message(),
    {
        match self {
            ParseError::UnterminatedRecord => "manifest: unterminated record".to_string(),
            ParseError::MalformedRecord => "manifest: malformed record".to_string(),
        }
    }
}

impl DiffError {
    /// The description `message` returns.
    pub open spec fn spec_message(self) -> Seq<char> {
        match self {
            DiffError::EmptyCandidate => "diff: empty candidate asset set"@,
        }
    }

    /// A short description, for logging at the boundary.
    pub fn message(&self) -> (r: String)
        ensures
            r@ == self.spec_message(),
    {
        match self {
            DiffError::EmptyCandidate => "diff: empty candidate asset set".to_string(),
        }
    }
}

} // verus!
