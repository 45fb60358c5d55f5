//! Error types: structural errors found while parsing one catalog, and
//! cross-language validation errors found while generating the artifact.

use vstd::prelude::*;
use vstd::string::*;
use crate::chars::{dec_rep, push_dec};

verus! {

/// A structural error in one catalog. Each variant carries the 1-based
/// number of the line at which the catalog was rejected; the whole
/// catalog is rejected on the first such error.
#[derive(Clone, Copy, Debug, PartialEq, Eq, Structural)]
pub enum ParseError {
    /// A line that fits no token of the grammar, or a token that the
    /// current state does not allow (for example two `msgid` lines in a
    /// row, or a bare continuation string with no entry open).
    UnexpectedToken { line: usize },
    /// A `msgstr` line with no preceding `msgid`.
    OrphanMsgstr { line: usize },
    /// A quoted string with no closing quote on its line.
    UnterminatedString { line: usize },
    /// The catalog ended after a `msgid` with no `msgstr` for it; the
    /// carried number is that of the catalog's last line.
    UnterminatedEntry { line: usize },
}

impl ParseError {
    /// The 1-based line number the error was found at.
    pub fn line(&self) -> (r: usize)
        ensures
            r == self.spec_line(),
    {
        match self {
            ParseError::UnexpectedToken { line } => *line,
            ParseError::OrphanMsgstr { line } => *line,
            ParseError::UnterminatedString { line } => *line,
            ParseError::UnterminatedEntry { line } => *line,
        }
    }

    /// The line number an error value carries.
    pub open spec fn spec_line(&self) -> usize {
        match self {
            ParseError::UnexpectedToken { line } => *line,
            ParseError::OrphanMsgstr { line } => *line,
            ParseError::UnterminatedString { line } => *line,
            ParseError::UnterminatedEntry { line } => *line,
        }
    }

    /// The reason a reader is shown for this error.
    pub open spec fn spec_message(&self) -> Seq<char> {
        match self {
            ParseError::UnexpectedToken { line } => "unexpected token at line "@ + dec_rep(
                *line as nat,
            ),
            ParseError::OrphanMsgstr { line } => "msgstr with no preceding msgid at line "@
                + dec_rep(*line as nat),
            ParseError::UnterminatedString { line } => "unterminated string at line "@ + dec_rep(
                *line as nat,
            ),
            ParseError::UnterminatedEntry { line } => "msgid with no msgstr at line "@ + dec_rep(
                *line as nat,
            ),
        }
    }

    /// Render the reason; mirrors [`ParseError::spec_message`].
    pub fn message(&self) -> (r: String)
        ensures
            r@ == self.spec_message(),
    {
        let mut out = String::new();
        match self {
            ParseError::UnexpectedToken { line } => {
                out.append("unexpected token at line ");
                push_dec(&mut out, *line);
            },
            ParseError::OrphanMsgstr { line } => {
                out.append("msgstr with no preceding msgid at line ");
                push_dec(&mut out, *line);
            },
            ParseError::UnterminatedString { line } => {
                out.append("unterminated string at line ");
                push_dec(&mut out, *line);
            },
            ParseError::UnterminatedEntry { line } => {
                out.append("msgid with no msgstr at line ");
                push_dec(&mut out, *line);
            },
        }
        out
    }
}

/// Mathematical model of a [`ValidationError`].
pub struct ValidationErrorV {
    pub template: Seq<char>,
    pub lang_code: Seq<char>,
    pub expected: nat,
    pub found: nat,
}

/// A cross-language validation error found at generation time: a
/// translated template whose placeholder count differs from the count
/// of its source template. Generation aborts on the first one.
#[derive(Clone, Debug, PartialEq, Eq)]
pub enum ValidationError {
    PlaceholderMismatch {
        /// The source template the translation belongs to.
        template: String,
        /// The code of the language whose translation is at fault.
        lang_code: String,
        /// Placeholder count of the source template.
        expected: usize,
        /// Placeholder count of the offending translation.
        found: usize,
    },
}

impl ValidationError {
    /// The reason a reader is shown for this error.
    pub open spec fn spec_message(&self) -> Seq<char> {
        match self {
            ValidationError::PlaceholderMismatch { template, lang_code, expected, found } => {
                "placeholder count mismatch in language "@ + lang_code@ + " for template \""@
                    + template@ + "\": expected "@ + dec_rep(*expected as nat) + ", found "@
                    + dec_rep(*found as nat)
            },
        }
    }

    /// Render the reason; mirrors [`ValidationError::spec_message`].
    pub fn message(&self) -> (r: String)
        ensures
            r@ == self.spec_message(),
    {
        match self {
            ValidationError::PlaceholderMismatch { template, lang_code, expected, found } => {
                let mut out = String::new();
                out.append("placeholder count mismatch in language ");
                out.append(lang_code.as_str());
                out.append(" for template \"");
                out.append(template.as_str());
                out.append("\": expected ");
                push_dec(&mut out, *expected);
                out.append(", found ");
                push_dec(&mut out, *found);
                proof {
                    assert(out@ =~= self.spec_message());
                }
                out
            },
        }
    }
}

impl View for ValidationError {
    type V = ValidationErrorV;

    open spec fn view(&self) -> ValidationErrorV {
        match self {
            ValidationError::PlaceholderMismatch { template, lang_code, expected, found } => {
                ValidationErrorV {
                    template: template@,
                    lang_code: lang_code@,
                    expected: *expected as nat,
                    found: *found as nat,
                }
            },
        }
    }
}

} // verus!
