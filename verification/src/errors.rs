//! What an error has to say.

use vstd::prelude::*;
use vstd::string::StringExecFns;
use crate::UnweaveError;

verus! {

/// `String::push` appends one character.
#[verifier::external_body]
pub(crate) fn push_char(s: &mut String, c: char)
    ensures
        final(s)@ == old(s)@.push(c),
{
    s.push(c);
}

impl UnweaveError {
    /// The words of the error.
    pub open spec fn message_text(self) -> Seq<char> {
        match self {
            UnweaveError::ParsingFailure(e) => e@,
            UnweaveError::MissingOption(o) => "Missing required option '"@ + o@ + "'"@,
            UnweaveError::InvalidOption(o) => "Invalid option '"@ + o@ + "' for selected mode"@,
            UnweaveError::InvalidOptionValue(o, v) => "Invalid value '"@ + v@ + "' for option '"@
                + o@ + "'"@,
            UnweaveError::InvalidTwoPassReread =>
                "Cannot use two-pass mode reread for the specified inputs"@,
            UnweaveError::LineAndColumnWidth =>
                "Cannot specify both --line-width and --column-width"@,
            UnweaveError::InvalidOutputFilePattern(c) => "Invalid character '"@.push(c)
                + "' in output file pattern"@,
            UnweaveError::IncompleteOutputFilePattern => "Incomplete output file pattern"@,
            UnweaveError::InvalidPattern(e) => e@,
            UnweaveError::InvalidTagEncoding => "Stream tag is not valid UTF-8"@,
        }
    }

    /// The words of the error, for the user to read.
    pub fn message(&self) -> (text: String)
        ensures
            text@ == self.message_text(),
    {
        match self {
            UnweaveError::ParsingFailure(e) => e.clone(),
            UnweaveError::MissingOption(o) => {
                let mut text = String::from_str("Missing required option '");
                text.append(o);
                text.append("'");
                text
            },
            UnweaveError::InvalidOption(o) => {
                let mut text = String::from_str("Invalid option '");
                text.append(o);
                text.append("' for selected mode");
                text
            },
            UnweaveError::InvalidOptionValue(o, v) => {
                let mut text = String::from_str("Invalid value '");
                text.append(v.as_str());
                text.append("' for option '");
                text.append(o);
                text.append("'");
                text
            },
            UnweaveError::InvalidTwoPassReread => String::from_str(
                "Cannot use two-pass mode reread for the specified inputs",
            ),
            UnweaveError::LineAndColumnWidth => String::from_str(
                "Cannot specify both --line-width and --column-width",
            ),
            UnweaveError::InvalidOutputFilePattern(c) => {
                let mut text = String::from_str("Invalid character '");
                push_char(&mut text, *c);
                text.append("' in output file pattern");
                text
            },
            UnweaveError::IncompleteOutputFilePattern => String::from_str(
                "Incomplete output file pattern",
            ),
            UnweaveError::InvalidPattern(e) => e.clone(),
            UnweaveError::InvalidTagEncoding => String::from_str("Stream tag is not valid UTF-8"),
        }
    }
}

} // verus!
