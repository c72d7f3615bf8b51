//! Rendering a parse failure as a human-readable message.
//!
//! [`render`] turns a [`ParseError`] into one line of text naming what was
//! found and what the grammar would have accepted there.  The span itself
//! stays in the error value, for a caller that wants to underline the
//! source.

use vstd::prelude::*;

use crate::eval::push_char;
use crate::parser::Expected;
use crate::parser::ParseError;
use crate::parser::ParseErrorKind;
use vstd::string::StringExecFns;

verus! {

/// The words naming one expected token kind.
pub open spec fn expected_text(e: Expected) -> Seq<char> {
    match e {
        Expected::StartKeyword => "start"@,
        Expected::EndKeyword => "end"@,
        Expected::Colon => ":"@,
        Expected::Digit => "a digit"@,
        Expected::RuleOrEnd => "a rule or end of input"@,
        Expected::Newline => "a newline"@,
    }
}

/// The words naming the offending character.
pub open spec fn found_text(found: Option<char>) -> Seq<char> {
    match found {
        Some(c) => seq![c],
        None => "end of file"@,
    }
}

/// The whole message of an error.
pub open spec fn render_spec(e: ParseError) -> Seq<char> {
    match e.kind {
        ParseErrorKind::Unexpected { expected, found } => (if found is Some {
            "Unexpected token in input, expected '"@
        } else {
            "Unexpected end of input, expected '"@
        }) + expected_text(expected) + "', found '"@ + found_text(found) + "'"@,
        ParseErrorKind::IntOverflow => "integer does not fit in 32 unsigned bits"@,
        ParseErrorKind::ZeroDivisor => "rule divisor must not be zero"@,
    }
}

fn expected_text_exec(e: Expected) -> (s: &'static str)
    ensures
        s@ == expected_text(e),
{
    match e {
        Expected::StartKeyword => "start",
        Expected::EndKeyword => "end",
        Expected::Colon => ":",
        Expected::Digit => "a digit",
        Expected::RuleOrEnd => "a rule or end of input",
        Expected::Newline => "a newline",
    }
}

/// Render an error as one line of text: [`render_spec`] of the error.
pub fn render(e: &ParseError) -> (s: String)
    ensures
        s@ == render_spec(*e),
{
    match e.kind {
        ParseErrorKind::Unexpected { expected, found } => {
            let mut s = if found.is_some() {
                "Unexpected token in input, expected '".to_owned()
            } else {
                "Unexpected end of input, expected '".to_owned()
            };
            s.append(expected_text_exec(expected));
            s.append("', found '");
            match found {
                Some(c) => {
                    push_char(&mut s, c);
                    proof {
                        assert(s@ =~= (if found is Some {
                            "Unexpected token in input, expected '"@
                        } else {
                            "Unexpected end of input, expected '"@
                        }) + expected_text(expected) + "', found '"@ + found_text(found));
                    }
                },
                None => {
                    s.append("end of file");
                    proof {
                        assert(s@ =~= (if found is Some {
                            "Unexpected token in input, expected '"@
                        } else {
                            "Unexpected end of input, expected '"@
                        }) + expected_text(expected) + "', found '"@ + found_text(found));
                    }
                },
            }
            s.append("'");
            proof {
                assert(s@ =~= render_spec(*e));
            }
            s
        },
        ParseErrorKind::IntOverflow => "integer does not fit in 32 unsigned bits".to_owned(),
        ParseErrorKind::ZeroDivisor => "rule divisor must not be zero".to_owned(),
    }
}

} // verus!
