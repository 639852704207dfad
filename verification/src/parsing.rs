//! Reading a whole source text.
use vstd::prelude::*;
use crate::value::NixValue;
use crate::lexer::Lexer;
use crate::grammar::p_value;

verus! {

/// The value that `content`, read from the file `path`, holds (see
/// `p_value`), or the error message of the first place where reading fails.
pub fn parse_source(content: &str, path: String) -> (r: Result<NixValue, String>)
    ensures
        match r {
            Ok(v) => p_value(content@, 0).0 == Some(v@),
            Err(_) => p_value(content@, 0).0 is None,
        },
{
    let mut lexer = Lexer::new(content, path);
    lexer.parse_value()
}

} // verus!
