//! A cruder whitespace stripper over the same language family, independent of
//! the token tree: one pass, no offsets, no directives.

pub mod lua_ws;

use vstd::prelude::*;

verus! {

/// Strips comments and needless whitespace from source text.
pub fn strip_whitespace(code: &[u8]) -> (r: Vec<u8>)
    ensures
        r@ == crate::whitespace::lua_ws::strip_spec(
            code@,
            0,
            crate::whitespace::lua_ws::WsTokenType::Other,
        ),
{
    crate::whitespace::lua_ws::strip_whitespace(code)
}

} // verus!
