//! Colors are stored as `#RRGGBB` strings.

use vstd::prelude::*;

verus! {

/// Why a color string was refused.
#[derive(Debug, Clone, Copy, PartialEq, Eq, Structural)]
pub enum IncorrectColor {
    /// The string is not exactly seven bytes long.
    IncompatibleColorLen,
    /// The string does not start with `#`.
    IncompatibleColorBeginning,
}

/// A color is accepted when it is exactly seven bytes and its first byte is `#`.
pub open spec fn is_valid_color(s: Seq<char>) -> bool {
    &&& vstd::utf8::encode_utf8(s).len() == 7
    &&& vstd::utf8::encode_utf8(s)[0] == 35u8
}

/// Checks that `color` has the `#RRGGBB` shape: length first, then the leading `#`.
pub fn validate_color(color: &str) -> (r: Result<(), IncorrectColor>)
    ensures
        r is Ok <==> is_valid_color(color@),
        r == Err::<(), _>(IncorrectColor::IncompatibleColorLen)
            <==> vstd::utf8::encode_utf8(color@).len() != 7,
{
    if color.len() != 7 {
        return Err(IncorrectColor::IncompatibleColorLen);
    }
    let bytes = color.as_bytes();
    if bytes[0] != 35u8 {
        return Err(IncorrectColor::IncompatibleColorBeginning);
    }
    Ok(())
}

} // verus!
