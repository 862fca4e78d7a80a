use vstd::prelude::*;

verus! {

/// The rank of an operator symbol on the operator stack, or `None` for a
/// character that is not one. The opening bracket has the lowest rank, so a
/// precedence comparison never displaces it.
pub open spec fn spec_priority(c: char) -> Option<usize> {
    if c == '(' {
        Some(0)
    } else if c == '+' || c == '-' {
        Some(1)
    } else if c == '*' || c == '/' {
        Some(2)
    } else if c == '^' {
        Some(3)
    } else {
        None
    }
}

/// Looks up the rank of `c` in the fixed priority table.
pub fn priority(c: char) -> (r: Option<usize>)
    ensures
        r == spec_priority(c),
{
    match c {
        '(' => Some(0),
        '+' | '-' => Some(1),
        '*' | '/' => Some(2),
        '^' => Some(3),
        _ => None,
    }
}

} // verus!
