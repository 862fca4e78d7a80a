use vstd::prelude::*;

verus! {

/// The operator characters that `calculate` accepts.
pub open spec fn is_arith_operator(op: char) -> bool {
    op == '+' || op == '-' || op == '*' || op == 'x' || op == '/' || op == ':'
}

/// The exact value of `a op b`, with division truncated toward zero (a
/// non-negative dividend makes the spec `/` agree with truncation).
pub open spec fn spec_calculate(a: int, b: int, op: char) -> int {
    if op == '+' {
        a + b
    } else if op == '-' {
        a - b
    } else if op == '*' || op == 'x' {
        a * b
    } else if a >= 0 {
        a / b
    } else {
        -((-a) / b)
    }
}

/// Applies a binary arithmetic operator (`x` is another spelling of `*`,
/// `:` of `/`) to two 16-bit operands.
pub fn calculate(first_operand: i16, second_operand: i16, operator: char) -> (r: i16)
    requires
        is_arith_operator(operator),
        (operator == '/' || operator == ':') ==> second_operand != 0,
        i16::MIN <= spec_calculate(first_operand as int, second_operand as int, operator)
            <= i16::MAX,
    ensures
        r as int == spec_calculate(first_operand as int, second_operand as int, operator),
{
    match operator {
        '+' => first_operand + second_operand,
        '-' => first_operand - second_operand,
        '*' | 'x' => first_operand * second_operand,
        _ => first_operand / second_operand,
    }
}

} // verus!
