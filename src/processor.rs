use vstd::prelude::*;

use crate::priority::{priority, spec_priority};
use crate::text::{chars_of, string_of};

verus! {

/// Why an expression could not be converted. Conversion stops at the first
/// such error, scanning left to right.
#[derive(Debug, Clone, Copy, PartialEq, Eq, Structural)]
pub enum PostfixError {
    /// A `)` at `position` (a character index) with no `(` open before it.
    UnmatchedClosingBracket { position: usize },
    /// A `(` still open when the input ends.
    UnmatchedOpeningBracket,
    /// A character that is neither operand, bracket nor known operator.
    UnsupportedOperator { symbol: char, position: usize },
}

/// An operand character: an ASCII digit or an ASCII letter.
pub open spec fn is_operand(c: char) -> bool {
    ('0' <= c && c <= '9') || ('a' <= c && c <= 'z') || ('A' <= c && c <= 'Z')
}

pub open spec fn is_bracket(c: char) -> bool {
    c == '(' || c == ')'
}

/// What the unwinder does with the symbol on top of the operator stack
/// once it stops.
#[derive(Clone, Copy, PartialEq, Eq, Structural)]
pub enum StoppingFlags {
    /// Pop it without emitting it (a matched opening bracket).
    PopCurrent,
    /// Leave it on the stack.
    KeepCurrent,
}

/// The decision taken on the symbol on top of the operator stack.
#[derive(Clone, Copy, PartialEq, Eq, Structural)]
pub enum Unwinding {
    Stop(StoppingFlags),
    /// Pop the symbol, emit it, and look at the next one.
    Continue,
}

/// When the unwinder stops.
#[derive(Clone, Copy, PartialEq, Eq, Structural)]
pub enum UnwindRule {
    /// At the nearest opening bracket, which is consumed.
    ToOpeningBracket,
    /// At the first symbol whose rank is below the given one.
    WhileRankAtLeast(usize),
}

pub open spec fn decision(top: char, rule: UnwindRule) -> Unwinding {
    match rule {
        UnwindRule::ToOpeningBracket => if top == '(' {
            Unwinding::Stop(StoppingFlags::PopCurrent)
        } else {
            Unwinding::Continue
        },
        UnwindRule::WhileRankAtLeast(rank) => match spec_priority(top) {
            Some(r) => if r >= rank {
                Unwinding::Continue
            } else {
                Unwinding::Stop(StoppingFlags::KeepCurrent)
            },
            None => Unwinding::Stop(StoppingFlags::KeepCurrent),
        },
    }
}

/// The output buffer and operator stack after unwinding under `rule`, and
/// whether the unwinder stopped by popping a symbol.
pub open spec fn unwound(out: Seq<char>, stack: Seq<char>, rule: UnwindRule) -> (Seq<
    char,
>, Seq<char>, bool)
    decreases stack.len(),
{
    if stack.len() == 0 {
        (out, stack, false)
    } else {
        let top = stack.last();
        match decision(top, rule) {
            Unwinding::Continue => unwound(out + seq![' ', top], stack.drop_last(), rule),
            Unwinding::Stop(StoppingFlags::PopCurrent) => (out, stack.drop_last(), true),
            Unwinding::Stop(StoppingFlags::KeepCurrent) => (out, stack, false),
        }
    }
}

/// One character `c`, at index `i`, of the left-to-right scan.
pub open spec fn step(out: Seq<char>, stack: Seq<char>, c: char, i: int) -> Result<
    (Seq<char>, Seq<char>),
    PostfixError,
> {
    if is_operand(c) {
        Ok((out.push(c), stack))
    } else if c == '(' {
        Ok((out, stack.push(c)))
    } else if c == ')' {
        let (o, s, found) = unwound(out, stack, UnwindRule::ToOpeningBracket);
        if found {
            Ok((o, s))
        } else {
            Err(PostfixError::UnmatchedClosingBracket { position: i as usize })
        }
    } else {
        match spec_priority(c) {
            Some(rank) => {
                let (o, s, _) = unwound(out, stack, UnwindRule::WhileRankAtLeast(rank));
                Ok((o.push(' '), s.push(c)))
            },
            None => Err(PostfixError::UnsupportedOperator { symbol: c, position: i as usize }),
        }
    }
}

/// Output buffer and operator stack after the first `n` characters of `e`.
pub open spec fn scan(e: Seq<char>, n: nat) -> Result<(Seq<char>, Seq<char>), PostfixError>
    decreases n,
{
    if n == 0 {
        Ok((Seq::empty(), Seq::empty()))
    } else {
        match scan(e, (n - 1) as nat) {
            Ok((o, s)) => step(o, s, e[n - 1], n - 1),
            Err(x) => Err(x),
        }
    }
}

/// End of input: the stack is emitted top to bottom; a bracket left on it
/// was never closed.
pub open spec fn flushed(out: Seq<char>, stack: Seq<char>) -> Result<Seq<char>, PostfixError>
    decreases stack.len(),
{
    if stack.len() == 0 {
        Ok(out)
    } else if is_bracket(stack.last()) {
        Err(PostfixError::UnmatchedOpeningBracket)
    } else {
        flushed(out + seq![' ', stack.last()], stack.drop_last())
    }
}

/// The postfix form of the infix expression `e`, or the first error.
pub open spec fn postfix(e: Seq<char>) -> Result<Seq<char>, PostfixError> {
    match scan(e, e.len()) {
        Ok((o, s)) => flushed(o, s),
        Err(x) => Err(x),
    }
}

pub open spec fn result_view(r: Result<String, PostfixError>) -> Result<Seq<char>, PostfixError> {
    match r {
        Ok(s) => Ok(s@),
        Err(x) => Err(x),
    }
}

/// Once the scan has failed, it stays failed with the same error.
proof fn lemma_scan_error_sticks(e: Seq<char>, n: nat, m: nat)
    requires
        n <= m,
        scan(e, n) is Err,
    ensures
        scan(e, m) == scan(e, n),
    decreases m - n,
{
    if n < m {
        lemma_scan_error_sticks(e, n, (m - 1) as nat);
    }
}

pub fn is_operand_char(c: char) -> (r: bool)
    ensures
        r == is_operand(c),
{
    ('0' <= c && c <= '9') || ('a' <= c && c <= 'z') || ('A' <= c && c <= 'Z')
}

fn decide(top: char, rule: UnwindRule) -> (r: Unwinding)
    ensures
        r == decision(top, rule),
{
    match rule {
        UnwindRule::ToOpeningBracket => if top == '(' {
            Unwinding::Stop(StoppingFlags::PopCurrent)
        } else {
            Unwinding::Continue
        },
        UnwindRule::WhileRankAtLeast(rank) => match priority(top) {
            Some(r) => if r >= rank {
                Unwinding::Continue
            } else {
                Unwinding::Stop(StoppingFlags::KeepCurrent)
            },
            None => Unwinding::Stop(StoppingFlags::KeepCurrent),
        },
    }
}

/// Something that turns an infix expression into another notation.
pub trait ExpressionProcessor {
    /// What `process` returns for the characters of the expression.
    spec fn spec_process(&self, expression: Seq<char>) -> Result<Seq<char>, PostfixError>;

    fn process(&self, expression: &String) -> (r: Result<String, PostfixError>)
        ensures
            result_view(r) == self.spec_process(expression@),
    ;
}

/// Converts infix expressions to space-separated postfix notation.
pub struct PostfixReversePolishNotation {}

impl PostfixReversePolishNotation {
    pub fn new() -> Self {
        PostfixReversePolishNotation {  }
    }

    /// Emits `op` after a separating space.
    fn append_operator_postfix(&self, op: char, postfix_expr: &mut Vec<char>)
        ensures
            final(postfix_expr)@ == old(postfix_expr)@ + seq![' ', op],
    {
        postfix_expr.push(' ');
        postfix_expr.push(op);
    }

    /// Pops and emits symbols from the top of the stack until `rule` says
    /// stop; returns whether the symbol it stopped at was popped.
    fn unwind(&self, operators_stack: &mut Vec<char>, postfix_expr: &mut Vec<char>, rule: UnwindRule) -> (popped: bool)
        ensures
            unwound(old(postfix_expr)@, old(operators_stack)@, rule) == (
                final(postfix_expr)@,
                final(operators_stack)@,
                popped,
            ),
    {
        loop
            invariant
                unwound(old(postfix_expr)@, old(operators_stack)@, rule) == unwound(
                    postfix_expr@,
                    operators_stack@,
                    rule,
                ),
            decreases operators_stack.len(),
        {
            if operators_stack.len() == 0 {
                return false;
            }
            let top = operators_stack[operators_stack.len() - 1];
            match decide(top, rule) {
                Unwinding::Stop(flags) => {
                    match flags {
                        StoppingFlags::PopCurrent => {
                            operators_stack.pop();
                            return true;
                        },
                        StoppingFlags::KeepCurrent => {
                            return false;
                        },
                    }
                },
                Unwinding::Continue => {
                    operators_stack.pop();
                    self.append_operator_postfix(top, postfix_expr);
                },
            }
        }
    }

    /// Converts `origin_expression` from infix to postfix notation.
    pub fn to_postfix_expression(&self, origin_expression: &String) -> (r: Result<
        String,
        PostfixError,
    >)
        ensures
            result_view(r) == postfix(origin_expression@),
    {
        let chars = chars_of(origin_expression);
        let mut postfix_expr: Vec<char> = Vec::new();
        let mut operators_stack: Vec<char> = Vec::new();
        let mut i: usize = 0;
        while i < chars.len()
            invariant
                i <= chars.len(),
                chars@ == origin_expression@,
                scan(chars@, i as nat) == Ok::<_, PostfixError>((postfix_expr@, operators_stack@)),
            decreases chars.len() - i,
        {
            let c = chars[i];
            assert(scan(chars@, (i + 1) as nat) == step(postfix_expr@, operators_stack@, c, i as int));
            if is_operand_char(c) {
                postfix_expr.push(c);
            } else if c == '(' {
                operators_stack.push(c);
            } else if c == ')' {
                let found = self.unwind(&mut operators_stack, &mut postfix_expr, UnwindRule::ToOpeningBracket);
                if !found {
                    proof {
                        lemma_scan_error_sticks(chars@, (i + 1) as nat, chars@.len());
                    }
                    return Err(PostfixError::UnmatchedClosingBracket { position: i });
                }
            } else {
                match priority(c) {
                    Some(rank) => {
                        self.unwind(&mut operators_stack, &mut postfix_expr, UnwindRule::WhileRankAtLeast(rank));
                        operators_stack.push(c);
                        postfix_expr.push(' ');
                    },
                    None => {
                        proof {
                            lemma_scan_error_sticks(chars@, (i + 1) as nat, chars@.len());
                        }
                        return Err(PostfixError::UnsupportedOperator { symbol: c, position: i });
                    },
                }
            }
            i += 1;
        }
        while operators_stack.len() > 0
            invariant
                postfix(origin_expression@) == flushed(postfix_expr@, operators_stack@),
            decreases operators_stack.len(),
        {
            let top = operators_stack[operators_stack.len() - 1];
            if top == '(' || top == ')' {
                return Err(PostfixError::UnmatchedOpeningBracket);
            }
            operators_stack.pop();
            self.append_operator_postfix(top, &mut postfix_expr);
        }
        Ok(string_of(&postfix_expr))
    }
}

impl ExpressionProcessor for PostfixReversePolishNotation {
    open spec fn spec_process(&self, expression: Seq<char>) -> Result<Seq<char>, PostfixError> {
        postfix(expression)
    }

    fn process(&self, expression: &String) -> (r: Result<String, PostfixError>) {
        self.to_postfix_expression(expression)
    }
}

} // verus!
