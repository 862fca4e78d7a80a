use vstd::prelude::*;

use crate::priority::spec_priority;
use crate::processor::{
    flushed, is_bracket, is_operand, postfix, scan, step, unwound, ExpressionProcessor,
    PostfixError, PostfixReversePolishNotation, UnwindRule,
};

verus! {

/// The operand characters of `s`, in order.
pub open spec fn operands(s: Seq<char>) -> Seq<char>
    decreases s.len(),
{
    if s.len() == 0 {
        Seq::empty()
    } else if is_operand(s.last()) {
        operands(s.drop_last()).push(s.last())
    } else {
        operands(s.drop_last())
    }
}

pub open spec fn is_operator(c: char) -> bool {
    c == '+' || c == '-' || c == '*' || c == '/' || c == '^'
}

pub open spec fn has_no_bracket(s: Seq<char>) -> bool {
    forall|k: int| 0 <= k < s.len() ==> !is_bracket(#[trigger] s[k])
}

/// What the operator stack may hold: opening brackets and operators.
pub open spec fn stack_ok(s: Seq<char>) -> bool {
    forall|k: int| 0 <= k < s.len() ==> #[trigger] s[k] == '(' || is_operator(s[k])
}

proof fn lemma_operands_push_other(o: Seq<char>, c: char)
    requires
        !is_operand(c),
    ensures
        operands(o.push(c)) == operands(o),
{
    assert(o.push(c).drop_last() =~= o);
}

proof fn lemma_operands_push_operand(o: Seq<char>, c: char)
    requires
        is_operand(c),
    ensures
        operands(o.push(c)) == operands(o).push(c),
{
    assert(o.push(c).drop_last() =~= o);
}

proof fn lemma_emit_keeps(o: Seq<char>, op: char)
    requires
        is_operator(op),
    ensures
        operands(o + seq![' ', op]) == operands(o),
        has_no_bracket(o) ==> has_no_bracket(o + seq![' ', op]),
{
    assert(o + seq![' ', op] =~= o.push(' ').push(op));
    lemma_operands_push_other(o, ' ');
    lemma_operands_push_other(o.push(' '), op);
}

proof fn lemma_unwound_keeps(o: Seq<char>, s: Seq<char>, rule: UnwindRule)
    requires
        stack_ok(s),
        rule matches UnwindRule::WhileRankAtLeast(rank) ==> rank >= 1,
    ensures
        operands(unwound(o, s, rule).0) == operands(o),
        has_no_bracket(o) ==> has_no_bracket(unwound(o, s, rule).0),
        stack_ok(unwound(o, s, rule).1),
    decreases s.len(),
{
    if s.len() > 0 {
        let top = s.last();
        assert(s[s.len() - 1] == top);
        assert(stack_ok(s.drop_last())) by {
            assert forall|k: int| 0 <= k < s.drop_last().len() implies #[trigger] s.drop_last()[k]
                == '(' || is_operator(s.drop_last()[k]) by {
                assert(s.drop_last()[k] == s[k]);
            }
        }
        if top != '(' {
            lemma_emit_keeps(o, top);
        }
        lemma_unwound_keeps(o + seq![' ', top], s.drop_last(), rule);
    }
}

proof fn lemma_flushed_keeps(o: Seq<char>, s: Seq<char>)
    requires
        stack_ok(s),
        flushed(o, s) is Ok,
    ensures
        operands(flushed(o, s)->Ok_0) == operands(o),
        has_no_bracket(o) ==> has_no_bracket(flushed(o, s)->Ok_0),
    decreases s.len(),
{
    if s.len() > 0 {
        let top = s.last();
        assert(s[s.len() - 1] == top);
        assert(stack_ok(s.drop_last())) by {
            assert forall|k: int| 0 <= k < s.drop_last().len() implies #[trigger] s.drop_last()[k]
                == '(' || is_operator(s.drop_last()[k]) by {
                assert(s.drop_last()[k] == s[k]);
            }
        }
        lemma_emit_keeps(o, top);
        lemma_flushed_keeps(o + seq![' ', top], s.drop_last());
    }
}

proof fn lemma_scan_keeps(e: Seq<char>, n: nat)
    requires
        n <= e.len(),
        scan(e, n) is Ok,
    ensures
        operands((scan(e, n)->Ok_0).0) == operands(e.take(n as int)),
        has_no_bracket((scan(e, n)->Ok_0).0),
        stack_ok((scan(e, n)->Ok_0).1),
    decreases n,
{
    if n == 0 {
        assert(e.take(0) =~= Seq::<char>::empty());
    } else {
        let m = (n - 1) as nat;
        lemma_scan_keeps(e, m);
        let (o, s) = scan(e, m)->Ok_0;
        let c = e[m as int];
        assert(e.take(n as int) =~= e.take(m as int).push(c));
        assert(scan(e, n) == step(o, s, c, m as int));
        if is_operand(c) {
            lemma_operands_push_operand(o, c);
            lemma_operands_push_operand(e.take(m as int), c);
            assert(has_no_bracket(o.push(c))) by {
                assert forall|k: int| 0 <= k < o.push(c).len() implies !is_bracket(
                    #[trigger] o.push(c)[k],
                ) by {
                    if k < o.len() {
                        assert(o.push(c)[k] == o[k]);
                    }
                }
            }
        } else if c == '(' {
            lemma_operands_push_other(e.take(m as int), c);
            assert(stack_ok(s.push(c))) by {
                assert forall|k: int| 0 <= k < s.push(c).len() implies #[trigger] s.push(c)[k]
                    == '(' || is_operator(s.push(c)[k]) by {
                    if k < s.len() {
                        assert(s.push(c)[k] == s[k]);
                    }
                }
            }
        } else if c == ')' {
            lemma_operands_push_other(e.take(m as int), c);
            lemma_unwound_keeps(o, s, UnwindRule::ToOpeningBracket);
        } else {
            let rank = spec_priority(c)->Some_0;
            lemma_operands_push_other(e.take(m as int), c);
            lemma_unwound_keeps(o, s, UnwindRule::WhileRankAtLeast(rank));
            let (o2, s2, _) = unwound(o, s, UnwindRule::WhileRankAtLeast(rank));
            lemma_operands_push_other(o2, ' ');
            assert(has_no_bracket(o2.push(' '))) by {
                assert forall|k: int| 0 <= k < o2.push(' ').len() implies !is_bracket(
                    #[trigger] o2.push(' ')[k],
                ) by {
                    if k < o2.len() {
                        assert(o2.push(' ')[k] == o2[k]);
                    }
                }
            }
            assert(stack_ok(s2.push(c))) by {
                assert forall|k: int| 0 <= k < s2.push(c).len() implies #[trigger] s2.push(c)[k]
                    == '(' || is_operator(s2.push(c)[k]) by {
                    if k < s2.len() {
                        assert(s2.push(c)[k] == s2[k]);
                    }
                }
            }
        }
    }
}

/// A successful conversion keeps the operand characters of the expression,
/// in their order, and emits no bracket: only operators and separating
/// spaces are placed among the operands.
pub proof fn lemma_postfix_keeps_operands(e: Seq<char>)
    requires
        postfix(e) is Ok,
    ensures
        operands(postfix(e)->Ok_0) == operands(e),
        has_no_bracket(postfix(e)->Ok_0),
{
    lemma_scan_keeps(e, e.len());
    assert(e.take(e.len() as int) =~= e);
    let (o, s) = scan(e, e.len())->Ok_0;
    lemma_flushed_keeps(o, s);
}

/// Converting the same expression twice gives the same result, with any
/// two converters: nothing but the expression decides it.
pub proof fn lemma_process_deterministic(
    p: PostfixReversePolishNotation,
    q: PostfixReversePolishNotation,
    e: Seq<char>,
)
    ensures
        p.spec_process(e) == q.spec_process(e),
        p.spec_process(e) == postfix(e),
{
}

/// A character the converter accepts.
pub open spec fn is_supported(c: char) -> bool {
    is_operand(c) || is_bracket(c) || is_operator(c)
}

/// Opening minus closing brackets among the first `n` characters of `e`.
pub open spec fn depth(e: Seq<char>, n: int) -> int
    decreases n,
{
    if n <= 0 {
        0
    } else {
        depth(e, n - 1) + if e[n - 1] == '(' {
            1int
        } else if e[n - 1] == ')' {
            -1int
        } else {
            0int
        }
    }
}

/// The first `n` characters of `e` are all supported and no prefix of them
/// closes more brackets than it opens.
pub open spec fn prefix_ok(e: Seq<char>, n: int) -> bool {
    forall|i: int| 0 <= i < n ==> is_supported(#[trigger] e[i]) && depth(e, i + 1) >= 0
}

/// Every character is supported and the brackets are balanced.
pub open spec fn well_formed(e: Seq<char>) -> bool {
    prefix_ok(e, e.len() as int) && depth(e, e.len() as int) == 0
}

/// The number of opening brackets on the stack `s`.
pub open spec fn count_open(s: Seq<char>) -> nat
    decreases s.len(),
{
    if s.len() == 0 {
        0
    } else {
        count_open(s.drop_last()) + if s.last() == '(' {
            1nat
        } else {
            0nat
        }
    }
}

proof fn lemma_count_open_push(s: Seq<char>, c: char)
    ensures
        count_open(s.push(c)) == count_open(s) + if c == '(' {
            1nat
        } else {
            0nat
        },
{
    assert(s.push(c).drop_last() =~= s);
}

proof fn lemma_stack_ok_drop_last(s: Seq<char>)
    requires
        stack_ok(s),
        s.len() > 0,
    ensures
        stack_ok(s.drop_last()),
        s.last() == '(' || is_operator(s.last()),
{
    assert(s[s.len() - 1] == s.last());
    assert forall|k: int| 0 <= k < s.drop_last().len() implies #[trigger] s.drop_last()[k] == '('
        || is_operator(s.drop_last()[k]) by {
        assert(s.drop_last()[k] == s[k]);
    }
}

proof fn lemma_unwound_count(o: Seq<char>, s: Seq<char>, rule: UnwindRule)
    requires
        stack_ok(s),
        rule matches UnwindRule::WhileRankAtLeast(rank) ==> rank >= 1,
    ensures
        rule is ToOpeningBracket ==> (unwound(o, s, rule).2 <==> count_open(s) > 0),
        rule is ToOpeningBracket && unwound(o, s, rule).2 ==> count_open(unwound(o, s, rule).1)
            == count_open(s) - 1,
        rule is WhileRankAtLeast ==> count_open(unwound(o, s, rule).1) == count_open(s),
    decreases s.len(),
{
    if s.len() > 0 {
        lemma_stack_ok_drop_last(s);
        lemma_unwound_count(o + seq![' ', s.last()], s.drop_last(), rule);
    }
}

proof fn lemma_flushed_outcome(o: Seq<char>, s: Seq<char>)
    requires
        stack_ok(s),
    ensures
        flushed(o, s) is Ok <==> count_open(s) == 0,
        flushed(o, s) is Err ==> flushed(o, s) == Err::<Seq<char>, PostfixError>(
            PostfixError::UnmatchedOpeningBracket,
        ),
    decreases s.len(),
{
    if s.len() > 0 {
        lemma_stack_ok_drop_last(s);
        lemma_flushed_outcome(o + seq![' ', s.last()], s.drop_last());
    }
}

proof fn lemma_scan_outcome(e: Seq<char>, n: nat)
    requires
        n <= e.len() <= usize::MAX,
    ensures
        scan(e, n) is Ok <==> prefix_ok(e, n as int),
        scan(e, n) is Ok ==> count_open((scan(e, n)->Ok_0).1) == depth(e, n as int),
        scan(e, n) matches Err(PostfixError::UnmatchedClosingBracket { position }) ==> position
            < n && e[position as int] == ')' && prefix_ok(e, position as int) && depth(
            e,
            position as int,
        ) == 0,
        scan(e, n) matches Err(PostfixError::UnsupportedOperator { symbol, position }) ==> position
            < n && e[position as int] == symbol && !is_supported(symbol) && prefix_ok(
            e,
            position as int,
        ),
        scan(e, n) != Err::<(Seq<char>, Seq<char>), PostfixError>(
            PostfixError::UnmatchedOpeningBracket,
        ),
    decreases n,
{
    if n > 0 {
        let m = (n - 1) as nat;
        lemma_scan_outcome(e, m);
        if scan(e, m) is Ok {
            lemma_scan_keeps(e, m);
            let (o, s) = scan(e, m)->Ok_0;
            let c = e[m as int];
            assert(scan(e, n) == step(o, s, c, m as int));
            assert(depth(e, n as int) == depth(e, m as int) + if c == '(' {
                1int
            } else if c == ')' {
                -1int
            } else {
                0int
            });
            if is_operand(c) {
            } else if c == '(' {
                lemma_count_open_push(s, c);
            } else if c == ')' {
                lemma_unwound_count(o, s, UnwindRule::ToOpeningBracket);
            } else if spec_priority(c) is Some {
                let rank = spec_priority(c)->Some_0;
                lemma_unwound_count(o, s, UnwindRule::WhileRankAtLeast(rank));
                let s2 = unwound(o, s, UnwindRule::WhileRankAtLeast(rank)).1;
                lemma_count_open_push(s2, c);
            }
            if scan(e, n) is Ok {
                assert forall|i: int| 0 <= i < n implies is_supported(#[trigger] e[i]) && depth(
                    e,
                    i + 1,
                ) >= 0 by {
                    if i < m {
                        assert(is_supported(e[i]));
                    }
                }
            } else {
                assert(!is_supported(e[m as int]) || depth(e, n as int) < 0);
            }
        } else {
            assert(!prefix_ok(e, n as int)) by {
                if prefix_ok(e, n as int) {
                    assert forall|i: int| 0 <= i < m implies is_supported(#[trigger] e[i]) && depth(
                        e,
                        i + 1,
                    ) >= 0 by {
                        assert(is_supported(e[i]));
                    }
                }
            }
        }
    }
}

/// Conversion succeeds exactly on expressions whose characters are all
/// supported and whose brackets balance. Otherwise it reports the first
/// fault in scan order: an unsupported character or an unmatched `)` at
/// its index, each after a prefix free of faults, or, with no such fault,
/// a `(` left open at the end.
pub proof fn lemma_postfix_outcome(e: Seq<char>)
    requires
        e.len() <= usize::MAX,
    ensures
        postfix(e) is Ok <==> well_formed(e),
        postfix(e) == Err::<Seq<char>, PostfixError>(PostfixError::UnmatchedOpeningBracket) <==> (
        prefix_ok(e, e.len() as int) && depth(e, e.len() as int) > 0),
        postfix(e) matches Err(PostfixError::UnmatchedClosingBracket { position }) ==> position
            < e.len() && e[position as int] == ')' && prefix_ok(e, position as int) && depth(
            e,
            position as int,
        ) == 0,
        postfix(e) matches Err(PostfixError::UnsupportedOperator { symbol, position }) ==> position
            < e.len() && e[position as int] == symbol && !is_supported(symbol) && prefix_ok(
            e,
            position as int,
        ),
{
    lemma_scan_outcome(e, e.len());
    if scan(e, e.len()) is Ok {
        lemma_scan_keeps(e, e.len());
        let (o, s) = scan(e, e.len())->Ok_0;
        lemma_flushed_outcome(o, s);
        assert(depth(e, e.len() as int) >= 0) by {
            if e.len() > 0 {
                assert(is_supported(e[e.len() - 1]));
            }
        }
    }
}

/// How many times `x` occurs in `s`.
pub open spec fn occurrences(s: Seq<char>, x: char) -> nat
    decreases s.len(),
{
    if s.len() == 0 {
        0
    } else {
        occurrences(s.drop_last(), x) + if s.last() == x {
            1nat
        } else {
            0nat
        }
    }
}

proof fn lemma_occurrences_push(s: Seq<char>, c: char, x: char)
    ensures
        occurrences(s.push(c), x) == occurrences(s, x) + if c == x {
            1nat
        } else {
            0nat
        },
{
    assert(s.push(c).drop_last() =~= s);
}

proof fn lemma_occurrences_emit(o: Seq<char>, op: char, x: char)
    requires
        is_operator(x),
    ensures
        occurrences(o + seq![' ', op], x) == occurrences(o, x) + if op == x {
            1nat
        } else {
            0nat
        },
{
    assert(o + seq![' ', op] =~= o.push(' ').push(op));
    lemma_occurrences_push(o, ' ', x);
    lemma_occurrences_push(o.push(' '), op, x);
}

proof fn lemma_unwound_occurrences(o: Seq<char>, s: Seq<char>, rule: UnwindRule, x: char)
    requires
        stack_ok(s),
        is_operator(x),
    ensures
        occurrences(unwound(o, s, rule).0, x) + occurrences(unwound(o, s, rule).1, x)
            == occurrences(o, x) + occurrences(s, x),
    decreases s.len(),
{
    if s.len() > 0 {
        lemma_stack_ok_drop_last(s);
        lemma_occurrences_emit(o, s.last(), x);
        lemma_unwound_occurrences(o + seq![' ', s.last()], s.drop_last(), rule, x);
    }
}

proof fn lemma_flushed_occurrences(o: Seq<char>, s: Seq<char>, x: char)
    requires
        stack_ok(s),
        is_operator(x),
        flushed(o, s) is Ok,
    ensures
        occurrences(flushed(o, s)->Ok_0, x) == occurrences(o, x) + occurrences(s, x),
    decreases s.len(),
{
    if s.len() > 0 {
        lemma_stack_ok_drop_last(s);
        lemma_occurrences_emit(o, s.last(), x);
        lemma_flushed_occurrences(o + seq![' ', s.last()], s.drop_last(), x);
    }
}

proof fn lemma_scan_occurrences(e: Seq<char>, n: nat, x: char)
    requires
        n <= e.len(),
        scan(e, n) is Ok,
        is_operator(x),
    ensures
        occurrences((scan(e, n)->Ok_0).0, x) + occurrences((scan(e, n)->Ok_0).1, x)
            == occurrences(e.take(n as int), x),
    decreases n,
{
    if n == 0 {
        assert(e.take(0) =~= Seq::<char>::empty());
    } else {
        let m = (n - 1) as nat;
        lemma_scan_occurrences(e, m, x);
        lemma_scan_keeps(e, m);
        let (o, s) = scan(e, m)->Ok_0;
        let c = e[m as int];
        assert(e.take(n as int) =~= e.take(m as int).push(c));
        lemma_occurrences_push(e.take(m as int), c, x);
        assert(scan(e, n) == step(o, s, c, m as int));
        if is_operand(c) {
            lemma_occurrences_push(o, c, x);
        } else if c == '(' {
            lemma_occurrences_push(s, c, x);
        } else if c == ')' {
            lemma_unwound_occurrences(o, s, UnwindRule::ToOpeningBracket, x);
        } else {
            let rank = spec_priority(c)->Some_0;
            lemma_unwound_occurrences(o, s, UnwindRule::WhileRankAtLeast(rank), x);
            let (o2, s2, _) = unwound(o, s, UnwindRule::WhileRankAtLeast(rank));
            lemma_occurrences_push(o2, ' ', x);
            lemma_occurrences_push(s2, c, x);
        }
    }
}

/// A successful conversion emits each operator symbol exactly as many times
/// as the expression holds it.
pub proof fn lemma_postfix_keeps_operators(e: Seq<char>, x: char)
    requires
        postfix(e) is Ok,
        is_operator(x),
    ensures
        occurrences(postfix(e)->Ok_0, x) == occurrences(e, x),
{
    lemma_scan_occurrences(e, e.len(), x);
    lemma_scan_keeps(e, e.len());
    assert(e.take(e.len() as int) =~= e);
    let (o, s) = scan(e, e.len())->Ok_0;
    lemma_flushed_occurrences(o, s, x);
}

} // verus!
