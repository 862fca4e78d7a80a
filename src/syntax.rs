use vstd::prelude::*;

use crate::arith::spec_calculate;
use crate::laws::is_operator;
use crate::priority::spec_priority;
use crate::processor::{
    flushed, is_operand, postfix, scan, step, unwound, PostfixError, UnwindRule,
};

verus! {

/// The syntax tree of an infix expression.
pub enum Expr {
    /// A run of operand characters.
    Operand(Seq<char>),
    /// `left op right`.
    Binary(char, Box<Expr>, Box<Expr>),
    /// `( inner )`.
    Group(Box<Expr>),
}

/// The rank of an operator (0 for anything else).
pub open spec fn rank(c: char) -> int {
    match spec_priority(c) {
        Some(r) => r as int,
        None => 0,
    }
}

/// How loosely the root of `t` binds: the rank of its operator, or above
/// every rank for an operand or a bracket group.
pub open spec fn binding(t: Expr) -> int {
    match t {
        Expr::Binary(op, _, _) => rank(op),
        _ => 4,
    }
}

/// `t` is the tree that standard precedence gives its rendering: a left
/// operand binds at least as tightly as its operator (left associativity),
/// a right operand more tightly. A power has no unbracketed power beside it,
/// since powers group to the right by the standard rules.
pub open spec fn standard(t: Expr) -> bool
    decreases t,
{
    match t {
        Expr::Operand(d) => d.len() > 0 && forall|k: int| 0 <= k < d.len() ==> is_operand(#[trigger] d[k]),
        Expr::Group(x) => standard(*x),
        Expr::Binary(op, l, r) => is_operator(op) && standard(*l) && standard(*r) && binding(*r)
            > rank(op) && if op == '^' {
            binding(*l) > rank(op)
        } else {
            binding(*l) >= rank(op)
        },
    }
}

/// The infix text of `t`.
pub open spec fn render(t: Expr) -> Seq<char>
    decreases t,
{
    match t {
        Expr::Operand(d) => d,
        Expr::Group(x) => seq!['('] + render(*x) + seq![')'],
        Expr::Binary(op, l, r) => render(*l) + seq![op] + render(*r),
    }
}

/// The postfix text of `t`: operands, then their operator, single spaces
/// between tokens.
pub open spec fn rpn(t: Expr) -> Seq<char>
    decreases t,
{
    match t {
        Expr::Operand(d) => d,
        Expr::Group(x) => rpn(*x),
        Expr::Binary(op, l, r) => rpn(*l) + seq![' '] + rpn(*r) + seq![' ', op],
    }
}

/// The scan of `w` from the state `(out, stack)`, its first character at
/// index `base`.
pub open spec fn run(out: Seq<char>, stack: Seq<char>, w: Seq<char>, base: int) -> Result<
    (Seq<char>, Seq<char>),
    PostfixError,
>
    decreases w.len(),
{
    if w.len() == 0 {
        Ok((out, stack))
    } else {
        match run(out, stack, w.drop_last(), base) {
            Ok((o, s)) => step(o, s, w.last(), base + w.len() - 1),
            Err(x) => Err(x),
        }
    }
}

/// What is emitted when the operators `p` leave the stack, top first.
pub open spec fn emit(p: Seq<char>) -> Seq<char>
    decreases p.len(),
{
    if p.len() == 0 {
        Seq::empty()
    } else {
        seq![' ', p.last()] + emit(p.drop_last())
    }
}

/// Output written once `t` has been scanned.
pub open spec fn written(t: Expr) -> Seq<char>
    decreases t,
{
    match t {
        Expr::Binary(_, l, r) => rpn(*l) + seq![' '] + written(*r),
        Expr::Group(x) => rpn(*x),
        Expr::Operand(d) => d,
    }
}

/// Operators of `t` still on the stack once `t` has been scanned.
pub open spec fn pending(t: Expr) -> Seq<char>
    decreases t,
{
    match t {
        Expr::Binary(op, _, r) => seq![op] + pending(*r),
        _ => Seq::empty(),
    }
}

/// The stack's top does not give way to an operator of rank `p`.
pub open spec fn lower(s: Seq<char>, p: int) -> bool {
    s.len() == 0 || rank(s.last()) < p
}

pub open spec fn operators_from(p: Seq<char>, min: int) -> bool {
    forall|k: int| 0 <= k < p.len() ==> is_operator(#[trigger] p[k]) && rank(p[k]) >= min
}

proof fn lemma_emit_prepend(op: char, p: Seq<char>)
    ensures
        emit(seq![op] + p) == emit(p) + seq![' ', op],
    decreases p.len(),
{
    if p.len() == 0 {
        assert(seq![op] + p =~= seq![op]);
        assert((seq![op]).drop_last() =~= Seq::<char>::empty());
        assert(emit(Seq::<char>::empty()) =~= Seq::<char>::empty());
        assert(seq![op].last() == op);
        assert(emit(seq![op]) =~= seq![' ', op]);
    } else {
        assert((seq![op] + p).drop_last() =~= seq![op] + p.drop_last());
        lemma_emit_prepend(op, p.drop_last());
        assert(emit(seq![op] + p) =~= emit(p) + seq![' ', op]);
    }
}

proof fn lemma_rpn_split(t: Expr)
    ensures
        rpn(t) == written(t) + emit(pending(t)),
    decreases t,
{
    match t {
        Expr::Binary(op, l, r) => {
            lemma_rpn_split(*r);
            lemma_emit_prepend(op, pending(*r));
            assert(rpn(t) =~= written(t) + emit(pending(t)));
        },
        Expr::Group(x) => {
            assert(written(t) + emit(pending(t)) =~= rpn(t));
        },
        Expr::Operand(d) => {
            assert(written(t) + emit(pending(t)) =~= rpn(t));
        },
    }
}

proof fn lemma_run_concat(o: Seq<char>, s: Seq<char>, a: Seq<char>, b: Seq<char>, base: int)
    ensures
        run(o, s, a, base) is Err ==> run(o, s, a + b, base) == run(o, s, a, base),
        run(o, s, a, base) is Ok ==> run(o, s, a + b, base) == run(
            (run(o, s, a, base)->Ok_0).0,
            (run(o, s, a, base)->Ok_0).1,
            b,
            base + a.len(),
        ),
    decreases b.len(),
{
    if b.len() == 0 {
        assert(a + b =~= a);
    } else {
        assert((a + b).drop_last() =~= a + b.drop_last());
        lemma_run_concat(o, s, a, b.drop_last(), base);
    }
}

proof fn lemma_run_one(o: Seq<char>, s: Seq<char>, c: char, base: int)
    ensures
        run(o, s, seq![c], base) == step(o, s, c, base),
{
    assert(seq![c].drop_last() =~= Seq::<char>::empty());
    assert(run(o, s, Seq::<char>::empty(), base) == Ok::<_, PostfixError>((o, s)));
    assert(seq![c].last() == c);
}

proof fn lemma_run_operand(o: Seq<char>, s: Seq<char>, d: Seq<char>, base: int)
    requires
        forall|k: int| 0 <= k < d.len() ==> is_operand(#[trigger] d[k]),
    ensures
        run(o, s, d, base) == Ok::<_, PostfixError>((o + d, s)),
    decreases d.len(),
{
    if d.len() == 0 {
        assert(o + d =~= o);
    } else {
        assert(d[d.len() - 1] == d.last());
        lemma_run_operand(o, s, d.drop_last(), base);
        assert((o + d.drop_last()).push(d.last()) =~= o + d);
    }
}

proof fn lemma_unwind_pending(o: Seq<char>, s: Seq<char>, p: Seq<char>, min: int)
    requires
        1 <= min <= 3,
        lower(s, min),
        operators_from(p, min),
    ensures
        unwound(o, s + p, UnwindRule::WhileRankAtLeast(min as usize)) == (o + emit(p), s, false),
    decreases p.len(),
{
    if p.len() == 0 {
        assert(s + p =~= s);
        assert(o + emit(p) =~= o);
    } else {
        assert(p[p.len() - 1] == p.last());
        assert((s + p).drop_last() =~= s + p.drop_last());
        assert((s + p).last() == p.last());
        assert(operators_from(p.drop_last(), min)) by {
            assert forall|k: int| 0 <= k < p.drop_last().len() implies is_operator(
                #[trigger] p.drop_last()[k],
            ) && rank(p.drop_last()[k]) >= min by {
                assert(p.drop_last()[k] == p[k]);
            }
        }
        lemma_unwind_pending(o + seq![' ', p.last()], s, p.drop_last(), min);
        assert(o + seq![' ', p.last()] + emit(p.drop_last()) =~= o + emit(p));
    }
}

proof fn lemma_close_pending(o: Seq<char>, s: Seq<char>, p: Seq<char>)
    requires
        operators_from(p, 1),
    ensures
        unwound(o, s.push('(') + p, UnwindRule::ToOpeningBracket) == (o + emit(p), s, true),
    decreases p.len(),
{
    if p.len() == 0 {
        assert(s.push('(') + p =~= s.push('('));
        assert(s.push('(').drop_last() =~= s);
        assert(o + emit(p) =~= o);
    } else {
        assert(p[p.len() - 1] == p.last());
        assert((s.push('(') + p).drop_last() =~= s.push('(') + p.drop_last());
        assert((s.push('(') + p).last() == p.last());
        assert(operators_from(p.drop_last(), 1)) by {
            assert forall|k: int| 0 <= k < p.drop_last().len() implies is_operator(
                #[trigger] p.drop_last()[k],
            ) && rank(p.drop_last()[k]) >= 1 by {
                assert(p.drop_last()[k] == p[k]);
            }
        }
        lemma_close_pending(o + seq![' ', p.last()], s, p.drop_last());
        assert(o + seq![' ', p.last()] + emit(p.drop_last()) =~= o + emit(p));
    }
}

proof fn lemma_flush_pending(o: Seq<char>, p: Seq<char>)
    requires
        operators_from(p, 1),
    ensures
        flushed(o, p) == Ok::<_, PostfixError>(o + emit(p)),
    decreases p.len(),
{
    if p.len() == 0 {
        assert(o + emit(p) =~= o);
    } else {
        assert(p[p.len() - 1] == p.last());
        assert(operators_from(p.drop_last(), 1)) by {
            assert forall|k: int| 0 <= k < p.drop_last().len() implies is_operator(
                #[trigger] p.drop_last()[k],
            ) && rank(p.drop_last()[k]) >= 1 by {
                assert(p.drop_last()[k] == p[k]);
            }
        }
        lemma_flush_pending(o + seq![' ', p.last()], p.drop_last());
        assert(o + seq![' ', p.last()] + emit(p.drop_last()) =~= o + emit(p));
    }
}

proof fn lemma_binding_positive(t: Expr)
    requires
        standard(t),
    ensures
        binding(t) >= 1,
{
    match t {
        Expr::Binary(op, _, _) => {
            assert(is_operator(op));
        },
        _ => {},
    }
}

proof fn lemma_run_standard(t: Expr, o: Seq<char>, s: Seq<char>, base: int)
    requires
        standard(t),
        lower(s, binding(t)),
    ensures
        run(o, s, render(t), base) == Ok::<_, PostfixError>((o + written(t), s + pending(t))),
        operators_from(pending(t), binding(t)),
    decreases t,
{
    match t {
        Expr::Operand(d) => {
            lemma_run_operand(o, s, d, base);
            assert(s + pending(t) =~= s);
        },
        Expr::Group(x) => {
            let inner = render(*x);
            lemma_run_one(o, s, '(', base);
            lemma_run_concat(o, s, seq!['('], inner, base);
            assert(s.push('(').last() == '(');
            assert(rank('(') == 0);
            lemma_binding_positive(*x);
            lemma_run_standard(*x, o, s.push('('), base + 1);
            lemma_run_concat(o, s, seq!['('] + inner, seq![')'], base);
            lemma_run_one(o + written(*x), s.push('(') + pending(*x), ')', base + 1 + inner.len());
            lemma_close_pending(o + written(*x), s, pending(*x));
            lemma_rpn_split(*x);
            assert(o + written(*x) + emit(pending(*x)) =~= o + written(t));
            assert(s + pending(t) =~= s);
        },
        Expr::Binary(op, l, r) => {
            let left = render(*l);
            let k = rank(op);
            lemma_run_standard(*l, o, s, base);
            lemma_run_concat(o, s, left, seq![op], base);
            lemma_run_one(o + written(*l), s + pending(*l), op, base + left.len());
            lemma_unwind_pending(o + written(*l), s, pending(*l), k);
            lemma_rpn_split(*l);
            let o1 = (o + written(*l) + emit(pending(*l))).push(' ');
            assert(o1 =~= o + rpn(*l) + seq![' ']);
            lemma_run_standard(*r, o1, s.push(op), base + left.len() + 1);
            lemma_run_concat(o, s, left + seq![op], render(*r), base);
            assert(o1 + written(*r) =~= o + written(t));
            assert(s.push(op) + pending(*r) =~= s + pending(t));
            assert(operators_from(pending(t), k)) by {
                assert forall|j: int| 0 <= j < pending(t).len() implies is_operator(
                    #[trigger] pending(t)[j],
                ) && rank(pending(t)[j]) >= k by {
                    if j > 0 {
                        assert(pending(t)[j] == pending(*r)[j - 1]);
                    }
                }
            }
        },
    }
}

proof fn lemma_scan_is_run(e: Seq<char>, n: nat)
    requires
        n <= e.len(),
    ensures
        scan(e, n) == run(Seq::empty(), Seq::empty(), e.take(n as int), 0),
    decreases n,
{
    if n > 0 {
        lemma_scan_is_run(e, (n - 1) as nat);
        assert(e.take(n as int).drop_last() =~= e.take(n - 1));
    }
}

/// For every expression in standard form, the output is the postfix form of
/// its syntax tree: each operator follows its two operands, as standard
/// precedence and left associativity group them. A postfix evaluator
/// therefore computes from the output what standard infix evaluation
/// computes from the input.
pub proof fn lemma_postfix_of_standard(t: Expr)
    requires
        standard(t),
    ensures
        postfix(render(t)) == Ok::<_, PostfixError>(rpn(t)),
{
    let e = render(t);
    lemma_scan_is_run(e, e.len());
    assert(e.take(e.len() as int) =~= e);
    lemma_run_standard(t, Seq::empty(), Seq::empty(), 0);
    assert(Seq::<char>::empty() + written(t) =~= written(t));
    assert(Seq::<char>::empty() + pending(t) =~= pending(t));
    lemma_flush_pending(written(t), pending(t));
    lemma_rpn_split(t);
}

pub open spec fn is_digit(c: char) -> bool {
    '0' <= c && c <= '9'
}

/// Every operand of `t` is a decimal number.
pub open spec fn numeric(t: Expr) -> bool
    decreases t,
{
    match t {
        Expr::Operand(d) => d.len() > 0 && forall|k: int| 0 <= k < d.len() ==> is_digit(#[trigger] d[k]),
        Expr::Group(x) => numeric(*x),
        Expr::Binary(_, l, r) => numeric(*l) && numeric(*r),
    }
}

/// The number written in decimal by the digits `d`.
pub open spec fn number(d: Seq<char>) -> int
    decreases d.len(),
{
    if d.len() == 0 {
        0
    } else {
        number(d.drop_last()) * 10 + ((d.last() as u32) as int - ('0' as u32) as int)
    }
}

/// The arithmetic of the operator `op`: that of `calculate`, and for `^`
/// a power, taken as 0 for a negative exponent.
pub open spec fn apply(op: char, a: int, b: int) -> int {
    if op == '^' {
        if b >= 0 {
            vstd::arithmetic::power::pow(a, b as nat)
        } else {
            0
        }
    } else {
        spec_calculate(a, b, op)
    }
}

/// The value of `t` by the usual reading of infix arithmetic.
pub open spec fn value(t: Expr) -> int
    decreases t,
{
    match t {
        Expr::Operand(d) => number(d),
        Expr::Group(x) => value(*x),
        Expr::Binary(op, l, r) => apply(op, value(*l), value(*r)),
    }
}

/// One character read by a postfix evaluator whose state is its stack of
/// values and the number being read, if any. A space ends a number; an
/// operator replaces the two top values by its result.
pub open spec fn eval_step(st: (Seq<int>, Option<int>), c: char) -> (Seq<int>, Option<int>) {
    let (values, current) = st;
    if is_digit(c) {
        let so_far = match current {
            Some(n) => n,
            None => 0,
        };
        (values, Some(so_far * 10 + ((c as u32) as int - ('0' as u32) as int)))
    } else {
        let values = match current {
            Some(n) => values.push(n),
            None => values,
        };
        if is_operator(c) && values.len() >= 2 {
            let a = values[values.len() - 2];
            let b = values[values.len() - 1];
            (values.drop_last().drop_last().push(apply(c, a, b)), None)
        } else {
            (values, None)
        }
    }
}

pub open spec fn eval_chars(st: (Seq<int>, Option<int>), w: Seq<char>) -> (Seq<int>, Option<int>)
    decreases w.len(),
{
    if w.len() == 0 {
        st
    } else {
        eval_step(eval_chars(st, w.drop_last()), w.last())
    }
}

/// The stack of values that evaluating the postfix text `w` leaves; the end
/// of the text ends its last number.
pub open spec fn eval_postfix(w: Seq<char>) -> Seq<int> {
    eval_chars((Seq::empty(), None), w.push(' ')).0
}

proof fn lemma_eval_concat(st: (Seq<int>, Option<int>), a: Seq<char>, b: Seq<char>)
    ensures
        eval_chars(st, a + b) == eval_chars(eval_chars(st, a), b),
    decreases b.len(),
{
    if b.len() == 0 {
        assert(a + b =~= a);
    } else {
        assert((a + b).drop_last() =~= a + b.drop_last());
        lemma_eval_concat(st, a, b.drop_last());
    }
}

proof fn lemma_eval_one(st: (Seq<int>, Option<int>), c: char)
    ensures
        eval_chars(st, seq![c]) == eval_step(st, c),
{
    assert(seq![c].drop_last() =~= Seq::<char>::empty());
    assert(eval_chars(st, Seq::<char>::empty()) == st);
    assert(seq![c].last() == c);
}

proof fn lemma_eval_number(v: Seq<int>, d: Seq<char>)
    requires
        d.len() > 0,
        forall|k: int| 0 <= k < d.len() ==> is_digit(#[trigger] d[k]),
    ensures
        eval_chars((v, None), d) == (v, Some(number(d))),
    decreases d.len(),
{
    assert(d[d.len() - 1] == d.last());
    if d.len() > 1 {
        assert forall|k: int| 0 <= k < d.drop_last().len() implies is_digit(
            #[trigger] d.drop_last()[k],
        ) by {
            assert(d.drop_last()[k] == d[k]);
        }
        lemma_eval_number(v, d.drop_last());
    } else {
        assert(d.drop_last() =~= Seq::<char>::empty());
        assert(eval_chars((v, None), Seq::<char>::empty()) == (v, Option::<int>::None));
        assert(number(Seq::<char>::empty()) == 0);
    }
}

proof fn lemma_eval_rpn(t: Expr, v: Seq<int>)
    requires
        standard(t),
        numeric(t),
    ensures
        eval_chars((v, None), rpn(t) + seq![' ']) == (v.push(value(t)), Option::<int>::None),
    decreases t,
{
    match t {
        Expr::Operand(d) => {
            lemma_eval_concat((v, None), d, seq![' ']);
            lemma_eval_number(v, d);
            lemma_eval_one((v, Some(number(d))), ' ');
            assert(!is_digit(' ') && !is_operator(' '));
        },
        Expr::Group(x) => {
            lemma_eval_rpn(*x, v);
        },
        Expr::Binary(op, l, r) => {
            let vl = v.push(value(*l));
            let vr = vl.push(value(*r));
            lemma_eval_rpn(*l, v);
            lemma_eval_rpn(*r, vl);
            let w = rpn(t) + seq![' '];
            assert(w =~= ((rpn(*l) + seq![' ']) + (rpn(*r) + seq![' '])) + seq![op] + seq![' ']);
            lemma_eval_concat((v, None), rpn(*l) + seq![' '], rpn(*r) + seq![' ']);
            lemma_eval_concat((v, None), (rpn(*l) + seq![' ']) + (rpn(*r) + seq![' ']), seq![op]);
            lemma_eval_one((vr, None), op);
            assert(is_operator(op));
            assert(vr[vr.len() - 2] == value(*l) && vr[vr.len() - 1] == value(*r));
            assert(vr.drop_last().drop_last() =~= v);
            let after = v.push(value(t));
            lemma_eval_concat(
                (v, None),
                (rpn(*l) + seq![' ']) + (rpn(*r) + seq![' ']) + seq![op],
                seq![' '],
            );
            lemma_eval_one((after, None), ' ');
        },
    }
}

/// For every expression in standard form with numbers as operands,
/// evaluating the postfix output leaves exactly the value that the infix
/// expression has by the standard rules.
pub proof fn lemma_postfix_evaluates_like_infix(t: Expr)
    requires
        standard(t),
        numeric(t),
    ensures
        postfix(render(t)) is Ok,
        eval_postfix(postfix(render(t))->Ok_0) == seq![value(t)],
{
    lemma_postfix_of_standard(t);
    lemma_eval_rpn(t, Seq::empty());
    assert(rpn(t).push(' ') =~= rpn(t) + seq![' ']);
    assert(Seq::<int>::empty().push(value(t)) =~= seq![value(t)]);
}

} // verus!
