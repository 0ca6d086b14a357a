//! Forward evaluation of an expression tree and its symbolic inversion.
use vstd::prelude::*;

use crate::ast::{ast_shunting_yard, tree_of, Atom};
use crate::rational::{
    add_fits, div_fits, frac_of_int, lemma_add_canon, lemma_div_canon, lemma_mul_den,
    lemma_round_exact, lemma_same_value_trans, mul_fits, q_add, q_div, q_mul,
    q_neg, q_sub, round_half_away, same_value, sub_fits, Frac, Rational,
};
use crate::token::{
    decimal_frac, lemma_pow10_fits, lemma_pow10_mono, pow10, tokenize, tokens_of, Decimal,
    ExprError, Ops, Tokens, MAX_DIGITS,
};

verus! {

/// The variable occurs in the tree.
pub open spec fn has_var(t: Atom) -> bool
    decreases t,
{
    match t {
        Atom::Var(_) => true,
        Atom::Num(_) => false,
        Atom::Add(a, b) => has_var(*a) || has_var(*b),
        Atom::Sub(a, b) => has_var(*a) || has_var(*b),
        Atom::Mul(a, b) => has_var(*a) || has_var(*b),
        Atom::Div(a, b) => has_var(*a) || has_var(*b),
    }
}

/// How often the variable occurs in the tree.
pub open spec fn occurrences(t: Atom) -> nat
    decreases t,
{
    match t {
        Atom::Var(_) => 1,
        Atom::Num(_) => 0,
        Atom::Add(a, b) => occurrences(*a) + occurrences(*b),
        Atom::Sub(a, b) => occurrences(*a) + occurrences(*b),
        Atom::Mul(a, b) => occurrences(*a) + occurrences(*b),
        Atom::Div(a, b) => occurrences(*a) + occurrences(*b),
    }
}

pub open spec fn checked_q_add(p: Frac, q: Frac) -> Result<Frac, ExprError> {
    if add_fits(p, q) {
        Ok(q_add(p, q))
    } else {
        Err(ExprError::Overflow)
    }
}

pub open spec fn checked_q_sub(p: Frac, q: Frac) -> Result<Frac, ExprError> {
    if sub_fits(p, q) {
        Ok(q_sub(p, q))
    } else {
        Err(ExprError::Overflow)
    }
}

pub open spec fn checked_q_mul(p: Frac, q: Frac) -> Result<Frac, ExprError> {
    if mul_fits(p, q) {
        Ok(q_mul(p, q))
    } else {
        Err(ExprError::Overflow)
    }
}

pub open spec fn checked_q_div(p: Frac, q: Frac) -> Result<Frac, ExprError> {
    if q.0 == 0 {
        Err(ExprError::DivisionByZero)
    } else if div_fits(p, q) {
        Ok(q_div(p, q))
    } else {
        Err(ExprError::Overflow)
    }
}

/// Combines two evaluated operands; the left error comes first.
pub open spec fn combine(
    l: Result<Frac, ExprError>,
    r: Result<Frac, ExprError>,
    op: Ops,
) -> Result<Frac, ExprError> {
    match l {
        Err(e) => Err(e),
        Ok(p) => match r {
            Err(e) => Err(e),
            Ok(q) => match op {
                Ops::Add => checked_q_add(p, q),
                Ops::Subtract => checked_q_sub(p, q),
                Ops::Multiply => checked_q_mul(p, q),
                _ => checked_q_div(p, q),
            },
        },
    }
}

/// The exact value of the tree with `x` for the variable.
pub open spec fn eval_tree(t: Atom, x: Frac) -> Result<Frac, ExprError>
    decreases t,
{
    match t {
        Atom::Var(_) => Ok(x),
        Atom::Num(d) => decimal_frac(d),
        Atom::Add(a, b) => combine(eval_tree(*a, x), eval_tree(*b, x), Ops::Add),
        Atom::Sub(a, b) => combine(eval_tree(*a, x), eval_tree(*b, x), Ops::Subtract),
        Atom::Mul(a, b) => combine(eval_tree(*a, x), eval_tree(*b, x), Ops::Multiply),
        Atom::Div(a, b) => combine(eval_tree(*a, x), eval_tree(*b, x), Ops::Divide),
    }
}

/// The value of a subtree without the variable.
pub open spec fn const_eval(t: Atom) -> Result<Frac, ExprError> {
    eval_tree(t, (0, 1))
}

/// Turns a literal into a value.
pub fn decimal_value(d: Decimal) -> (r: Result<Rational, ExprError>)
    ensures
        match decimal_frac(d) {
            Ok(q) => r is Ok && r->Ok_0@ == q,
            Err(e) => r is Err && r->Err_0 == e,
        },
{
    if d.scale > MAX_DIGITS || d.mantissa == i128::MIN {
        return Err(ExprError::Overflow);
    }
    let mut p: i128 = 1;
    let mut k: u32 = 0;
    while k < d.scale
        invariant
            k <= d.scale <= MAX_DIGITS,
            p == pow10(k as nat),
        decreases d.scale - k,
    {
        proof {
            lemma_pow10_mono((k + 1) as nat, MAX_DIGITS as nat);
            lemma_pow10_fits(MAX_DIGITS as nat);
            assert(pow10((k + 1) as nat) == 10 * pow10(k as nat));
        }
        p = p * 10;
        k = k + 1;
    }
    proof {
        lemma_pow10_fits(d.scale as nat);
        lemma_pow10_mono(0, d.scale as nat);
    }
    match Rational::new(d.mantissa, p) {
        Some(q) => Ok(q),
        None => Err(ExprError::Overflow),
    }
}

fn combine_exec(p: Rational, q: Rational, op: Ops) -> (r: Result<Rational, ExprError>)
    ensures
        match combine(Ok(p@), Ok(q@), op) {
            Ok(v) => r is Ok && r->Ok_0@ == v,
            Err(e) => r is Err && r->Err_0 == e,
        },
{
    let res = match op {
        Ops::Add => p.checked_add(&q),
        Ops::Subtract => p.checked_sub(&q),
        Ops::Multiply => p.checked_mul(&q),
        _ => {
            if q.is_zero() {
                return Err(ExprError::DivisionByZero);
            }
            p.checked_div(&q)
        },
    };
    match res {
        Some(v) => Ok(v),
        None => Err(ExprError::Overflow),
    }
}

impl Atom {
    /// Whether the variable occurs in the tree.
    pub fn has_var(&self) -> (r: bool)
        ensures
            r == has_var(*self),
        decreases self,
    {
        match self {
            Atom::Var(_) => true,
            Atom::Num(_) => false,
            Atom::Add(a, b) | Atom::Sub(a, b) | Atom::Mul(a, b) | Atom::Div(a, b) => {
                a.has_var() || b.has_var()
            },
        }
    }

    /// Evaluates the tree with `x` for the variable.
    pub fn eval(&self, x: &Rational) -> (r: Result<Rational, ExprError>)
        ensures
            match eval_tree(*self, x@) {
                Ok(v) => r is Ok && r->Ok_0@ == v,
                Err(e) => r is Err && r->Err_0 == e,
            },
        decreases self,
    {
        let (a, b, op) = match self {
            Atom::Var(_) => {
                return Ok(*x);
            },
            Atom::Num(d) => {
                return decimal_value(*d);
            },
            Atom::Add(a, b) => (a, b, Ops::Add),
            Atom::Sub(a, b) => (a, b, Ops::Subtract),
            Atom::Mul(a, b) => (a, b, Ops::Multiply),
            Atom::Div(a, b) => (a, b, Ops::Divide),
        };
        let l = match a.eval(x) {
            Ok(v) => v,
            Err(e) => {
                return Err(e);
            },
        };
        let r = match b.eval(x) {
            Ok(v) => v,
            Err(e) => {
                return Err(e);
            },
        };
        combine_exec(l, r, op)
    }
}

/// A step that undoes one operator of the tree.
#[derive(Clone, Copy, Debug, PartialEq, Eq, Structural)]
pub enum ActKind {
    /// `v + c`
    Add,
    /// `v - c`
    Sub,
    /// `v * c`
    Mul,
    /// `v / c`
    Div,
    /// `c - v`
    SubFrom,
    /// `c / v`
    DivInto,
}

/// One reverse step with its constant operand.
#[derive(Clone, Copy, Debug)]
pub struct Action {
    pub kind: ActKind,
    pub operand: Rational,
}

impl View for Action {
    type V = (ActKind, Frac);

    open spec fn view(&self) -> (ActKind, Frac) {
        (self.kind, self.operand@)
    }
}

pub open spec fn actions_view(v: Seq<Action>) -> Seq<(ActKind, Frac)> {
    v.map_values(|a: Action| a@)
}

/// The plan for a node whose operands are `a` and `b`: the variable must be
/// on exactly one side; the other side is evaluated to a constant.
pub open spec fn plan_node(
    a: Atom,
    b: Atom,
    left: ActKind,
    right: ActKind,
    pa: Result<Seq<(ActKind, Frac)>, ExprError>,
    pb: Result<Seq<(ActKind, Frac)>, ExprError>,
) -> Result<Seq<(ActKind, Frac)>, ExprError> {
    if has_var(a) && has_var(b) {
        Err(ExprError::MultipleOccurrences)
    } else if has_var(a) {
        match const_eval(b) {
            Err(e) => Err(e),
            Ok(c) => match pa {
                Err(e) => Err(e),
                Ok(p) => Ok(seq![(left, c)] + p),
            },
        }
    } else if has_var(b) {
        match const_eval(a) {
            Err(e) => Err(e),
            Ok(c) => match pb {
                Err(e) => Err(e),
                Ok(p) => Ok(seq![(right, c)] + p),
            },
        }
    } else {
        Err(ExprError::NoVariable)
    }
}

/// The reverse steps of a tree, outermost operator first.
pub open spec fn plan(t: Atom) -> Result<Seq<(ActKind, Frac)>, ExprError>
    decreases t,
{
    match t {
        Atom::Var(_) => Ok(Seq::empty()),
        Atom::Num(_) => Err(ExprError::NoVariable),
        Atom::Add(a, b) => plan_node(*a, *b, ActKind::Sub, ActKind::Sub, plan(*a), plan(*b)),
        Atom::Sub(a, b) => plan_node(*a, *b, ActKind::Add, ActKind::SubFrom, plan(*a), plan(*b)),
        Atom::Mul(a, b) => plan_node(*a, *b, ActKind::Div, ActKind::Div, plan(*a), plan(*b)),
        Atom::Div(a, b) => plan_node(*a, *b, ActKind::Mul, ActKind::DivInto, plan(*a), plan(*b)),
    }
}

pub open spec fn apply_action(k: ActKind, c: Frac, v: Frac) -> Result<Frac, ExprError> {
    match k {
        ActKind::Add => checked_q_add(v, c),
        ActKind::Sub => checked_q_sub(v, c),
        ActKind::Mul => checked_q_mul(v, c),
        ActKind::Div => checked_q_div(v, c),
        ActKind::SubFrom => checked_q_sub(c, v),
        ActKind::DivInto => checked_q_div(c, v),
    }
}

/// Runs the steps in order on `v`.
pub open spec fn apply_plan(p: Seq<(ActKind, Frac)>, v: Frac) -> Result<Frac, ExprError>
    decreases p.len(),
{
    if p.len() == 0 {
        Ok(v)
    } else {
        match apply_action(p[0].0, p[0].1, v) {
            Err(e) => Err(e),
            Ok(w) => apply_plan(p.drop_first(), w),
        }
    }
}

fn apply_action_exec(a: Action, v: Rational) -> (r: Result<Rational, ExprError>)
    ensures
        match apply_action(a.kind, a.operand@, v@) {
            Ok(w) => r is Ok && r->Ok_0@ == w,
            Err(e) => r is Err && r->Err_0 == e,
        },
{
    match a.kind {
        ActKind::Add => combine_exec(v, a.operand, Ops::Add),
        ActKind::Sub => combine_exec(v, a.operand, Ops::Subtract),
        ActKind::Mul => combine_exec(v, a.operand, Ops::Multiply),
        ActKind::Div => combine_exec(v, a.operand, Ops::Divide),
        ActKind::SubFrom => combine_exec(a.operand, v, Ops::Subtract),
        ActKind::DivInto => combine_exec(a.operand, v, Ops::Divide),
    }
}

/// Runs reverse steps in order, starting from `num`.
pub fn exec_actions(actions: &Vec<Action>, num: Rational) -> (r: Result<Rational, ExprError>)
    ensures
        match apply_plan(actions_view(actions@), num@) {
            Ok(w) => r is Ok && r->Ok_0@ == w,
            Err(e) => r is Err && r->Err_0 == e,
        },
{
    let mut v = num;
    let mut i: usize = 0;
    let ghost all = actions_view(actions@);
    assert(all.skip(0) == all);
    while i < actions.len()
        invariant
            0 <= i <= actions@.len(),
            all == actions_view(actions@),
            apply_plan(all, num@) == apply_plan(all.skip(i as int), v@),
        decreases actions@.len() - i,
    {
        let a = actions[i];
        let ghost rest = all.skip(i as int);
        assert(rest[0] == a@);
        assert(rest.drop_first() == all.skip(i as int + 1));
        match apply_action_exec(a, v) {
            Err(e) => {
                return Err(e);
            },
            Ok(w) => {
                v = w;
            },
        }
        i = i + 1;
    }
    assert(all.skip(i as int).len() == 0);
    Ok(v)
}

impl Atom {
    /// The reverse steps that solve the tree for its variable, outermost
    /// operator first.
    pub fn rev(&self) -> (r: Result<Vec<Action>, ExprError>)
        ensures
            match plan(*self) {
                Ok(p) => r is Ok && actions_view(r->Ok_0@) == p,
                Err(e) => r is Err && r->Err_0 == e,
            },
        decreases self,
    {
        let (a, b, left, right) = match self {
            Atom::Var(_) => {
                return Ok(Vec::new());
            },
            Atom::Num(_) => {
                return Err(ExprError::NoVariable);
            },
            Atom::Add(a, b) => (a, b, ActKind::Sub, ActKind::Sub),
            Atom::Sub(a, b) => (a, b, ActKind::Add, ActKind::SubFrom),
            Atom::Mul(a, b) => (a, b, ActKind::Div, ActKind::Div),
            Atom::Div(a, b) => (a, b, ActKind::Mul, ActKind::DivInto),
        };
        let av = a.has_var();
        let bv = b.has_var();
        if av && bv {
            return Err(ExprError::MultipleOccurrences);
        }
        if !av && !bv {
            return Err(ExprError::NoVariable);
        }
        let zero = Rational::from_int(0);
        let constant = if av {
            b.eval(&zero)
        } else {
            a.eval(&zero)
        };
        let c = match constant {
            Ok(c) => c,
            Err(e) => {
                return Err(e);
            },
        };
        let inner = if av {
            a.rev()
        } else {
            b.rev()
        };
        let mut rest = match inner {
            Ok(v) => v,
            Err(e) => {
                return Err(e);
            },
        };
        let kind = if av {
            left
        } else {
            right
        };
        let mut out: Vec<Action> = Vec::new();
        out.push(Action { kind, operand: c });
        let ghost head = actions_view(out@);
        let ghost tail = actions_view(rest@);
        out.append(&mut rest);
        assert(actions_view(out@) == head + tail);
        assert(head == seq![(kind, c@)]);
        Ok(out)
    }
}

/// The two letters are one letter up to case.
pub open spec fn same_letter(a: char, b: char) -> bool {
    a == b || (a as int) - (b as int) == 32 || (b as int) - (a as int) == 32
}

/// All variable tokens name one letter, up to case.
pub open spec fn one_variable(toks: Seq<Tokens>) -> bool {
    forall|i: int, j: int|
        0 <= i < j < toks.len() && #[trigger] toks[i] is Var && #[trigger] toks[j] is Var
            ==> same_letter(toks[i]->Var_0, toks[j]->Var_0)
}

fn check_one_variable(toks: &Vec<Tokens>) -> (r: bool)
    ensures
        r == one_variable(toks@),
{
    let n = toks.len();
    let mut j: usize = 0;
    while j < n
        invariant
            n == toks@.len(),
            0 <= j <= n,
            forall|a: int, b: int|
                0 <= a < b < j && #[trigger] toks@[a] is Var && #[trigger] toks@[b] is Var
                    ==> same_letter(toks@[a]->Var_0, toks@[b]->Var_0),
        decreases n - j,
    {
        if let Tokens::Var(cj, _) = toks[j] {
            let mut i: usize = 0;
            while i < j
                invariant
                    n == toks@.len(),
                    0 <= i <= j < n,
                    toks@[j as int] == Tokens::Var(cj, toks@[j as int]->Var_1),
                    forall|a: int, b: int|
                        0 <= a < b < j && #[trigger] toks@[a] is Var && #[trigger] toks@[b] is Var
                            ==> same_letter(toks@[a]->Var_0, toks@[b]->Var_0),
                    forall|a: int|
                        0 <= a < i && #[trigger] toks@[a] is Var ==> same_letter(
                            toks@[a]->Var_0,
                            cj,
                        ),
                decreases j - i,
            {
                if let Tokens::Var(ci, _) = toks[i] {
                    let d: i64 = ci as i64 - cj as i64;
                    if d != 0 && d != 32 && d != -32 {
                        assert(!same_letter(toks@[i as int]->Var_0, toks@[j as int]->Var_0));
                        return false;
                    }
                }
                i = i + 1;
            }
        }
        j = j + 1;
    }
    true
}

/// The tree of an expression text.
pub open spec fn parse_spec(s: Seq<char>) -> Result<Atom, ExprError> {
    match tokens_of(s) {
        Err(e) => Err(e),
        Ok(t) => if one_variable(t) {
            tree_of(t)
        } else {
            Err(ExprError::MultipleVariables)
        },
    }
}

/// Reads an expression text into its tree.
pub fn parse(expr: &str) -> (r: Result<Atom, ExprError>)
    ensures
        match parse_spec(expr@) {
            Ok(t) => r is Ok && r->Ok_0 == t,
            Err(e) => r is Err && r->Err_0 == e,
        },
{
    let toks = match tokenize(expr) {
        Ok(t) => t,
        Err(e) => {
            return Err(e);
        },
    };
    if !check_one_variable(&toks) {
        return Err(ExprError::MultipleVariables);
    }
    ast_shunting_yard(toks)
}

/// The physical value of an expression at a raw value.
pub open spec fn eval_spec(s: Seq<char>, var: int) -> Result<Frac, ExprError> {
    match parse_spec(s) {
        Err(e) => Err(e),
        Ok(t) => eval_tree(t, (var, 1)),
    }
}

/// The value that an expression maps to `num`, before rounding.
pub open spec fn eval_reverse_spec(s: Seq<char>, num: Frac) -> Result<Frac, ExprError> {
    match parse_spec(s) {
        Err(e) => Err(e),
        Ok(t) => match plan(t) {
            Err(e) => Err(e),
            Ok(p) => apply_plan(p, num),
        },
    }
}

/// Evaluates an expression with the raw value `var` for its variable.
pub fn eval(expr: &str, var: u32) -> (r: Result<Rational, ExprError>)
    ensures
        match eval_spec(expr@, var as int) {
            Ok(v) => r is Ok && r->Ok_0@ == v,
            Err(e) => r is Err && r->Err_0 == e,
        },
{
    let ast = match parse(expr) {
        Ok(t) => t,
        Err(e) => {
            return Err(e);
        },
    };
    ast.eval(&Rational::from_u32(var))
}

/// Solves an expression for its variable: the value that it maps to `num`.
/// The variable must occur exactly once.
pub fn eval_reverse(expr: &str, num: Rational) -> (r: Result<Rational, ExprError>)
    ensures
        match eval_reverse_spec(expr@, num@) {
            Ok(v) => r is Ok && r->Ok_0@ == v,
            Err(e) => r is Err && r->Err_0 == e,
        },
{
    let ast = match parse(expr) {
        Ok(t) => t,
        Err(e) => {
            return Err(e);
        },
    };
    let actions = match ast.rev() {
        Ok(a) => a,
        Err(e) => {
            return Err(e);
        },
    };
    exec_actions(&actions, num)
}

proof fn lemma_pow10_pos(n: nat)
    ensures
        pow10(n) > 0,
    decreases n,
{
    if n > 0 {
        lemma_pow10_pos((n - 1) as nat);
    }
}

/// Every value the evaluation yields has a positive denominator.
proof fn lemma_eval_den(t: Atom, x: Frac)
    requires
        x.1 > 0,
    ensures
        eval_tree(t, x) is Ok ==> eval_tree(t, x)->Ok_0.1 > 0,
    decreases t,
{
    match t {
        Atom::Var(_) => {},
        Atom::Num(d) => {
            lemma_pow10_pos(d.scale as nat);
        },
        Atom::Add(a, b) | Atom::Sub(a, b) | Atom::Mul(a, b) | Atom::Div(a, b) => {
            lemma_eval_den(*a, x);
            lemma_eval_den(*b, x);
            if eval_tree(*a, x) is Ok && eval_tree(*b, x) is Ok {
                let p = eval_tree(*a, x)->Ok_0;
                let q = eval_tree(*b, x)->Ok_0;
                lemma_add_canon(p, q);
                lemma_add_canon(p, q_neg(q));
                lemma_mul_den(p, q);
                if q.0 != 0 {
                    lemma_div_canon(p, q);
                }
            }
        },
    }
}

/// A subtree without the variable has one value for every `x`.
proof fn lemma_const_eval(t: Atom, x: Frac)
    requires
        !has_var(t),
    ensures
        eval_tree(t, x) == const_eval(t),
    decreases t,
{
    match t {
        Atom::Var(_) => {},
        Atom::Num(_) => {},
        Atom::Add(a, b) | Atom::Sub(a, b) | Atom::Mul(a, b) | Atom::Div(a, b) => {
            lemma_const_eval(*a, x);
            lemma_const_eval(*b, x);
        },
    }
}

proof fn lemma_occurrences(t: Atom)
    ensures
        has_var(t) <==> occurrences(t) > 0,
    decreases t,
{
    match t {
        Atom::Var(_) => {},
        Atom::Num(_) => {},
        Atom::Add(a, b) | Atom::Sub(a, b) | Atom::Mul(a, b) | Atom::Div(a, b) => {
            lemma_occurrences(*a);
            lemma_occurrences(*b);
        },
    }
}

/// From `y = u + c` (cross-multiplied), `y - c = u`.
proof fn lemma_undo_sum(y0: int, y1: int, u0: int, u1: int, c0: int, c1: int)
    requires
        y0 * (u1 * c1) == (u0 * c1 + c0 * u1) * y1,
    ensures
        (y0 * c1 + (-c0) * y1) * u1 == u0 * (y1 * c1),
{
    assert(y0 * (u1 * c1) == y0 * c1 * u1) by (nonlinear_arith);
    assert((u0 * c1 + c0 * u1) * y1 == u0 * (y1 * c1) + c0 * y1 * u1) by (nonlinear_arith);
    assert((y0 * c1 + (-c0) * y1) * u1 == y0 * c1 * u1 - c0 * y1 * u1) by (nonlinear_arith);
}

/// From `y = c - u` (cross-multiplied), `c - y = u`.
proof fn lemma_undo_difference(y0: int, y1: int, u0: int, u1: int, c0: int, c1: int)
    requires
        y0 * (c1 * u1) == (c0 * u1 + (-u0) * c1) * y1,
    ensures
        (c0 * y1 + (-y0) * c1) * u1 == u0 * (c1 * y1),
{
    assert(y0 * (c1 * u1) == y0 * c1 * u1) by (nonlinear_arith);
    assert((c0 * u1 + (-u0) * c1) * y1 == c0 * y1 * u1 - u0 * (c1 * y1)) by (nonlinear_arith);
    assert((c0 * y1 + (-y0) * c1) * u1 == c0 * y1 * u1 - y0 * c1 * u1) by (nonlinear_arith);
}

/// `y` stands for the node's value `v`; `u` is the value of the side that
/// holds the variable and `c` that of the constant side. The reverse step
/// recovers `u` whenever it succeeds.
proof fn lemma_step_recovers(k: ActKind, c: Frac, y: Frac, u: Frac, v: Frac, op: Ops, var_left: bool)
    requires
        y.1 > 0,
        c.1 > 0,
        u.1 > 0,
        v.1 > 0,
        same_value(y, v),
        k == match op {
            Ops::Add => ActKind::Sub,
            Ops::Subtract => if var_left {
                ActKind::Add
            } else {
                ActKind::SubFrom
            },
            Ops::Multiply => ActKind::Div,
            _ => if var_left {
                ActKind::Mul
            } else {
                ActKind::DivInto
            },
        },
        (if var_left {
            combine(Ok(u), Ok(c), op)
        } else {
            combine(Ok(c), Ok(u), op)
        }) == Ok::<Frac, ExprError>(v),
    ensures
        apply_action(k, c, y) is Ok ==> apply_action(k, c, y)->Ok_0.1 > 0 && same_value(
            apply_action(k, c, y)->Ok_0,
            u,
        ),
        apply_action(k, c, y) is Err ==> apply_action(k, c, y)->Err_0 == ExprError::DivisionByZero
            || apply_action(k, c, y)->Err_0 == ExprError::Overflow,
{
    let r = apply_action(k, c, y);
    if r is Ok {
        let w = r->Ok_0;
        match op {
            Ops::Add => {
                // v = u + c (either order), w = y - c
                lemma_add_canon(y, q_neg(c));
                let kw = (y.0 * c.1 + (-c.0) * y.1, y.1 * c.1);
                if var_left {
                    lemma_add_canon(u, c);
                    let kv = (u.0 * c.1 + c.0 * u.1, u.1 * c.1);
                    lemma_same_value_trans(y, v, kv);
                    lemma_undo_sum(y.0, y.1, u.0, u.1, c.0, c.1);
                } else {
                    lemma_add_canon(c, u);
                    let kv = (c.0 * u.1 + u.0 * c.1, c.1 * u.1);
                    lemma_same_value_trans(y, v, kv);
                    assert(kv.0 == u.0 * c.1 + c.0 * u.1 && kv.1 == u.1 * c.1) by (nonlinear_arith)
                        requires kv == (c.0 * u.1 + u.0 * c.1, c.1 * u.1);
                    lemma_undo_sum(y.0, y.1, u.0, u.1, c.0, c.1);
                }
                assert(kw.1 > 0) by (nonlinear_arith) requires kw.1 == y.1 * c.1, y.1 > 0, c.1 > 0;
                lemma_same_value_trans(w, kw, u);
            },
            Ops::Subtract => {
                if var_left {
                    // v = u - c, w = y + c
                    lemma_add_canon(u, q_neg(c));
                    lemma_add_canon(y, c);
                    let kv = (u.0 * c.1 + (-c.0) * u.1, u.1 * c.1);
                    let kw = (y.0 * c.1 + c.0 * y.1, y.1 * c.1);
                    lemma_same_value_trans(y, v, kv);
                    lemma_undo_sum(y.0, y.1, u.0, u.1, -c.0, c.1);
                    assert(kw.1 > 0) by (nonlinear_arith) requires kw.1 == y.1 * c.1, y.1 > 0, c.1 > 0;
                    lemma_same_value_trans(w, kw, u);
                } else {
                    // v = c - u, w = c - y
                    lemma_add_canon(c, q_neg(u));
                    lemma_add_canon(c, q_neg(y));
                    let kv = (c.0 * u.1 + (-u.0) * c.1, c.1 * u.1);
                    let kw = (c.0 * y.1 + (-y.0) * c.1, c.1 * y.1);
                    lemma_same_value_trans(y, v, kv);
                    lemma_undo_difference(y.0, y.1, u.0, u.1, c.0, c.1);
                    assert(kw.1 > 0) by (nonlinear_arith) requires kw.1 == c.1 * y.1, y.1 > 0, c.1 > 0;
                    lemma_same_value_trans(w, kw, u);
                }
            },
            Ops::Multiply => {
                // v = u * c (either order), w = y / c
                lemma_div_canon(y, c);
                let kw = (y.0 * c.1, y.1 * c.0);
                if var_left {
                    assert(same_value(kw, u)) by (nonlinear_arith)
                        requires y.0 * v.1 == v.0 * y.1, v == (u.0 * c.0, u.1 * c.1),
                            kw == (y.0 * c.1, y.1 * c.0);
                } else {
                    assert(same_value(kw, u)) by (nonlinear_arith)
                        requires y.0 * v.1 == v.0 * y.1, v == (c.0 * u.0, c.1 * u.1),
                            kw == (y.0 * c.1, y.1 * c.0);
                }
                assert(kw.1 != 0) by (nonlinear_arith) requires kw.1 == y.1 * c.0, y.1 > 0, c.0 != 0;
                lemma_same_value_trans(w, kw, u);
            },
            _ => {
                if var_left {
                    // v = u / c, w = y * c
                    lemma_div_canon(u, c);
                    let kv = (u.0 * c.1, u.1 * c.0);
                    lemma_same_value_trans(y, v, kv);
                    lemma_mul_den(y, c);
                    assert(same_value(w, u)) by (nonlinear_arith)
                        requires y.0 * kv.1 == kv.0 * y.1, kv == (u.0 * c.1, u.1 * c.0),
                            w == (y.0 * c.0, y.1 * c.1);
                } else {
                    // v = c / u, w = c / y
                    lemma_div_canon(c, u);
                    lemma_div_canon(c, y);
                    let kv = (c.0 * u.1, c.1 * u.0);
                    let kw = (c.0 * y.1, c.1 * y.0);
                    lemma_same_value_trans(y, v, kv);
                    assert(same_value(kw, u)) by (nonlinear_arith)
                        requires y.0 * kv.1 == kv.0 * y.1, kv == (c.0 * u.1, c.1 * u.0),
                            kw == (c.0 * y.1, c.1 * y.0);
                    assert(kw.1 != 0) by (nonlinear_arith) requires kw.1 == c.1 * y.0, c.1 > 0, y.0 != 0;
                    lemma_same_value_trans(w, kw, u);
                }
            },
        }
    }
}

/// Running plan `p` on `y` gives back a value equal to `x`, unless a step
/// divides by zero or leaves the exact range.
pub open spec fn recovers(p: Result<Seq<(ActKind, Frac)>, ExprError>, x: Frac, y: Frac) -> bool {
    &&& p is Ok
    &&& apply_plan(p->Ok_0, y) is Ok ==> apply_plan(p->Ok_0, y)->Ok_0.1 > 0 && same_value(
        apply_plan(p->Ok_0, y)->Ok_0,
        x,
    )
    &&& apply_plan(p->Ok_0, y) is Err ==> apply_plan(p->Ok_0, y)->Err_0 == ExprError::DivisionByZero
        || apply_plan(p->Ok_0, y)->Err_0 == ExprError::Overflow
}

pub open spec fn undo_kinds(op: Ops) -> (ActKind, ActKind) {
    match op {
        Ops::Add => (ActKind::Sub, ActKind::Sub),
        Ops::Subtract => (ActKind::Add, ActKind::SubFrom),
        Ops::Multiply => (ActKind::Div, ActKind::Div),
        _ => (ActKind::Mul, ActKind::DivInto),
    }
}

/// One node of the induction: picks the side that holds the variable and
/// the value it has to be solved for.
proof fn lemma_node_step(a: Atom, b: Atom, op: Ops, x: Frac, y: Frac) -> (ret: (bool, Frac))
    requires
        occurrences(a) + occurrences(b) == 1,
        x.1 > 0,
        y.1 > 0,
        combine(eval_tree(a, x), eval_tree(b, x), op) is Ok,
        same_value(y, combine(eval_tree(a, x), eval_tree(b, x), op)->Ok_0),
    ensures
        ({
            let child = if ret.0 {
                a
            } else {
                b
            };
            &&& occurrences(child) == 1
            &&& ret.1.1 > 0
            &&& eval_tree(child, x) is Ok
            &&& same_value(ret.1, eval_tree(child, x)->Ok_0)
            &&& recovers(plan(child), x, ret.1) ==> recovers(
                plan_node(a, b, undo_kinds(op).0, undo_kinds(op).1, plan(a), plan(b)),
                x,
                y,
            )
        }),
{
    lemma_occurrences(a);
    lemma_occurrences(b);
    lemma_eval_den(a, x);
    lemma_eval_den(b, x);
    let v = combine(eval_tree(a, x), eval_tree(b, x), op)->Ok_0;
    let ua = eval_tree(a, x)->Ok_0;
    let ub = eval_tree(b, x)->Ok_0;
    assert(v.1 > 0) by {
        lemma_add_canon(ua, ub);
        lemma_add_canon(ua, q_neg(ub));
        lemma_mul_den(ua, ub);
        if ub.0 != 0 {
            lemma_div_canon(ua, ub);
        }
    }
    let left = occurrences(a) == 1;
    let (u, c, k) = if left {
        lemma_const_eval(b, x);
        (ua, ub, undo_kinds(op).0)
    } else {
        lemma_const_eval(a, x);
        (ub, ua, undo_kinds(op).1)
    };
    lemma_step_recovers(k, c, y, u, v, op, left);
    let step = apply_action(k, c, y);
    let y2 = if step is Ok {
        step->Ok_0
    } else {
        u
    };
    assert(same_value(u, u));
    let child = if left {
        a
    } else {
        b
    };
    if recovers(plan(child), x, y2) {
        let pc = plan(child)->Ok_0;
        let whole = seq![(k, c)] + pc;
        assert(plan_node(a, b, undo_kinds(op).0, undo_kinds(op).1, plan(a), plan(b)) == Ok::<
            Seq<(ActKind, Frac)>,
            ExprError,
        >(whole));
        assert(whole[0] == (k, c));
        assert(whole.drop_first() == pc);
    }
    (left, y2)
}

/// Running the plan of a tree in which the variable occurs once, on any
/// form of the value the tree has at `x`, gives back `x`.
proof fn lemma_plan_recovers(t: Atom, x: Frac, y: Frac)
    requires
        occurrences(t) == 1,
        x.1 > 0,
        y.1 > 0,
        eval_tree(t, x) is Ok,
        same_value(y, eval_tree(t, x)->Ok_0),
    ensures
        recovers(plan(t), x, y),
    decreases t,
{
    match t {
        Atom::Var(_) => {
            assert(apply_plan(Seq::empty(), y) == Ok::<Frac, ExprError>(y));
        },
        Atom::Num(_) => {},
        Atom::Add(a, b) => {
            let (l, y2) = lemma_node_step(*a, *b, Ops::Add, x, y);
            if l {
                lemma_plan_recovers(*a, x, y2);
            } else {
                lemma_plan_recovers(*b, x, y2);
            }
        },
        Atom::Sub(a, b) => {
            let (l, y2) = lemma_node_step(*a, *b, Ops::Subtract, x, y);
            if l {
                lemma_plan_recovers(*a, x, y2);
            } else {
                lemma_plan_recovers(*b, x, y2);
            }
        },
        Atom::Mul(a, b) => {
            let (l, y2) = lemma_node_step(*a, *b, Ops::Multiply, x, y);
            if l {
                lemma_plan_recovers(*a, x, y2);
            } else {
                lemma_plan_recovers(*b, x, y2);
            }
        },
        Atom::Div(a, b) => {
            let (l, y2) = lemma_node_step(*a, *b, Ops::Divide, x, y);
            if l {
                lemma_plan_recovers(*a, x, y2);
            } else {
                lemma_plan_recovers(*b, x, y2);
            }
        },
    }
}

/// Round trip: when the variable occurs exactly once in an expression,
/// solving it for the value that raw `v` evaluates to and rounding gives
/// back `v`. Solving fails only by a division by zero (a factor of zero
/// loses the variable) or by leaving the exact range, never with a wrong
/// value.
pub proof fn lemma_round_trip(s: Seq<char>, v: u32)
    requires
        parse_spec(s) is Ok,
        occurrences(parse_spec(s)->Ok_0) == 1,
        eval_spec(s, v as int) is Ok,
    ensures
        eval_reverse_spec(s, eval_spec(s, v as int)->Ok_0) is Ok ==> round_half_away(
            eval_reverse_spec(s, eval_spec(s, v as int)->Ok_0)->Ok_0,
        ) == v,
        eval_reverse_spec(s, eval_spec(s, v as int)->Ok_0) is Err ==> eval_reverse_spec(
            s,
            eval_spec(s, v as int)->Ok_0,
        )->Err_0 == ExprError::DivisionByZero || eval_reverse_spec(
            s,
            eval_spec(s, v as int)->Ok_0,
        )->Err_0 == ExprError::Overflow,
{
    let t = parse_spec(s)->Ok_0;
    let x = frac_of_int(v as int);
    let y = eval_tree(t, x)->Ok_0;
    lemma_eval_den(t, x);
    assert(same_value(y, y));
    lemma_plan_recovers(t, x, y);
    let r = apply_plan(plan(t)->Ok_0, y);
    if r is Ok {
        lemma_round_exact(r->Ok_0, v as int);
    }
}

/// A tree in which the variable occurs more than once has no inversion
/// plan: solving it fails rather than giving a wrong value.
pub proof fn lemma_multiple_occurrences_fail(t: Atom)
    requires
        occurrences(t) >= 2,
    ensures
        plan(t) is Err,
    decreases t,
{
    match t {
        Atom::Var(_) => {},
        Atom::Num(_) => {},
        Atom::Add(a, b) | Atom::Sub(a, b) | Atom::Mul(a, b) | Atom::Div(a, b) => {
            lemma_occurrences(*a);
            lemma_occurrences(*b);
            if occurrences(*a) >= 2 {
                lemma_multiple_occurrences_fail(*a);
            }
            if occurrences(*b) >= 2 {
                lemma_multiple_occurrences_fail(*b);
            }
        },
    }
}

} // verus!
