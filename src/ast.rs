//! The expression tree, built from tokens by the shunting-yard method.
use vstd::prelude::*;

use crate::token::{Decimal, ExprError, Ops, Tokens};

verus! {

/// An expression tree. A negated variable is the variable times `-1`.
#[derive(Debug)]
pub enum Atom {
    Var(char),
    Num(Decimal),
    Add(Box<Atom>, Box<Atom>),
    Sub(Box<Atom>, Box<Atom>),
    Div(Box<Atom>, Box<Atom>),
    Mul(Box<Atom>, Box<Atom>),
}

/// Output stack and operator stack of the shunting-yard method.
pub type SyState = (Seq<Atom>, Seq<Ops>);

/// Replaces the two topmost operands by their combination under `op`.
pub open spec fn apply_op(out: Seq<Atom>, op: Ops) -> Result<Seq<Atom>, ExprError> {
    if op == Ops::OpenBracket || op == Ops::CloseBracket {
        Err(ExprError::UnbalancedBrackets)
    } else if out.len() < 2 {
        Err(ExprError::Malformed)
    } else {
        let b = out.last();
        let a = out.drop_last().last();
        let rest = out.drop_last().drop_last();
        Ok(
            rest.push(
                match op {
                    Ops::Add => Atom::Add(Box::new(a), Box::new(b)),
                    Ops::Subtract => Atom::Sub(Box::new(a), Box::new(b)),
                    Ops::Multiply => Atom::Mul(Box::new(a), Box::new(b)),
                    _ => Atom::Div(Box::new(a), Box::new(b)),
                },
            ),
        )
    }
}

/// Applies stacked operators while they bind at least as tightly as `p`.
pub open spec fn reduce_while(out: Seq<Atom>, ops: Seq<Ops>, p: u8) -> Result<SyState, ExprError>
    decreases ops.len(),
{
    if ops.len() > 0 && ops.last().prec() >= p {
        match apply_op(out, ops.last()) {
            Err(e) => Err(e),
            Ok(o) => reduce_while(o, ops.drop_last(), p),
        }
    } else {
        Ok((out, ops))
    }
}

/// Applies stacked operators down to the matching open bracket, which goes.
pub open spec fn reduce_to_bracket(out: Seq<Atom>, ops: Seq<Ops>) -> Result<SyState, ExprError>
    decreases ops.len(),
{
    if ops.len() == 0 {
        Err(ExprError::UnbalancedBrackets)
    } else if ops.last() == Ops::OpenBracket {
        Ok((out, ops.drop_last()))
    } else {
        match apply_op(out, ops.last()) {
            Err(e) => Err(e),
            Ok(o) => reduce_to_bracket(o, ops.drop_last()),
        }
    }
}

/// Applies every stacked operator; a left-over open bracket is an error.
pub open spec fn reduce_all(out: Seq<Atom>, ops: Seq<Ops>) -> Result<Seq<Atom>, ExprError>
    decreases ops.len(),
{
    if ops.len() == 0 {
        Ok(out)
    } else {
        match apply_op(out, ops.last()) {
            Err(e) => Err(e),
            Ok(o) => reduce_all(o, ops.drop_last()),
        }
    }
}

pub open spec fn minus_one() -> Decimal {
    Decimal { mantissa: -1i128, scale: 0 }
}

pub open spec fn var_atom(c: char, negated: bool) -> Atom {
    if negated {
        Atom::Mul(Box::new(Atom::Var(c)), Box::new(Atom::Num(minus_one())))
    } else {
        Atom::Var(c)
    }
}

pub open spec fn sy_step(st: SyState, t: Tokens) -> Result<SyState, ExprError> {
    match t {
        Tokens::Number(d) => Ok((st.0.push(Atom::Num(d)), st.1)),
        Tokens::Op(op) => match reduce_while(st.0, st.1, op.prec()) {
            Err(e) => Err(e),
            Ok(r) => Ok((r.0, r.1.push(op))),
        },
        Tokens::Var(c, n) => Ok((st.0.push(var_atom(c, n)), st.1)),
        Tokens::OpenBracket => Ok((st.0, st.1.push(Ops::OpenBracket))),
        Tokens::CloseBracket => reduce_to_bracket(st.0, st.1),
    }
}

pub open spec fn sy_run(toks: Seq<Tokens>, st: SyState) -> Result<SyState, ExprError>
    decreases toks.len(),
{
    if toks.len() == 0 {
        Ok(st)
    } else {
        match sy_step(st, toks[0]) {
            Err(e) => Err(e),
            Ok(next) => sy_run(toks.drop_first(), next),
        }
    }
}

/// The tree that the tokens describe: exactly one operand must remain.
pub open spec fn tree_of(toks: Seq<Tokens>) -> Result<Atom, ExprError> {
    match sy_run(toks, (Seq::empty(), Seq::empty())) {
        Err(e) => Err(e),
        Ok(st) => match reduce_all(st.0, st.1) {
            Err(e) => Err(e),
            Ok(out) => if out.len() == 1 {
                Ok(out[0])
            } else {
                Err(ExprError::Malformed)
            },
        },
    }
}

fn do_op(stack: &mut Vec<Atom>, op: Ops) -> (r: Result<(), ExprError>)
    ensures
        match apply_op(old(stack)@, op) {
            Ok(o) => r is Ok && final(stack)@ == o,
            Err(e) => r == Err::<(), ExprError>(e),
        },
{
    if op == Ops::OpenBracket || op == Ops::CloseBracket {
        return Err(ExprError::UnbalancedBrackets);
    }
    if stack.len() < 2 {
        return Err(ExprError::Malformed);
    }
    let ghost s0 = stack@;
    let b = stack.pop().unwrap();
    let a = stack.pop().unwrap();
    assert(b == s0.last());
    assert(a == s0.drop_last().last());
    assert(stack@ == s0.drop_last().drop_last());
    let node = match op {
        Ops::Add => Atom::Add(Box::new(a), Box::new(b)),
        Ops::Subtract => Atom::Sub(Box::new(a), Box::new(b)),
        Ops::Multiply => Atom::Mul(Box::new(a), Box::new(b)),
        _ => Atom::Div(Box::new(a), Box::new(b)),
    };
    stack.push(node);
    Ok(())
}

fn reduce_while_exec(output: &mut Vec<Atom>, ops: &mut Vec<Ops>, p: u8) -> (r: Result<
    (),
    ExprError,
>)
    ensures
        match reduce_while(old(output)@, old(ops)@, p) {
            Ok(st) => r is Ok && st == (final(output)@, final(ops)@),
            Err(e) => r == Err::<(), ExprError>(e),
        },
{
    loop
        invariant
            reduce_while(old(output)@, old(ops)@, p) == reduce_while(output@, ops@, p),
        decreases ops@.len(),
    {
        let n = ops.len();
        if n == 0 {
            return Ok(());
        }
        let top = ops[n - 1];
        if top.precedence() < p {
            return Ok(());
        }
        let ghost o = ops@;
        ops.pop();
        assert(ops@ == o.drop_last());
        match do_op(output, top) {
            Err(e) => {
                return Err(e);
            },
            Ok(()) => {},
        }
    }
}

fn reduce_to_bracket_exec(output: &mut Vec<Atom>, ops: &mut Vec<Ops>) -> (r: Result<
    (),
    ExprError,
>)
    ensures
        match reduce_to_bracket(old(output)@, old(ops)@) {
            Ok(st) => r is Ok && st == (final(output)@, final(ops)@),
            Err(e) => r == Err::<(), ExprError>(e),
        },
{
    loop
        invariant
            reduce_to_bracket(old(output)@, old(ops)@) == reduce_to_bracket(output@, ops@),
        decreases ops@.len(),
    {
        let ghost o = ops@;
        match ops.pop() {
            None => {
                return Err(ExprError::UnbalancedBrackets);
            },
            Some(top) => {
                assert(top == o.last() && ops@ == o.drop_last());
                if top == Ops::OpenBracket {
                    return Ok(());
                }
                match do_op(output, top) {
                    Err(e) => {
                        return Err(e);
                    },
                    Ok(()) => {},
                }
            },
        }
    }
}

fn reduce_all_exec(output: &mut Vec<Atom>, ops: &mut Vec<Ops>) -> (r: Result<(), ExprError>)
    ensures
        match reduce_all(old(output)@, old(ops)@) {
            Ok(out) => r is Ok && out == final(output)@,
            Err(e) => r == Err::<(), ExprError>(e),
        },
{
    loop
        invariant
            reduce_all(old(output)@, old(ops)@) == reduce_all(output@, ops@),
        decreases ops@.len(),
    {
        let ghost o = ops@;
        match ops.pop() {
            None => {
                return Ok(());
            },
            Some(top) => {
                assert(top == o.last() && ops@ == o.drop_last());
                match do_op(output, top) {
                    Err(e) => {
                        return Err(e);
                    },
                    Ok(()) => {},
                }
            },
        }
    }
}

/// Builds the tree of a token sequence by the shunting-yard method.
pub fn ast_shunting_yard(tokens: Vec<Tokens>) -> (r: Result<Atom, ExprError>)
    ensures
        match tree_of(tokens@) {
            Ok(t) => r is Ok && r->Ok_0 == t,
            Err(e) => r is Err && r->Err_0 == e,
        },
{
    let mut output: Vec<Atom> = Vec::new();
    let mut ops: Vec<Ops> = Vec::new();
    let mut i: usize = 0;
    assert(tokens@.skip(0) == tokens@);
    assert(output@ == Seq::<Atom>::empty() && ops@ == Seq::<Ops>::empty());
    while i < tokens.len()
        invariant
            0 <= i <= tokens@.len(),
            sy_run(tokens@, (Seq::empty(), Seq::empty())) == sy_run(
                tokens@.skip(i as int),
                (output@, ops@),
            ),
        decreases tokens@.len() - i,
    {
        let t = tokens[i];
        let ghost rest = tokens@.skip(i as int);
        assert(rest[0] == t);
        assert(rest.drop_first() == tokens@.skip(i as int + 1));
        let step = match t {
            Tokens::Number(n) => {
                output.push(Atom::Num(n));
                Ok(())
            },
            Tokens::Op(op) => {
                let p = op.precedence();
                let res = reduce_while_exec(&mut output, &mut ops, p);
                if res.is_ok() {
                    ops.push(op);
                }
                res
            },
            Tokens::Var(c, n) => {
                if n {
                    output.push(
                        Atom::Mul(
                            Box::new(Atom::Var(c)),
                            Box::new(Atom::Num(Decimal { mantissa: -1, scale: 0 })),
                        ),
                    );
                } else {
                    output.push(Atom::Var(c));
                }
                Ok(())
            },
            Tokens::OpenBracket => {
                ops.push(Ops::OpenBracket);
                Ok(())
            },
            Tokens::CloseBracket => reduce_to_bracket_exec(&mut output, &mut ops),
        };
        match step {
            Err(e) => {
                return Err(e);
            },
            Ok(()) => {},
        }
        i = i + 1;
    }
    assert(tokens@.skip(tokens@.len() as int).len() == 0);
    match reduce_all_exec(&mut output, &mut ops) {
        Err(e) => Err(e),
        Ok(()) => {
            if output.len() == 1 {
                Ok(output.pop().unwrap())
            } else {
                Err(ExprError::Malformed)
            }
        },
    }
}

/// The node that a binary operator makes of two operands.
pub open spec fn node(op: Ops, a: Atom, b: Atom) -> Atom {
    match op {
        Ops::Add => Atom::Add(Box::new(a), Box::new(b)),
        Ops::Subtract => Atom::Sub(Box::new(a), Box::new(b)),
        Ops::Multiply => Atom::Mul(Box::new(a), Box::new(b)),
        _ => Atom::Div(Box::new(a), Box::new(b)),
    }
}

pub open spec fn is_arith(op: Ops) -> bool {
    op == Ops::Add || op == Ops::Subtract || op == Ops::Multiply || op == Ops::Divide
}

/// Precedence and associativity: in `a o1 b o2 c`, a product or quotient
/// after a sum or difference binds first; otherwise the operators group
/// from the left.
pub proof fn lemma_precedence(a: Decimal, b: Decimal, c: Decimal, o1: Ops, o2: Ops)
    requires
        is_arith(o1),
        is_arith(o2),
    ensures
        tree_of(
            seq![
                Tokens::Number(a),
                Tokens::Op(o1),
                Tokens::Number(b),
                Tokens::Op(o2),
                Tokens::Number(c),
            ],
        ) == Ok::<Atom, ExprError>(
            if o2.prec() > o1.prec() {
                node(o1, Atom::Num(a), node(o2, Atom::Num(b), Atom::Num(c)))
            } else {
                node(o2, node(o1, Atom::Num(a), Atom::Num(b)), Atom::Num(c))
            },
        ),
{
    let t = seq![
        Tokens::Number(a),
        Tokens::Op(o1),
        Tokens::Number(b),
        Tokens::Op(o2),
        Tokens::Number(c),
    ];
    let na = Atom::Num(a);
    let nb = Atom::Num(b);
    let nc = Atom::Num(c);
    let e = Seq::<Atom>::empty();
    let eo = Seq::<Ops>::empty();
    // one token at a time
    let s1 = (e.push(na), eo);
    assert(reduce_while(e.push(na), eo, o1.prec()) == Ok::<SyState, ExprError>(s1));
    let s2 = (e.push(na), eo.push(o1));
    let s3 = (e.push(na).push(nb), eo.push(o1));
    let t1 = t.drop_first();
    let t2 = t1.drop_first();
    let t3 = t2.drop_first();
    let t4 = t3.drop_first();
    let t5 = t4.drop_first();
    assert(t[0] == Tokens::Number(a) && t1[0] == Tokens::Op(o1) && t2[0] == Tokens::Number(b));
    assert(t3[0] == Tokens::Op(o2) && t4[0] == Tokens::Number(c) && t5.len() == 0);
    let out3 = e.push(na).push(nb);
    let ops3 = eo.push(o1);
    assert(ops3.last() == o1 && ops3.drop_last() == eo);
    assert(out3.last() == nb && out3.drop_last().last() == na);
    assert(out3.drop_last().drop_last() == e);
    if o2.prec() > o1.prec() {
        assert(reduce_while(out3, ops3, o2.prec()) == Ok::<SyState, ExprError>((out3, ops3)));
        let out5 = out3.push(nc);
        let ops5 = ops3.push(o2);
        assert(ops5.last() == o2 && ops5.drop_last() == ops3);
        assert(out5.last() == nc && out5.drop_last().last() == nb);
        assert(out5.drop_last().drop_last() == e.push(na));
        let bc = node(o2, nb, nc);
        let out6 = e.push(na).push(bc);
        assert(apply_op(out5, o2) == Ok::<Seq<Atom>, ExprError>(out6));
        assert(out6.last() == bc && out6.drop_last().last() == na);
        assert(out6.drop_last().drop_last() == e);
        let out7 = e.push(node(o1, na, bc));
        assert(apply_op(out6, o1) == Ok::<Seq<Atom>, ExprError>(out7));
        assert(reduce_all(out7, eo) == Ok::<Seq<Atom>, ExprError>(out7));
        assert(reduce_all(out6, ops3) == Ok::<Seq<Atom>, ExprError>(out7));
        assert(reduce_all(out5, ops5) == Ok::<Seq<Atom>, ExprError>(out7));
        assert(sy_run(t5, (out5, ops5)) == Ok::<SyState, ExprError>((out5, ops5)));
        assert(sy_run(t4, (out3, ops5)) == Ok::<SyState, ExprError>((out5, ops5)));
        assert(sy_run(t3, (out3, ops3)) == Ok::<SyState, ExprError>((out5, ops5)));
    } else {
        let ab = node(o1, na, nb);
        let out4 = e.push(ab);
        assert(apply_op(out3, o1) == Ok::<Seq<Atom>, ExprError>(out4));
        assert(reduce_while(out4, eo, o2.prec()) == Ok::<SyState, ExprError>((out4, eo)));
        assert(reduce_while(out3, ops3, o2.prec()) == Ok::<SyState, ExprError>((out4, eo)));
        let out5 = out4.push(nc);
        let ops5 = eo.push(o2);
        assert(ops5.last() == o2 && ops5.drop_last() == eo);
        assert(out5.last() == nc && out5.drop_last().last() == ab);
        assert(out5.drop_last().drop_last() == e);
        let out6 = e.push(node(o2, ab, nc));
        assert(apply_op(out5, o2) == Ok::<Seq<Atom>, ExprError>(out6));
        assert(reduce_all(out6, eo) == Ok::<Seq<Atom>, ExprError>(out6));
        assert(reduce_all(out5, ops5) == Ok::<Seq<Atom>, ExprError>(out6));
        assert(sy_run(t5, (out5, ops5)) == Ok::<SyState, ExprError>((out5, ops5)));
        assert(sy_run(t4, (out4, ops5)) == Ok::<SyState, ExprError>((out5, ops5)));
        assert(sy_run(t3, (out3, ops3)) == Ok::<SyState, ExprError>((out5, ops5)));
    }
    assert(sy_run(t2, s2) == sy_run(t3, s3));
    assert(sy_run(t1, s1) == sy_run(t2, s2));
    assert(sy_run(t, (e, eo)) == sy_run(t1, s1));
}

} // verus!
