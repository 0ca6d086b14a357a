//! Definition records as an outside parser delivers them, and the assembly
//! of scalars, axes, tables and metadata from them.
use vstd::prelude::*;
use vstd::string::*;

use std::collections::HashMap;

use crate::definitions::{
    rationals_view, Axis, AxisData, BinaryDefinition, DefinitionInfo, Scalar, Table,
};
use crate::rational::{Frac, Rational};
use crate::rational::MAX_MAGNITUDE;
use crate::token::{
    decimal_of, digits_value, is_digit, is_letter, parse_decimal, pow10, run_chars, Decimal,
    MAX_DIGITS,
};

verus! {

/// A category of the header: its index and display name.
#[derive(Clone, Debug)]
pub struct CategoryRecord {
    pub index: Option<u32>,
    pub name: Option<String>,
}

/// The header of a definition.
#[derive(Clone, Debug)]
pub struct HeaderRecord {
    pub title: Option<String>,
    pub description: Option<String>,
    pub categories: Vec<CategoryRecord>,
}

/// Where data sits in the image.
#[derive(Clone, Copy, Debug, PartialEq, Eq, Structural)]
pub struct EmbeddedRecord {
    pub address: Option<u64>,
    pub element_size_bits: Option<u32>,
    pub row_count: Option<u32>,
    pub col_count: Option<u32>,
}

/// A conversion expression and its declared variables.
#[derive(Clone, Debug)]
pub struct MathRecord {
    pub expression: Option<String>,
    pub vars: Vec<String>,
}

/// A scalar of the definition.
#[derive(Clone, Debug)]
pub struct ConstantRecord {
    pub title: Option<String>,
    pub description: Option<String>,
    pub embedded: Option<EmbeddedRecord>,
    pub math: Option<MathRecord>,
    /// Category memberships.
    pub categories: Vec<Option<u32>>,
}

/// An axis of a table.
#[derive(Clone, Debug)]
pub struct AxisRecord {
    pub id: Option<String>,
    /// Explicit number of elements.
    pub count: Option<u32>,
    pub embedded: Option<EmbeddedRecord>,
    /// Identifier of the table whose value axis holds this axis's data.
    pub link: Option<u32>,
    pub math: Option<MathRecord>,
    pub units: Option<String>,
    /// Fixed labels; an axis with labels is not stored in the image.
    pub labels: Vec<Option<String>>,
}

/// A table of the definition.
#[derive(Clone, Debug)]
pub struct TableRecord {
    pub uid: Option<u32>,
    pub title: Option<String>,
    pub description: Option<String>,
    /// Category memberships, counted from one.
    pub categories: Vec<Option<u32>>,
    pub axes: Vec<AxisRecord>,
}

/// A whole parsed definition.
#[derive(Clone, Debug)]
pub struct DefinitionRecord {
    pub header: Option<HeaderRecord>,
    pub constants: Vec<ConstantRecord>,
    pub tables: Vec<TableRecord>,
}

/// Why a definition could not be assembled.
#[derive(Clone, Copy, Debug, PartialEq, Eq, Structural)]
pub enum DefinitionError {
    MissingHeader,
    MissingEmbeddedData,
    MissingAddress,
    MissingElementSize,
    /// The element size is not one to four whole bytes.
    BadElementSize { bits: u32 },
    MissingMath,
    MissingExpression,
    /// The expression must declare exactly one variable.
    BadVariables { count: usize },
    MissingCount,
    /// The explicit count differs from rows times columns.
    CountMismatch { count: u32, rows: u32, cols: u32 },
    CountTooLarge,
    /// A link names no table with a stored value axis.
    UnknownLink { id: u32 },
    /// The axis has neither labels, nor a link, nor its own storage.
    NoStorage,
    /// A table must have exactly three axes.
    WrongAxisCount { count: usize },
    /// Table category memberships count from one.
    BadCategory,
}

/// Relies on `String::from_iter` over `char`s: the string holds the
/// characters in order.
#[verifier::external_body]
fn chars_to_string(v: Vec<char>) -> (r: String)
    ensures
        r@ == v@,
{
    String::from_iter(v)
}

fn str_chars(s: &str) -> (r: Vec<char>)
    ensures
        r@ == s@,
{
    let n = s.unicode_len();
    let mut out: Vec<char> = Vec::new();
    let mut i: usize = 0;
    while i < n
        invariant
            n == s@.len(),
            0 <= i <= n,
            out@ == s@.subrange(0, i as int),
        decreases n - i,
    {
        out.push(s.get_char(i));
        i = i + 1;
        assert(out@ == s@.subrange(0, i as int));
    }
    assert(s@.subrange(0, n as int) == s@);
    out
}

pub open spec fn hex_digit(d: nat) -> char {
    if d == 0 {
        '0'
    } else if d == 1 {
        '1'
    } else if d == 2 {
        '2'
    } else if d == 3 {
        '3'
    } else if d == 4 {
        '4'
    } else if d == 5 {
        '5'
    } else if d == 6 {
        '6'
    } else if d == 7 {
        '7'
    } else if d == 8 {
        '8'
    } else if d == 9 {
        '9'
    } else if d == 10 {
        'a'
    } else if d == 11 {
        'b'
    } else if d == 12 {
        'c'
    } else if d == 13 {
        'd'
    } else if d == 14 {
        'e'
    } else {
        'f'
    }
}

/// Lower-case hexadecimal digits of `n`, without leading zeros.
pub open spec fn hex_of(n: nat) -> Seq<char>
    decreases n,
{
    if n < 16 {
        seq![hex_digit(n)]
    } else {
        hex_of(n / 16) + seq![hex_digit(n % 16)]
    }
}

fn push_hex(n: u32, out: &mut Vec<char>)
    ensures
        final(out)@ == old(out)@ + hex_of(n as nat),
    decreases n,
{
    if n >= 16 {
        push_hex(n / 16, out);
    }
    let d = n % 16;
    let c = if d == 0 {
        '0'
    } else if d == 1 {
        '1'
    } else if d == 2 {
        '2'
    } else if d == 3 {
        '3'
    } else if d == 4 {
        '4'
    } else if d == 5 {
        '5'
    } else if d == 6 {
        '6'
    } else if d == 7 {
        '7'
    } else if d == 8 {
        '8'
    } else if d == 9 {
        '9'
    } else if d == 10 {
        'a'
    } else if d == 11 {
        'b'
    } else if d == 12 {
        'c'
    } else if d == 13 {
        'd'
    } else if d == 14 {
        'e'
    } else {
        'f'
    };
    out.push(c);
    assert(n < 16 ==> n % 16 == n);
}

/// The index written in lower-case hexadecimal.
pub fn hex_string(n: u32) -> (r: String)
    ensures
        r@ == hex_of(n as nat),
{
    let mut v: Vec<char> = Vec::new();
    push_hex(n, &mut v);
    assert(v@ == Seq::<char>::empty() + hex_of(n as nat));
    chars_to_string(v)
}

/// Emits a finished run of letters: `X` when it is the variable's name.
pub open spec fn emit_run(run: Seq<char>, name: Seq<char>) -> Seq<char> {
    if run.len() == 0 {
        Seq::empty()
    } else if run == name {
        seq!['X']
    } else {
        run
    }
}

/// Copies `s` from position `i` on, with each whole run of letters equal
/// to `name` replaced by `X`; `run` holds the letters read but not yet emitted.
pub open spec fn rename_from(s: Seq<char>, name: Seq<char>, i: int, run: Seq<char>) -> Seq<char>
    decreases s.len() - i,
{
    if i < 0 || i >= s.len() {
        emit_run(run, name)
    } else if is_letter(s[i]) {
        rename_from(s, name, i + 1, run.push(s[i]))
    } else {
        emit_run(run, name) + seq![s[i]] + rename_from(s, name, i + 1, Seq::empty())
    }
}

/// `s` with the variable `name` written as `X`, where it stands as a whole
/// word of letters.
pub open spec fn rename_variable_spec(s: Seq<char>, name: Seq<char>) -> Seq<char> {
    rename_from(s, name, 0, Seq::empty())
}

fn seq_eq(a: &Vec<char>, b: &Vec<char>) -> (r: bool)
    ensures
        r == (a@ == b@),
{
    if a.len() != b.len() {
        return false;
    }
    let mut i: usize = 0;
    while i < a.len()
        invariant
            0 <= i <= a@.len(),
            a@.len() == b@.len(),
            a@.subrange(0, i as int) == b@.subrange(0, i as int),
        decreases a@.len() - i,
    {
        if a[i] != b[i] {
            assert(a@[i as int] != b@[i as int]);
            return false;
        }
        assert(a@.subrange(0, i + 1) == a@.subrange(0, i as int).push(a@[i as int]));
        assert(b@.subrange(0, i + 1) == b@.subrange(0, i as int).push(b@[i as int]));
        i = i + 1;
    }
    assert(a@.subrange(0, a@.len() as int) == a@);
    assert(b@.subrange(0, b@.len() as int) == b@);
    true
}

fn emit(out: &mut Vec<char>, run: &Vec<char>, name: &Vec<char>)
    ensures
        final(out)@ == old(out)@ + emit_run(run@, name@),
{
    if run.len() == 0 {
        assert(old(out)@ + Seq::<char>::empty() == old(out)@);
        return;
    }
    if seq_eq(run, name) {
        out.push('X');
    } else {
        let mut i: usize = 0;
        let ghost o = out@;
        while i < run.len()
            invariant
                0 <= i <= run@.len(),
                out@ == o + run@.subrange(0, i as int),
            decreases run@.len() - i,
        {
            out.push(run[i]);
            i = i + 1;
            assert(out@ == o + run@.subrange(0, i as int));
        }
        assert(run@.subrange(0, run@.len() as int) == run@);
    }
}

/// Writes the declared variable of an expression as `X`, word by word.
pub fn rename_variable(expr: &str, name: &str) -> (r: String)
    ensures
        r@ == rename_variable_spec(expr@, name@),
{
    let s = str_chars(expr);
    let nm = str_chars(name);
    let mut out: Vec<char> = Vec::new();
    let mut run: Vec<char> = Vec::new();
    let mut i: usize = 0;
    while i < s.len()
        invariant
            0 <= i <= s@.len(),
            s@ == expr@,
            nm@ == name@,
            rename_variable_spec(expr@, name@) == out@ + rename_from(
                s@,
                nm@,
                i as int,
                run@,
            ),
        decreases s@.len() - i,
    {
        let c = s[i];
        if ('a' <= c && c <= 'z') || ('A' <= c && c <= 'Z') {
            run.push(c);
        } else {
            let ghost o = out@;
            let ghost rn = run@;
            emit(&mut out, &run, &nm);
            out.push(c);
            run = Vec::new();
            assert(out@ == o + emit_run(rn, nm@) + seq![c]);
            assert(o + (emit_run(rn, nm@) + seq![c] + rename_from(s@, nm@, i + 1, Seq::empty()))
                == out@ + rename_from(s@, nm@, i + 1, run@));
        }
        i = i + 1;
    }
    emit(&mut out, &run, &nm);
    chars_to_string(out)
}

/// Position of the first exponent mark at or after `i`, or the length.
pub open spec fn exp_pos(s: Seq<char>, i: int) -> int
    decreases s.len() - i,
{
    if i < 0 || i >= s.len() {
        s.len() as int
    } else if s[i] == 'e' || s[i] == 'E' {
        i
    } else {
        exp_pos(s, i + 1)
    }
}

pub open spec fn all_digits(s: Seq<char>) -> bool {
    forall|k: int| 0 <= k < s.len() ==> is_digit(#[trigger] s[k])
}

/// An optionally signed run of at least one digit.
pub open spec fn exponent_of(s: Seq<char>) -> Option<int> {
    let neg = s.len() > 0 && s[0] == '-';
    let digits = if s.len() > 0 && (s[0] == '-' || s[0] == '+') {
        s.drop_first()
    } else {
        s
    };
    if digits.len() == 0 || !all_digits(digits) {
        None
    } else if neg {
        Some(-digits_value(digits))
    } else {
        Some(digits_value(digits))
    }
}

/// `d * 10^x` with the sign applied, when it fits the exact range.
pub open spec fn scaled(d: Decimal, x: int, neg: bool) -> Option<Frac> {
    let m = d.mantissa as int;
    let net = d.scale as int - x;
    let sign = if neg {
        -1int
    } else {
        1int
    };
    if m == 0 {
        Some((0, 1))
    } else if net >= 0 {
        if net <= MAX_DIGITS {
            Some((sign * m, pow10(net as nat) as int))
        } else {
            None
        }
    } else if m * pow10((-net) as nat) <= MAX_MAGNITUDE as int {
        Some((sign * m * pow10((-net) as nat), 1))
    } else {
        None
    }
}

/// The value of an optionally signed decimal number with an optional
/// exponent (`e` or `E`, then an optionally signed integer), if `s` is one
/// and it fits the exact range.
pub open spec fn value_spec(s: Seq<char>) -> Option<Frac> {
    let neg = s.len() > 0 && s[0] == '-';
    let body = if s.len() > 0 && (s[0] == '-' || s[0] == '+') {
        s.drop_first()
    } else {
        s
    };
    body_value(body, neg)
}

/// The value of an unsigned number with an optional exponent, then signed.
pub open spec fn body_value(body: Seq<char>, neg: bool) -> Option<Frac> {
    let p = exp_pos(body, 0);
    let mant = body.subrange(0, p);
    if !run_chars(mant) {
        None
    } else {
        match decimal_of(mant) {
            Err(_) => None,
            Ok(d) => if p == body.len() {
                scaled(d, 0, neg)
            } else {
                match exponent_of(body.subrange(p + 1, body.len() as int)) {
                    None => None,
                    Some(x) => scaled(d, x, neg),
                }
            },
        }
    }
}

/// The value of a label; text that is no number reads as zero.
pub open spec fn label_spec(s: Seq<char>) -> Frac {
    match value_spec(s) {
        Some(q) => q,
        None => (0, 1),
    }
}

/// Reads a label as a number; text that is no number reads as zero.
pub fn label_value(s: &str) -> (r: Rational)
    ensures
        r@ == label_spec(s@),
{
    match parse_value(s) {
        Some(q) => q,
        None => Rational::from_int(0),
    }
}

/// An exponent beyond this many decades leaves the exact range for every
/// value but zero.
pub const EXPONENT_CAP: i64 = 1001;

proof fn lemma_scaled_cap(d: Decimal, x: int, neg: bool)
    requires
        0 <= d.mantissa < 100_000_000_000_000_000_000_000_000_000_000_000_000,
        d.scale <= MAX_DIGITS,
        x > 1000 || x < -1000,
    ensures
        scaled(d, x, neg) == scaled(d, if x > 1000 { EXPONENT_CAP as int } else { -EXPONENT_CAP as int }, neg),
{
    let m = d.mantissa as int;
    if m != 0 {
        let y = if x > 1000 { EXPONENT_CAP as int } else { -EXPONENT_CAP as int };
        if x > 1000 {
            let k1 = (x - d.scale) as nat;
            let k2 = (y - d.scale) as nat;
            lemma_pow10_beyond(k1);
            lemma_pow10_beyond(k2);
            assert(m * pow10(k1) >= pow10(k1)) by (nonlinear_arith)
                requires m >= 1;
            assert(m * pow10(k2) >= pow10(k2)) by (nonlinear_arith)
                requires m >= 1;
        }
    }
}

proof fn lemma_pow10_beyond(k: nat)
    requires
        k >= 39,
    ensures
        pow10(k) > MAX_MAGNITUDE as int,
{
    if pow10(k) <= u128::MAX {
        crate::definitions::lemma_pow10_small(k);
    }
}

fn scale_value(d: Decimal, x: i64, neg: bool) -> (r: Option<Rational>)
    requires
        0 <= d.mantissa < 100_000_000_000_000_000_000_000_000_000_000_000_000,
        d.scale <= MAX_DIGITS,
        -EXPONENT_CAP <= x <= EXPONENT_CAP,
    ensures
        match scaled(d, x as int, neg) {
            Some(q) => r is Some && r->Some_0@ == q,
            None => r is None,
        },
{
    let m = d.mantissa;
    if m == 0 {
        return Some(Rational::from_int(0));
    }
    let net: i64 = d.scale as i64 - x;
    let k: u32 = if net >= 0 { net as u32 } else { (-net) as u32 };
    if k > MAX_DIGITS {
        if net < 0 {
            proof {
                lemma_pow10_beyond(k as nat);
                assert(m * pow10(k as nat) >= pow10(k as nat)) by (nonlinear_arith)
                    requires m >= 1;
            }
        }
        return None;
    }
    let mut p: i128 = 1;
    let mut j: u32 = 0;
    while j < k
        invariant
            j <= k <= MAX_DIGITS,
            p == pow10(j as nat),
        decreases k - j,
    {
        proof {
            crate::token::lemma_pow10_mono((j + 1) as nat, MAX_DIGITS as nat);
            crate::token::lemma_pow10_fits(MAX_DIGITS as nat);
        }
        p = p * 10;
        j = j + 1;
    }
    proof {
        crate::token::lemma_pow10_fits(k as nat);
        crate::token::lemma_pow10_mono(0, k as nat);
    }
    let v: Rational = if net >= 0 {
        match Rational::new(m, p) {
            Some(q) => q,
            None => {
                return None;
            },
        }
    } else {
        match m.checked_mul(p) {
            Some(mp) => {
                if mp > MAX_MAGNITUDE {
                    return None;
                }
                match Rational::new(mp, 1) {
                    Some(q) => q,
                    None => {
                        return None;
                    },
                }
            },
            None => {
                return None;
            },
        }
    };
    proof {
        if net >= 0 {
            assert(net as nat == k as nat);
        } else {
            assert((-net) as nat == k as nat);
            assert(-1 * m * pow10(k as nat) == -(m * pow10(k as nat))) by (nonlinear_arith);
            assert(1 * m * pow10(k as nat) == m * pow10(k as nat)) by (nonlinear_arith);
        }
    }
    if neg {
        Some(v.neg())
    } else {
        Some(v)
    }
}

/// Collects `chars[from..to]`.
fn slice_chars(chars: &Vec<char>, from: usize, to: usize) -> (r: Vec<char>)
    requires
        from <= to <= chars@.len(),
    ensures
        r@ == chars@.subrange(from as int, to as int),
{
    let mut out: Vec<char> = Vec::new();
    let mut i: usize = from;
    while i < to
        invariant
            from <= i <= to <= chars@.len(),
            out@ == chars@.subrange(from as int, i as int),
        decreases to - i,
    {
        out.push(chars[i]);
        i = i + 1;
        assert(out@ == chars@.subrange(from as int, i as int));
    }
    out
}

fn is_run(v: &Vec<char>) -> (r: bool)
    ensures
        r == run_chars(v@),
{
    let mut i: usize = 0;
    while i < v.len()
        invariant
            0 <= i <= v@.len(),
            forall|k: int| 0 <= k < i ==> is_digit(#[trigger] v@[k]) || v@[k] == '.',
        decreases v@.len() - i,
    {
        let c = v[i];
        if !(('0' <= c && c <= '9') || c == '.') {
            assert(!(is_digit(v@[i as int]) || v@[i as int] == '.'));
            return false;
        }
        i = i + 1;
    }
    true
}

/// Reads an optionally signed exponent, its magnitude held at `EXPONENT_CAP`.
fn read_exponent(ex: &Vec<char>) -> (r: Option<i64>)
    ensures
        match exponent_of(ex@) {
            None => r is None,
            Some(x) => r is Some && r->Some_0 == (if x > 1000 {
                EXPONENT_CAP as int
            } else if x < -1000 {
                -EXPONENT_CAP as int
            } else {
                x
            }),
        },
{
    let n = ex.len();
    let neg = n > 0 && ex[0] == '-';
    let start: usize = if n > 0 && (ex[0] == '-' || ex[0] == '+') {
        1
    } else {
        0
    };
    let ghost digits = ex@.subrange(start as int, n as int);
    assert(digits == if ex@.len() > 0 && (ex@[0] == '-' || ex@[0] == '+') {
        ex@.drop_first()
    } else {
        ex@
    });
    if start == n {
        assert(digits.len() == 0);
        return None;
    }
    let mut v: i64 = 0;
    let mut i: usize = start;
    while i < n
        invariant
            start <= i <= n,
            n == ex@.len(),
            start <= 1,
            digits == ex@.subrange(start as int, n as int),
            digits == (if ex@.len() > 0 && (ex@[0] == '-' || ex@[0] == '+') {
                ex@.drop_first()
            } else {
                ex@
            }),
            all_digits(ex@.subrange(start as int, i as int)),
            v == (if digits_value(ex@.subrange(start as int, i as int)) > 1000 {
                EXPONENT_CAP as int
            } else {
                digits_value(ex@.subrange(start as int, i as int))
            }),
            digits_value(ex@.subrange(start as int, i as int)) >= 0,
        decreases n - i,
    {
        let c = ex[i];
        if !('0' <= c && c <= '9') {
            assert(digits[i - start] == c);
            assert(!is_digit(digits[i - start]));
            assert(!all_digits(digits));
            return None;
        }
        let ghost pre = ex@.subrange(start as int, i as int);
        let ghost post = ex@.subrange(start as int, i + 1);
        assert(post.drop_last() == pre);
        assert(post.last() == c);
        assert forall|k: int| 0 <= k < post.len() implies is_digit(#[trigger] post[k]) by {
            if k < pre.len() {
                assert(post[k] == pre[k]);
            }
        }
        if v < 1001 {
            let w: i64 = v * 10 + (c as u32 - '0' as u32) as i64;
            v = if w > 1000 { 1001 } else { w };
        }
        i = i + 1;
    }
    assert(ex@.subrange(start as int, n as int) == digits);
    assert(all_digits(digits));
    assert(digits.len() > 0);
    assert(neg == (ex@.len() > 0 && ex@[0] == '-'));
    assert(exponent_of(ex@) == if neg {
        Some(-digits_value(digits))
    } else {
        Some(digits_value(digits))
    });
    if neg {
        Some(-v)
    } else {
        Some(v)
    }
}

#[verifier::rlimit(40)]
fn parse_body(body: &Vec<char>, neg: bool) -> (r: Option<Rational>)
    ensures
        match body_value(body@, neg) {
            Some(q) => r is Some && r->Some_0@ == q,
            None => r is None,
        },
{
    let bn = body.len();
    let mut p: usize = 0;
    while p < bn && body[p] != 'e' && body[p] != 'E'
        invariant
            0 <= p <= bn,
            bn == body@.len(),
            exp_pos(body@, 0) == exp_pos(body@, p as int),
        decreases bn - p,
    {
        p = p + 1;
    }
    assert(exp_pos(body@, p as int) == p);
    let mant = slice_chars(body, 0, p);
    if !is_run(&mant) {
        return None;
    }
    let d = match parse_decimal(&mant) {
        Ok(d) => d,
        Err(_) => {
            return None;
        },
    };
    proof {
        crate::token::lemma_digits_bound(mant@);
        crate::token::lemma_pow10_mono(crate::token::digit_count(mant@), 38);
        reveal_with_fuel(pow10, 39);
    }
    if p == bn {
        return scale_value(d, 0, neg);
    }
    let ex = slice_chars(body, p + 1, bn);
    match read_exponent(&ex) {
        None => None,
        Some(x) => {
            proof {
                let t = exponent_of(ex@)->Some_0;
                if t > 1000 || t < -1000 {
                    lemma_scaled_cap(d, t, neg);
                }
            }
            scale_value(d, x, neg)
        },
    }
}

/// Reads an optionally signed decimal number with an optional exponent, as
/// typed by a user; see `value_spec`.
pub fn parse_value(s: &str) -> (r: Option<Rational>)
    ensures
        match value_spec(s@) {
            Some(q) => r is Some && r->Some_0@ == q,
            None => r is None,
        },
{
    let chars = str_chars(s);
    let n = chars.len();
    let neg = n > 0 && chars[0] == '-';
    let start: usize = if n > 0 && (chars[0] == '-' || chars[0] == '+') {
        1
    } else {
        0
    };
    let body = slice_chars(&chars, start, n);
    assert(body@ == if s@.len() > 0 && (s@[0] == '-' || s@[0] == '+') {
        s@.drop_first()
    } else {
        s@
    });
    parse_body(&body, neg)
}

pub open spec fn text_or_empty(o: Option<String>) -> Seq<char> {
    match o {
        Some(s) => s@,
        None => Seq::empty(),
    }
}

pub open spec fn opt_text(o: Option<String>) -> Option<Seq<char>> {
    match o {
        Some(s) => Some(s@),
        None => None,
    }
}

pub open spec fn texts(v: Seq<String>) -> Seq<Seq<char>> {
    v.map_values(|s: String| s@)
}

fn text_or_default(o: Option<String>) -> (r: String)
    ensures
        r@ == text_or_empty(o),
{
    match o {
        Some(s) => s,
        None => String::new(),
    }
}

/// The storage and conversion that a table's value axis offers to axes
/// that link to it.
#[derive(Debug)]
pub struct LinkedData {
    pub embedded: EmbeddedRecord,
    pub expression: Option<String>,
    pub vars: Vec<String>,
}

/// Storage, expression text and declared variables.
pub type Source = (EmbeddedRecord, Option<Seq<char>>, Seq<Seq<char>>);

impl View for LinkedData {
    type V = Source;

    open spec fn view(&self) -> Source {
        (self.embedded, opt_text(self.expression), texts(self.vars@))
    }
}

pub open spec fn links_view(m: Map<u32, LinkedData>) -> Map<u32, Source> {
    m.map_values(|l: LinkedData| l@)
}

/// Where a stored axis takes its storage and conversion from: the linked
/// table's value axis, or its own record.
pub open spec fn axis_source(rec: AxisRecord, links: Option<Map<u32, Source>>) -> Result<
    Source,
    DefinitionError,
> {
    match rec.link {
        Some(id) => match links {
            Some(m) => if m.contains_key(id) {
                Ok(m[id])
            } else {
                Err(DefinitionError::UnknownLink { id })
            },
            None => Err(DefinitionError::UnknownLink { id }),
        },
        None => match rec.embedded {
            None => Err(DefinitionError::MissingEmbeddedData),
            Some(e) => if e.address is Some && (e.col_count is Some || e.row_count is Some
                || rec.count is Some) {
                match rec.math {
                    None => Err(DefinitionError::MissingMath),
                    Some(m) => Ok((e, opt_text(m.expression), texts(m.vars@))),
                }
            } else {
                Err(DefinitionError::NoStorage)
            },
        },
    }
}

/// The element count: the explicit one, else rows times columns, else
/// whichever of the two is given. An explicit count must agree with the
/// axis's own rows and columns.
pub open spec fn axis_count(count: Option<u32>, e: EmbeddedRecord, own: bool) -> Result<
    nat,
    DefinitionError,
> {
    match count {
        Some(c) => if own && e.row_count is Some && e.col_count is Some && c as int
            != e.row_count->Some_0 as int * e.col_count->Some_0 as int {
            Err(
                DefinitionError::CountMismatch {
                    count: c,
                    rows: e.row_count->Some_0,
                    cols: e.col_count->Some_0,
                },
            )
        } else {
            Ok(c as nat)
        },
        None => match (e.col_count, e.row_count) {
            (Some(c), Some(r)) => Ok((r as nat) * (c as nat)),
            (Some(c), None) => Ok(c as nat),
            (None, Some(r)) => Ok(r as nat),
            (None, None) => Err(DefinitionError::MissingCount),
        },
    }
}

/// Address, element size, count and normalised expression of a stored axis.
pub open spec fn binary_axis(rec: AxisRecord, links: Option<Map<u32, Source>>) -> Result<
    (u64, usize, usize, Seq<char>),
    DefinitionError,
> {
    match axis_source(rec, links) {
        Err(e) => Err(e),
        Ok(src) => {
            let (e, expr, vars) = src;
            if vars.len() != 1 {
                Err(DefinitionError::BadVariables { count: vars.len() as usize })
            } else {
                match e.address {
                    None => Err(DefinitionError::MissingAddress),
                    Some(a) => match axis_count(rec.count, e, rec.link is None) {
                        Err(err) => Err(err),
                        Ok(n) => if n > usize::MAX {
                            Err(DefinitionError::CountTooLarge)
                        } else {
                            match e.element_size_bits {
                                None => Err(DefinitionError::MissingElementSize),
                                Some(bits) => if bits / 8 < 1 || bits / 8 > 4 {
                                    Err(DefinitionError::BadElementSize { bits })
                                } else {
                                    match expr {
                                        None => Err(DefinitionError::MissingExpression),
                                        Some(x) => Ok(
                                            (
                                                a,
                                                (bits / 8) as usize,
                                                n as usize,
                                                rename_variable_spec(x, vars[0]),
                                            ),
                                        ),
                                    }
                                },
                            }
                        },
                    },
                }
            }
        },
    }
}

pub open spec fn label_of(l: Option<String>) -> Frac {
    match l {
        Some(s) => label_spec(s@),
        None => (0, 1),
    }
}

/// The axis built from `rec`: fixed labels when it has any, else stored data.
pub open spec fn axis_matches(a: Axis, rec: AxisRecord, links: Option<Map<u32, Source>>) -> bool {
    &&& a.units@ == text_or_empty(rec.units)
    &&& if rec.labels@.len() == 0 {
        match binary_axis(rec, links) {
            Ok(b) => a.data == (AxisData::Binary {
                address: b.0,
                element_size: b.1,
                count: b.2,
                expression: a.data->Binary_expression,
            }) && a.data->Binary_expression@ == b.3,
            Err(_) => false,
        }
    } else {
        a.data is User && rationals_view(a.data->User_0@) == rec.labels@.map_values(
            |l: Option<String>| label_of(l),
        )
    }
}

/// The outcome of building an axis from `rec`.
pub open spec fn axis_result_ok(
    r: Result<Axis, DefinitionError>,
    rec: AxisRecord,
    links: Option<Map<u32, Source>>,
) -> bool {
    match r {
        Ok(a) => axis_matches(a, rec, links),
        Err(e) => rec.labels@.len() == 0 && binary_axis(rec, links) == Err::<
            (u64, usize, usize, Seq<char>),
            DefinitionError,
        >(e),
    }
}

fn count_of(count: Option<u32>, e: EmbeddedRecord, own: bool) -> (r: Result<usize, DefinitionError>)
    ensures
        match axis_count(count, e, own) {
            Err(err) => r == Err::<usize, DefinitionError>(err),
            Ok(n) => if n > usize::MAX {
                r == Err::<usize, DefinitionError>(DefinitionError::CountTooLarge)
            } else {
                r == Ok::<usize, DefinitionError>(n as usize)
            },
        },
{
    let n: u64 = match count {
        Some(c) => {
            if own {
                if let (Some(rows), Some(cols)) = (e.row_count, e.col_count) {
                    assert(rows as u64 * cols as u64 <= u64::MAX) by (nonlinear_arith)
                        requires rows <= u32::MAX, cols <= u32::MAX;
                    if c as u64 != rows as u64 * cols as u64 {
                        return Err(DefinitionError::CountMismatch { count: c, rows, cols });
                    }
                }
            }
            c as u64
        },
        None => match (e.col_count, e.row_count) {
            (Some(c), Some(r)) => {
                assert(r as u64 * c as u64 <= u64::MAX) by (nonlinear_arith)
                    requires r <= u32::MAX, c <= u32::MAX;
                r as u64 * c as u64
            },
            (Some(c), None) => c as u64,
            (None, Some(r)) => r as u64,
            (None, None) => {
                return Err(DefinitionError::MissingCount);
            },
        },
    };
    if n > usize::MAX as u64 {
        return Err(DefinitionError::CountTooLarge);
    }
    Ok(n as usize)
}

fn copy_texts(v: &Vec<String>) -> (r: Vec<String>)
    ensures
        texts(r@) == texts(v@),
{
    let mut out: Vec<String> = Vec::new();
    let mut i: usize = 0;
    while i < v.len()
        invariant
            0 <= i <= v@.len(),
            texts(out@) == texts(v@.subrange(0, i as int)),
        decreases v@.len() - i,
    {
        let ghost before = out@;
        out.push(v[i].clone());
        assert(texts(out@) == texts(before).push(v@[i as int]@));
        assert(v@.subrange(0, i + 1) == v@.subrange(0, i as int).push(v@[i as int]));
        i = i + 1;
    }
    assert(v@.subrange(0, v@.len() as int) == v@);
    out
}

fn copy_text(o: &Option<String>) -> (r: Option<String>)
    ensures
        opt_text(r) == opt_text(*o),
{
    match o {
        Some(s) => Some(s.clone()),
        None => None,
    }
}

impl Axis {
    /// Builds an axis from its record. Labels make fixed values; otherwise
    /// the storage comes from the linked table's value axis or the record.
    pub fn from_xdf(xdf: AxisRecord, linked: Option<&HashMap<u32, LinkedData>>) -> (r: Result<
        Axis,
        DefinitionError,
    >)
        ensures
            axis_result_ok(
                r,
                xdf,
                match linked {
                    Some(m) => Some(links_view(m@)),
                    None => None,
                },
            ),
    {
        broadcast use vstd::std_specs::hash::group_hash_axioms;

        let ghost links = match linked {
            Some(m) => Some(links_view(m@)),
            None => None,
        };
        let ghost rec = xdf;
        let units = text_or_default(xdf.units);
        if xdf.labels.len() > 0 {
            let mut values: Vec<Rational> = Vec::new();
            let mut i: usize = 0;
            let n = xdf.labels.len();
            while i < n
                invariant
                    0 <= i <= n,
                    n == rec.labels@.len(),
                    xdf.labels == rec.labels,
                    rationals_view(values@) == rec.labels@.subrange(0, i as int).map_values(
                        |l: Option<String>| label_of(l),
                    ),
                decreases n - i,
            {
                let v = match &xdf.labels[i] {
                    Some(s) => label_value(s.as_str()),
                    None => Rational::from_int(0),
                };
                let ghost before = rationals_view(values@);
                values.push(v);
                assert(rationals_view(values@) == before.push(v@));
                assert(rec.labels@.subrange(0, i + 1) == rec.labels@.subrange(0, i as int).push(
                    rec.labels@[i as int],
                ));
                i = i + 1;
            }
            assert(rec.labels@.subrange(0, n as int) == rec.labels@);
            return Ok(Axis { units, data: AxisData::User(values) });
        }
        let (edata, expression, vars): (EmbeddedRecord, Option<String>, Vec<String>) =
            match xdf.link {
            Some(id) => {
                let m = match linked {
                    Some(m) => m,
                    None => {
                        return Err(DefinitionError::UnknownLink { id });
                    },
                };
                match m.get(&id) {
                    Some(l) => {
                        assert(links_view(m@)[id] == l@);
                        (l.embedded, copy_text(&l.expression), copy_texts(&l.vars))
                    },
                    None => {
                        return Err(DefinitionError::UnknownLink { id });
                    },
                }
            },
            None => {
                let e = match xdf.embedded {
                    Some(e) => e,
                    None => {
                        return Err(DefinitionError::MissingEmbeddedData);
                    },
                };
                if e.address.is_some() && (e.col_count.is_some() || e.row_count.is_some()
                    || xdf.count.is_some()) {
                    match xdf.math {
                        Some(m) => (e, m.expression, m.vars),
                        None => {
                            return Err(DefinitionError::MissingMath);
                        },
                    }
                } else {
                    return Err(DefinitionError::NoStorage);
                }
            },
        };
        assert(axis_source(rec, links) == Ok::<Source, DefinitionError>(
            (edata, opt_text(expression), texts(vars@)),
        ));
        if vars.len() != 1 {
            return Err(DefinitionError::BadVariables { count: vars.len() });
        }
        let address = match edata.address {
            Some(a) => a,
            None => {
                return Err(DefinitionError::MissingAddress);
            },
        };
        let count = match count_of(xdf.count, edata, xdf.link.is_none()) {
            Ok(n) => n,
            Err(e) => {
                return Err(e);
            },
        };
        let bits = match edata.element_size_bits {
            Some(b) => b,
            None => {
                return Err(DefinitionError::MissingElementSize);
            },
        };
        if bits / 8 < 1 || bits / 8 > 4 {
            return Err(DefinitionError::BadElementSize { bits });
        }
        let text = match expression {
            Some(x) => x,
            None => {
                return Err(DefinitionError::MissingExpression);
            },
        };
        let expression = rename_variable(text.as_str(), vars[0].as_str());
        Ok(
            Axis {
                units,
                data: AxisData::Binary {
                    address,
                    element_size: (bits / 8) as usize,
                    count,
                    expression,
                },
            },
        )
    }
}

/// The category indices that a scalar belongs to.
pub open spec fn present_categories(cs: Seq<Option<u32>>) -> Seq<u32>
    decreases cs.len(),
{
    if cs.len() == 0 {
        Seq::empty()
    } else {
        let p = present_categories(cs.drop_last());
        match cs.last() {
            Some(c) => p.push(c),
            None => p,
        }
    }
}

/// The category indices of a table, moved from counting from one to
/// counting from zero; a zero there is an error.
pub open spec fn table_categories(cs: Seq<Option<u32>>) -> Result<Seq<u32>, DefinitionError>
    decreases cs.len(),
{
    if cs.len() == 0 {
        Ok(Seq::empty())
    } else {
        match table_categories(cs.drop_last()) {
            Err(e) => Err(e),
            Ok(p) => match cs.last() {
                None => Ok(p),
                Some(c) => if c == 0 {
                    Err(DefinitionError::BadCategory)
                } else {
                    Ok(p.push((c - 1) as u32))
                },
            },
        }
    }
}

fn scalar_categories(cs: &Vec<Option<u32>>) -> (r: Vec<u32>)
    ensures
        r@ == present_categories(cs@),
{
    let mut out: Vec<u32> = Vec::new();
    let mut i: usize = 0;
    while i < cs.len()
        invariant
            0 <= i <= cs@.len(),
            out@ == present_categories(cs@.subrange(0, i as int)),
        decreases cs@.len() - i,
    {
        let ghost pre = cs@.subrange(0, i + 1);
        assert(pre.drop_last() == cs@.subrange(0, i as int));
        assert(pre.last() == cs@[i as int]);
        if let Some(c) = cs[i] {
            out.push(c);
        }
        i = i + 1;
    }
    assert(cs@.subrange(0, cs@.len() as int) == cs@);
    out
}

fn member_categories(cs: &Vec<Option<u32>>) -> (r: Result<Vec<u32>, DefinitionError>)
    ensures
        match table_categories(cs@) {
            Ok(v) => r is Ok && r->Ok_0@ == v,
            Err(e) => r == Err::<Vec<u32>, DefinitionError>(e),
        },
{
    let mut out: Vec<u32> = Vec::new();
    let mut i: usize = 0;
    while i < cs.len()
        invariant
            0 <= i <= cs@.len(),
            table_categories(cs@.subrange(0, i as int)) == Ok::<Seq<u32>, DefinitionError>(out@),
        decreases cs@.len() - i,
    {
        let ghost pre = cs@.subrange(0, i + 1);
        assert(pre.drop_last() == cs@.subrange(0, i as int));
        assert(pre.last() == cs@[i as int]);
        if let Some(c) = cs[i] {
            if c == 0 {
                proof {
                    lemma_table_categories_err(cs@, i + 1);
                }
                return Err(DefinitionError::BadCategory);
            }
            out.push(c - 1);
        }
        i = i + 1;
    }
    assert(cs@.subrange(0, cs@.len() as int) == cs@);
    Ok(out)
}

/// An error in a prefix of the memberships is the error of the whole.
proof fn lemma_table_categories_err(cs: Seq<Option<u32>>, n: int)
    requires
        0 <= n <= cs.len(),
        table_categories(cs.subrange(0, n)) is Err,
    ensures
        table_categories(cs) == table_categories(cs.subrange(0, n)),
    decreases cs.len() - n,
{
    if n < cs.len() {
        let pre = cs.subrange(0, n + 1);
        assert(pre.drop_last() == cs.subrange(0, n));
        lemma_table_categories_err(cs, n + 1);
    } else {
        assert(cs.subrange(0, n) == cs);
    }
}

/// Why a scalar record cannot be built, if it cannot.
pub open spec fn scalar_error(c: ConstantRecord) -> Option<DefinitionError> {
    match c.embedded {
        None => Some(DefinitionError::MissingEmbeddedData),
        Some(e) => match c.math {
            None => Some(DefinitionError::MissingMath),
            Some(m) => match e.address {
                None => Some(DefinitionError::MissingAddress),
                Some(_) => match e.element_size_bits {
                    None => Some(DefinitionError::MissingElementSize),
                    Some(bits) => if bits / 8 < 1 || bits / 8 > 4 {
                        Some(DefinitionError::BadElementSize { bits })
                    } else if m.expression is None {
                        Some(DefinitionError::MissingExpression)
                    } else {
                        None
                    },
                },
            },
        },
    }
}

/// The scalar built from `c`.
pub open spec fn scalar_matches(s: Scalar, c: ConstantRecord) -> bool {
    &&& s.name@ == text_or_empty(c.title)
    &&& s.description@ == text_or_empty(c.description)
    &&& s.address == c.embedded->Some_0.address->Some_0
    &&& s.size == (c.embedded->Some_0.element_size_bits->Some_0 / 8) as usize
    &&& s.expression@ == c.math->Some_0.expression->Some_0@
    &&& s.categories@ == present_categories(c.categories@)
}

impl Scalar {
    /// Builds a scalar from its record.
    pub fn from_xdf(xdf: ConstantRecord) -> (r: Result<Scalar, DefinitionError>)
        ensures
            match scalar_error(xdf) {
                Some(e) => r == Err::<Scalar, DefinitionError>(e),
                None => r is Ok && scalar_matches(r->Ok_0, xdf),
            },
    {
        let ghost rec = xdf;
        let edata = match xdf.embedded {
            Some(e) => e,
            None => {
                return Err(DefinitionError::MissingEmbeddedData);
            },
        };
        let math = match xdf.math {
            Some(m) => m,
            None => {
                return Err(DefinitionError::MissingMath);
            },
        };
        let address = match edata.address {
            Some(a) => a,
            None => {
                return Err(DefinitionError::MissingAddress);
            },
        };
        let bits = match edata.element_size_bits {
            Some(b) => b,
            None => {
                return Err(DefinitionError::MissingElementSize);
            },
        };
        if bits / 8 < 1 || bits / 8 > 4 {
            return Err(DefinitionError::BadElementSize { bits });
        }
        let expression = match math.expression {
            Some(x) => x,
            None => {
                return Err(DefinitionError::MissingExpression);
            },
        };
        let categories = scalar_categories(&xdf.categories);
        Ok(
            Scalar {
                name: text_or_default(xdf.title),
                description: text_or_default(xdf.description),
                address,
                size: (bits / 8) as usize,
                expression,
                categories,
            },
        )
    }
}

/// Category index to display name; a category without a name shows its
/// index in hexadecimal, and a later entry for an index wins.
pub open spec fn category_map(cs: Seq<CategoryRecord>) -> Map<u32, Seq<char>>
    decreases cs.len(),
{
    if cs.len() == 0 {
        Map::empty()
    } else {
        let m = category_map(cs.drop_last());
        let c = cs.last();
        match c.index {
            Some(i) => m.insert(
                i,
                match c.name {
                    Some(n) => n@,
                    None => hex_of(i as nat),
                },
            ),
            None => m,
        }
    }
}

pub open spec fn names_view(m: Map<u32, String>) -> Map<u32, Seq<char>> {
    m.map_values(|s: String| s@)
}

impl DefinitionInfo {
    /// Builds the metadata from the header.
    pub fn from_xdf(xdf: HeaderRecord) -> (r: DefinitionInfo)
        ensures
            r.name@ == text_or_empty(xdf.title),
            r.description@ == text_or_empty(xdf.description),
            names_view(r.categories@) == category_map(xdf.categories@),
    {
        broadcast use vstd::std_specs::hash::group_hash_axioms;

        let ghost rec = xdf;
        let mut categories: HashMap<u32, String> = HashMap::new();
        let mut i: usize = 0;
        let n = xdf.categories.len();
        assert(names_view(categories@) =~= category_map(rec.categories@.subrange(0, 0)));
        while i < n
            invariant
                0 <= i <= n,
                n == rec.categories@.len(),
                xdf.categories == rec.categories,
                names_view(categories@) == category_map(rec.categories@.subrange(0, i as int)),
            decreases n - i,
        {
            let ghost pre = rec.categories@.subrange(0, i + 1);
            assert(pre.drop_last() == rec.categories@.subrange(0, i as int));
            assert(pre.last() == rec.categories@[i as int]);
            let c = &xdf.categories[i];
            if let Some(index) = c.index {
                let name = match &c.name {
                    Some(s) => s.clone(),
                    None => hex_string(index),
                };
                let ghost before = categories@;
                categories.insert(index, name);
                assert(names_view(categories@) =~= names_view(before).insert(index, name@));
            }
            i = i + 1;
        }
        assert(rec.categories@.subrange(0, n as int) == rec.categories@);
        DefinitionInfo {
            name: text_or_default(xdf.title),
            description: text_or_default(xdf.description),
            categories,
        }
    }
}

/// Lexicographic order on characters from position `i` on.
pub open spec fn lex_lt_from(a: Seq<char>, b: Seq<char>, i: int) -> bool
    decreases a.len() - i,
{
    if i < 0 || i >= a.len() {
        0 <= i < b.len()
    } else if i >= b.len() {
        false
    } else if a[i] != b[i] {
        (a[i] as u32) < (b[i] as u32)
    } else {
        lex_lt_from(a, b, i + 1)
    }
}

/// The order of axis identifiers: a missing one first, then by characters.
pub open spec fn id_lt(a: Option<String>, b: Option<String>) -> bool {
    match (a, b) {
        (None, Some(_)) => true,
        (Some(x), Some(y)) => lex_lt_from(x@, y@, 0),
        _ => false,
    }
}

fn text_lt(a: &String, b: &String) -> (r: bool)
    ensures
        r == lex_lt_from(a@, b@, 0),
{
    let x = str_chars(a.as_str());
    let y = str_chars(b.as_str());
    let mut i: usize = 0;
    while i < x.len()
        invariant
            0 <= i <= x@.len(),
            x@ == a@,
            y@ == b@,
            i <= y@.len(),
            lex_lt_from(a@, b@, 0) == lex_lt_from(a@, b@, i as int),
        decreases x@.len() - i,
    {
        if i >= y.len() {
            return false;
        }
        if x[i] != y[i] {
            return (x[i] as u32) < (y[i] as u32);
        }
        i = i + 1;
    }
    i < y.len()
}

fn axis_id_lt(a: &AxisRecord, b: &AxisRecord) -> (r: bool)
    ensures
        r == id_lt(a.id, b.id),
{
    match (&a.id, &b.id) {
        (None, Some(_)) => true,
        (Some(x), Some(y)) => text_lt(x, y),
        _ => false,
    }
}

/// Positions of the x, y and z axes among three: a stable sort by identifier.
pub open spec fn axis_order(axes: Seq<AxisRecord>) -> (int, int, int) {
    let s1 = if id_lt(axes[1].id, axes[0].id) {
        (1int, 0int, 2int)
    } else {
        (0int, 1int, 2int)
    };
    let s2 = if id_lt(axes[s1.2].id, axes[s1.1].id) {
        (s1.0, s1.2, s1.1)
    } else {
        s1
    };
    if id_lt(axes[s2.1].id, axes[s2.0].id) {
        (s2.1, s2.0, s2.2)
    } else {
        s2
    }
}

/// Why an axis record cannot be built, if it cannot.
pub open spec fn axis_error(rec: AxisRecord, links: Option<Map<u32, Source>>) -> Option<
    DefinitionError,
> {
    if rec.labels@.len() == 0 {
        match binary_axis(rec, links) {
            Err(e) => Some(e),
            Ok(_) => None,
        }
    } else {
        None
    }
}

/// Why a table record cannot be built, if it cannot: memberships, the
/// number of axes, then the z, y and x axes in that order.
pub open spec fn table_error(rec: TableRecord, links: Option<Map<u32, Source>>) -> Option<
    DefinitionError,
> {
    match table_categories(rec.categories@) {
        Err(e) => Some(e),
        Ok(_) => if rec.axes@.len() != 3 {
            Some(DefinitionError::WrongAxisCount { count: rec.axes@.len() as usize })
        } else {
            let o = axis_order(rec.axes@);
            match axis_error(rec.axes@[o.2], links) {
                Some(e) => Some(e),
                None => match axis_error(rec.axes@[o.1], links) {
                    Some(e) => Some(e),
                    None => axis_error(rec.axes@[o.0], links),
                },
            }
        },
    }
}

/// The table built from `rec`.
pub open spec fn table_matches(t: Table, rec: TableRecord, links: Option<Map<u32, Source>>) -> bool {
    let o = axis_order(rec.axes@);
    &&& t.name@ == text_or_empty(rec.title)
    &&& t.description@ == text_or_empty(rec.description)
    &&& table_categories(rec.categories@) == Ok::<Seq<u32>, DefinitionError>(t.categories@)
    &&& axis_matches(t.x, rec.axes@[o.0], links)
    &&& axis_matches(t.y, rec.axes@[o.1], links)
    &&& axis_matches(t.z, rec.axes@[o.2], links)
}

impl Table {
    /// Builds a table from its record: its three axes are ordered by
    /// identifier and become columns (x), rows (y) and values (z).
    pub fn from_xdf(xdf: TableRecord, linked: Option<&HashMap<u32, LinkedData>>) -> (r: Result<
        Table,
        DefinitionError,
    >)
        ensures
            ({
                let links = match linked {
                    Some(m) => Some(links_view(m@)),
                    None => None,
                };
                match table_error(xdf, links) {
                    Some(e) => r == Err::<Table, DefinitionError>(e),
                    None => r is Ok && table_matches(r->Ok_0, xdf, links),
                }
            }),
    {
        let ghost links = match linked {
            Some(m) => Some(links_view(m@)),
            None => None,
        };
        let ghost rec = xdf;
        let categories = match member_categories(&xdf.categories) {
            Ok(c) => c,
            Err(e) => {
                return Err(e);
            },
        };
        let mut axes = xdf.axes;
        if axes.len() != 3 {
            return Err(DefinitionError::WrongAxisCount { count: axes.len() });
        }
        let ghost v = axes@;
        let mut o: (usize, usize, usize) = if axis_id_lt(&axes[1], &axes[0]) {
            (1, 0, 2)
        } else {
            (0, 1, 2)
        };
        if axis_id_lt(&axes[o.2], &axes[o.1]) {
            o = (o.0, o.2, o.1);
        }
        if axis_id_lt(&axes[o.1], &axes[o.0]) {
            o = (o.1, o.0, o.2);
        }
        assert(o == (axis_order(v).0 as usize, axis_order(v).1 as usize, axis_order(v).2 as usize));
        let a2 = axes.pop().unwrap();
        let a1 = axes.pop().unwrap();
        let a0 = axes.pop().unwrap();
        assert(a0 == v[0] && a1 == v[1] && a2 == v[2]);
        let (ax, ay, az) = if o.0 == 0 && o.1 == 1 && o.2 == 2 {
            (a0, a1, a2)
        } else if o.0 == 0 && o.1 == 2 && o.2 == 1 {
            (a0, a2, a1)
        } else if o.0 == 1 && o.1 == 0 && o.2 == 2 {
            (a1, a0, a2)
        } else if o.0 == 1 && o.1 == 2 && o.2 == 0 {
            (a1, a2, a0)
        } else if o.0 == 2 && o.1 == 0 && o.2 == 1 {
            (a2, a0, a1)
        } else {
            (a2, a1, a0)
        };
        assert(ax == v[o.0 as int] && ay == v[o.1 as int] && az == v[o.2 as int]);
        let z = match Axis::from_xdf(az, linked) {
            Ok(a) => a,
            Err(e) => {
                return Err(e);
            },
        };
        let y = match Axis::from_xdf(ay, linked) {
            Ok(a) => a,
            Err(e) => {
                return Err(e);
            },
        };
        let x = match Axis::from_xdf(ax, linked) {
            Ok(a) => a,
            Err(e) => {
                return Err(e);
            },
        };
        Ok(
            Table {
                name: text_or_default(xdf.title),
                description: text_or_default(xdf.description),
                x,
                y,
                z,
                categories,
            },
        )
    }
}

/// The identifier names the value axis.
pub open spec fn is_value_axis(a: AxisRecord) -> bool {
    a.id is Some && (a.id->Some_0@ == seq!['z'] || a.id->Some_0@ == seq!['Z'])
}

/// What a value axis offers to linking axes: its storage and conversion.
pub open spec fn offered(a: AxisRecord) -> Option<Source> {
    if is_value_axis(a) && a.embedded is Some && a.math is Some {
        Some(
            (
                a.embedded->Some_0,
                opt_text(a.math->Some_0.expression),
                texts(a.math->Some_0.vars@),
            ),
        )
    } else {
        None
    }
}

pub open spec fn offers_from_axes(m: Map<u32, Source>, uid: u32, axes: Seq<AxisRecord>) -> Map<
    u32,
    Source,
>
    decreases axes.len(),
{
    if axes.len() == 0 {
        m
    } else {
        let p = offers_from_axes(m, uid, axes.drop_last());
        match offered(axes.last()) {
            Some(src) => p.insert(uid, src),
            None => p,
        }
    }
}

/// Table identifier to what that table's value axis offers, over all
/// tables; a later entry for an identifier wins.
pub open spec fn link_map(tables: Seq<TableRecord>) -> Map<u32, Source>
    decreases tables.len(),
{
    if tables.len() == 0 {
        Map::empty()
    } else {
        let m = link_map(tables.drop_last());
        let t = tables.last();
        match t.uid {
            Some(u) => offers_from_axes(m, u, t.axes@),
            None => m,
        }
    }
}

/// Records the value axes of all tables that other axes may link to.
pub fn build_links(tables: &Vec<TableRecord>) -> (r: HashMap<u32, LinkedData>)
    ensures
        links_view(r@) == link_map(tables@),
{
    broadcast use vstd::std_specs::hash::group_hash_axioms;

    let mut links: HashMap<u32, LinkedData> = HashMap::new();
    let mut i: usize = 0;
    assert(links_view(links@) =~= link_map(tables@.subrange(0, 0)));
    while i < tables.len()
        invariant
            0 <= i <= tables@.len(),
            links_view(links@) == link_map(tables@.subrange(0, i as int)),
        decreases tables@.len() - i,
    {
        let ghost pre = tables@.subrange(0, i + 1);
        assert(pre.drop_last() == tables@.subrange(0, i as int));
        assert(pre.last() == tables@[i as int]);
        let t = &tables[i];
        if let Some(uid) = t.uid {
            let ghost m0 = links_view(links@);
            let mut k: usize = 0;
            assert(t.axes@.subrange(0, 0) == Seq::<AxisRecord>::empty());
            while k < t.axes.len()
                invariant
                    0 <= k <= t.axes@.len(),
                    links_view(links@) == offers_from_axes(m0, uid, t.axes@.subrange(0, k as int)),
                decreases t.axes@.len() - k,
            {
                let ghost apre = t.axes@.subrange(0, k + 1);
                assert(apre.drop_last() == t.axes@.subrange(0, k as int));
                assert(apre.last() == t.axes@[k as int]);
                let a = &t.axes[k];
                let z = match &a.id {
                    Some(id) => {
                        let c = str_chars(id.as_str());
                        c.len() == 1 && (c[0] == 'z' || c[0] == 'Z')
                    },
                    None => false,
                };
                proof {
                    if a.id is Some {
                        let idv = a.id->Some_0@;
                        if idv.len() == 1 {
                            assert(idv == seq![idv[0]]);
                        }
                    }
                }
                if z {
                    if let (Some(e), Some(m)) = (a.embedded, &a.math) {
                        let entry = LinkedData {
                            embedded: e,
                            expression: copy_text(&m.expression),
                            vars: copy_texts(&m.vars),
                        };
                        let ghost before = links@;
                        links.insert(uid, entry);
                        assert(links_view(links@) =~= links_view(before).insert(uid, entry@));
                    }
                }
                k = k + 1;
            }
            assert(t.axes@.subrange(0, t.axes@.len() as int) == t.axes@);
        }
        i = i + 1;
    }
    assert(tables@.subrange(0, tables@.len() as int) == tables@);
    links
}

/// Positions of the records that could be built, in order.
pub open spec fn built_indices(errs: Seq<Option<DefinitionError>>) -> Seq<int>
    decreases errs.len(),
{
    if errs.len() == 0 {
        Seq::empty()
    } else {
        let p = built_indices(errs.drop_last());
        if errs.last() is None {
            p.push(errs.len() - 1)
        } else {
            p
        }
    }
}

/// Positions of the records that could not be built, with the reasons, in order.
pub open spec fn failures(errs: Seq<Option<DefinitionError>>) -> Seq<(int, DefinitionError)>
    decreases errs.len(),
{
    if errs.len() == 0 {
        Seq::empty()
    } else {
        let p = failures(errs.drop_last());
        match errs.last() {
            Some(e) => p.push((errs.len() - 1, e)),
            None => p,
        }
    }
}

pub open spec fn scalar_outcomes(cs: Seq<ConstantRecord>) -> Seq<Option<DefinitionError>> {
    Seq::new(cs.len(), |i: int| scalar_error(cs[i]))
}

pub open spec fn table_outcomes(ts: Seq<TableRecord>, links: Map<u32, Source>) -> Seq<
    Option<DefinitionError>,
> {
    Seq::new(ts.len(), |i: int| table_error(ts[i], Some(links)))
}

pub open spec fn errors_view(v: Seq<(usize, DefinitionError)>) -> Seq<(int, DefinitionError)> {
    v.map_values(|p: (usize, DefinitionError)| (p.0 as int, p.1))
}

impl BinaryDefinition {
    /// Assembles a definition. Links are resolved against the value axes of
    /// all tables, collected before any table is built, so a table may link
    /// to one that comes later. A scalar or table that cannot be built is
    /// left out and its position and error are recorded; only a missing
    /// header fails the whole definition.
    pub fn from_xdf(xdf: DefinitionRecord) -> (r: Result<BinaryDefinition, DefinitionError>)
        ensures
            xdf.header is None ==> r == Err::<BinaryDefinition, DefinitionError>(
                DefinitionError::MissingHeader,
            ),
            xdf.header is Some ==> r is Ok && ({
                let d = r->Ok_0;
                let h = xdf.header->Some_0;
                let so = scalar_outcomes(xdf.constants@);
                let bs = built_indices(so);
                let to = table_outcomes(xdf.tables@, link_map(xdf.tables@));
                let bt = built_indices(to);
                &&& d.info.name@ == text_or_empty(h.title)
                &&& d.info.description@ == text_or_empty(h.description)
                &&& names_view(d.info.categories@) == category_map(h.categories@)
                &&& d.scalars@.len() == bs.len()
                &&& forall|i: int|
                    0 <= i < d.scalars@.len() ==> scalar_matches(
                        #[trigger] d.scalars@[i],
                        xdf.constants@[bs[i]],
                    )
                &&& errors_view(d.scalar_errors@) == failures(so)
                &&& d.tables@.len() == bt.len()
                &&& forall|i: int|
                    0 <= i < d.tables@.len() ==> table_matches(
                        #[trigger] d.tables@[i],
                        xdf.tables@[bt[i]],
                        Some(link_map(xdf.tables@)),
                    )
                &&& errors_view(d.table_errors@) == failures(to)
            }),
    {
        let ghost rec = xdf;
        let DefinitionRecord { header, constants, tables: recs } = xdf;
        assert(header == rec.header && constants == rec.constants && recs == rec.tables);
        let links = build_links(&recs);
        let header = match header {
            Some(h) => h,
            None => {
                return Err(DefinitionError::MissingHeader);
            },
        };
        let info = DefinitionInfo::from_xdf(header);
        let ghost so = scalar_outcomes(rec.constants@);
        let mut scalars: Vec<Scalar> = Vec::new();
        let mut scalar_errors: Vec<(usize, DefinitionError)> = Vec::new();
        let mut constants = constants;
        let n = constants.len();
        let mut i: usize = 0;
        assert(so.subrange(0, 0) == Seq::<Option<DefinitionError>>::empty());
        assert(constants@ == rec.constants@.skip(0));
        while i < n
            invariant
                0 <= i <= n,
                n == rec.constants@.len(),
                so == scalar_outcomes(rec.constants@),
                constants@ == rec.constants@.skip(i as int),
                scalars@.len() == built_indices(so.subrange(0, i as int)).len(),
                forall|k: int|
                    0 <= k < scalars@.len() ==> scalar_matches(
                        #[trigger] scalars@[k],
                        rec.constants@[built_indices(so.subrange(0, i as int))[k]],
                    ),
                errors_view(scalar_errors@) == failures(so.subrange(0, i as int)),
            decreases n - i,
        {
            let ghost pre = so.subrange(0, i + 1);
            assert(pre.drop_last() == so.subrange(0, i as int));
            assert(pre.last() == scalar_error(rec.constants@[i as int]));
            let c = constants.remove(0);
            assert(c == rec.constants@[i as int]);
            assert(constants@ == rec.constants@.skip(i + 1));
            let ghost ev = errors_view(scalar_errors@);
            match Scalar::from_xdf(c) {
                Ok(sc) => {
                    scalars.push(sc);
                },
                Err(e) => {
                    scalar_errors.push((i, e));
                    assert(errors_view(scalar_errors@) == ev.push((i as int, e)));
                },
            }
            i = i + 1;
        }
        assert(so.subrange(0, n as int) == so);
        let ghost lm = link_map(rec.tables@);
        let ghost to = table_outcomes(rec.tables@, lm);
        let mut tables: Vec<Table> = Vec::new();
        let mut table_errors: Vec<(usize, DefinitionError)> = Vec::new();
        let mut recs = recs;
        let n = recs.len();
        let mut i: usize = 0;
        assert(to.subrange(0, 0) == Seq::<Option<DefinitionError>>::empty());
        assert(recs@ == rec.tables@.skip(0));
        while i < n
            invariant
                0 <= i <= n,
                n == rec.tables@.len(),
                recs@ == rec.tables@.skip(i as int),
                links_view(links@) == lm,
                lm == link_map(rec.tables@),
                to == table_outcomes(rec.tables@, lm),
                tables@.len() == built_indices(to.subrange(0, i as int)).len(),
                forall|k: int|
                    0 <= k < tables@.len() ==> table_matches(
                        #[trigger] tables@[k],
                        rec.tables@[built_indices(to.subrange(0, i as int))[k]],
                        Some(lm),
                    ),
                errors_view(table_errors@) == failures(to.subrange(0, i as int)),
            decreases n - i,
        {
            let ghost pre = to.subrange(0, i + 1);
            assert(pre.drop_last() == to.subrange(0, i as int));
            assert(pre.last() == table_error(rec.tables@[i as int], Some(lm)));
            let t = recs.remove(0);
            assert(t == rec.tables@[i as int]);
            assert(recs@ == rec.tables@.skip(i + 1));
            let ghost ev = errors_view(table_errors@);
            match Table::from_xdf(t, Some(&links)) {
                Ok(tb) => {
                    tables.push(tb);
                },
                Err(e) => {
                    table_errors.push((i, e));
                    assert(errors_view(table_errors@) == ev.push((i as int, e)));
                },
            }
            i = i + 1;
        }
        assert(to.subrange(0, n as int) == to);
        Ok(BinaryDefinition { info, scalars, tables, scalar_errors, table_errors })
    }
}

/// Offers under another identifier leave the entry for `u` alone, and so
/// do axes that offer nothing.
proof fn lemma_offers_keep(m: Map<u32, Source>, uid: u32, axes: Seq<AxisRecord>, u: u32)
    requires
        uid != u || forall|j: int| 0 <= j < axes.len() ==> #[trigger] offered(axes[j]) is None,
    ensures
        offers_from_axes(m, uid, axes).contains_key(u) == m.contains_key(u),
        m.contains_key(u) ==> offers_from_axes(m, uid, axes)[u] == m[u],
    decreases axes.len(),
{
    if axes.len() > 0 {
        let p = axes.drop_last();
        assert forall|j: int| 0 <= j < p.len() implies p[j] == axes[j] by {}
        lemma_offers_keep(m, uid, p, u);
        assert(axes.last() == axes[axes.len() - 1]);
    }
}

/// The last offering axis of a table sets the entry for its identifier.
proof fn lemma_offers_set(m: Map<u32, Source>, uid: u32, axes: Seq<AxisRecord>, j: int)
    requires
        0 <= j < axes.len(),
        offered(axes[j]) is Some,
        forall|j2: int| j < j2 < axes.len() ==> #[trigger] offered(axes[j2]) is None,
    ensures
        offers_from_axes(m, uid, axes).contains_key(uid),
        offers_from_axes(m, uid, axes)[uid] == offered(axes[j])->Some_0,
    decreases axes.len(),
{
    let p = axes.drop_last();
    assert(axes.last() == axes[axes.len() - 1]);
    if j < axes.len() - 1 {
        assert forall|j2: int| j < j2 < p.len() implies #[trigger] offered(p[j2]) is None by {
            assert(p[j2] == axes[j2]);
        }
        assert(p[j] == axes[j]);
        lemma_offers_set(m, uid, p, j);
    }
}

/// Link resolution: when table `tables[k]`, with identifier `u`, has the one
/// value axis `j` that offers storage under `u`, the link map gives that
/// axis's storage and conversion under `u`, whether the table comes before
/// or after the tables that link to it; an axis record that links to `u`
/// takes exactly that source.
pub proof fn lemma_link_resolution(tables: Seq<TableRecord>, k: int, j: int, u: u32, a: AxisRecord)
    requires
        0 <= k < tables.len(),
        tables[k].uid == Some(u),
        0 <= j < tables[k].axes@.len(),
        offered(tables[k].axes@[j]) is Some,
        forall|k2: int, j2: int|
            0 <= k2 < tables.len() && tables[k2].uid == Some(u) && 0 <= j2 < tables[k2].axes@.len()
                && (k2 != k || j2 != j) ==> #[trigger] offered(tables[k2].axes@[j2]) is None,
        a.link == Some(u),
    ensures
        link_map(tables).contains_key(u),
        link_map(tables)[u] == offered(tables[k].axes@[j])->Some_0,
        axis_source(a, Some(link_map(tables))) == Ok::<Source, DefinitionError>(
            offered(tables[k].axes@[j])->Some_0,
        ),
    decreases tables.len(),
{
    let n = tables.len();
    let p = tables.drop_last();
    let t = tables.last();
    assert(t == tables[n - 1]);
    if k < n - 1 {
        assert forall|k2: int, j2: int|
            0 <= k2 < p.len() && p[k2].uid == Some(u) && 0 <= j2 < p[k2].axes@.len() && (k2 != k
                || j2 != j) implies #[trigger] offered(p[k2].axes@[j2]) is None by {
            assert(p[k2] == tables[k2]);
        }
        assert(p[k] == tables[k]);
        lemma_link_resolution(p, k, j, u, a);
        match t.uid {
            Some(v) => {
                if v == u {
                    assert forall|j2: int| 0 <= j2 < t.axes@.len() implies #[trigger] offered(
                        t.axes@[j2],
                    ) is None by {
                        assert(offered(tables[n - 1].axes@[j2]) is None);
                    }
                }
                lemma_offers_keep(link_map(p), v, t.axes@, u);
            },
            None => {},
        }
    } else {
        assert forall|j2: int| j < j2 < t.axes@.len() implies #[trigger] offered(
            t.axes@[j2],
        ) is None by {
            assert(offered(tables[k].axes@[j2]) is None);
        }
        lemma_offers_set(link_map(p), u, t.axes@, j);
    }
}

/// Axis count: a stored axis with its own rows and columns and no explicit
/// count has rows times columns elements; an explicit count is accepted
/// only when it equals that product.
pub proof fn lemma_axis_count(rec: AxisRecord, links: Option<Map<u32, Source>>)
    requires
        rec.link is None,
        rec.embedded is Some,
        rec.embedded->Some_0.row_count is Some,
        rec.embedded->Some_0.col_count is Some,
        binary_axis(rec, links) is Ok,
    ensures
        binary_axis(rec, links)->Ok_0.2 == rec.embedded->Some_0.row_count->Some_0 as int
            * rec.embedded->Some_0.col_count->Some_0 as int,
{
}

} // verus!
