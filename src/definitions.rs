//! Scalars, axes and tables located in a binary image, and how their values
//! are read and written through the expression engine and the cell codec.
use vstd::prelude::*;

use std::collections::HashMap;

use crate::codec::{
    lemma_pow256_pos, le_bytes, le_value, pow256, read_cell,
    read_spec, write_cell, written, CellError, MAX_CELL,
};
use crate::eval::{
    eval, eval_reverse, eval_reverse_spec, eval_spec, eval_tree, exec_actions, parse,
    parse_spec, plan,
};
use crate::codec::lemma_le_bytes_len;
use crate::rational::{q_abs, round_half_away, Frac, Rational};
use crate::ast::Atom;
use crate::eval::{checked_q_add, combine};
use crate::token::{pow10, Ops};
use crate::token::ExprError;
use crate::records::DefinitionError;

verus! {

/// Why a value could not be read or written.
#[derive(Clone, Copy, Debug, PartialEq, Eq, Structural)]
pub enum ValueError {
    /// The cell could not be reached.
    Cell(CellError),
    /// The expression could not be evaluated or solved.
    Expr(ExprError),
    /// The axis holds values fixed by the definition, not stored in the image.
    NotWriteable,
    /// The number of values given differs from the axis length.
    WrongLength { expected: usize, given: usize },
    /// The solved value, rounded, is negative or too large for the cell.
    OutOfRange,
}

/// Definition metadata.
#[derive(Debug, Clone)]
pub struct DefinitionInfo {
    pub name: String,
    pub description: String,
    /// Category index to display name.
    pub categories: HashMap<u32, String>,
}

/// A single editable value, stored in one cell.
#[derive(Debug, Clone)]
pub struct Scalar {
    pub name: String,
    pub description: String,
    /// Offset of the cell from the start of the image.
    pub address: u64,
    /// Width of the cell in bytes (at most four).
    pub size: usize,
    /// Maps the stored integer to the physical value.
    pub expression: String,
    pub categories: Vec<u32>,
}

/// Where the values of an axis come from.
#[derive(Debug, Clone)]
pub enum AxisData {
    /// Values fixed in the definition, not stored in the image.
    User(Vec<Rational>),
    /// Values stored in consecutive cells of the image.
    Binary {
        address: u64,
        /// Width of one cell in bytes.
        element_size: usize,
        /// Number of cells: rows times columns.
        count: usize,
        /// Maps a stored integer to the physical value.
        expression: String,
    },
}

/// One axis of a table.
#[derive(Debug, Clone)]
pub struct Axis {
    pub units: String,
    pub data: AxisData,
}

/// A two-dimensional map: `x` labels the columns, `y` the rows, `z` holds
/// the values row by row.
#[derive(Debug, Clone)]
pub struct Table {
    pub name: String,
    pub description: String,
    pub x: Axis,
    pub y: Axis,
    pub z: Axis,
    pub categories: Vec<u32>,
}

/// A whole definition: metadata, the scalars and tables that could be
/// built, and the position and reason of each record that could not.
#[derive(Debug, Clone)]
pub struct BinaryDefinition {
    pub info: DefinitionInfo,
    pub scalars: Vec<Scalar>,
    pub tables: Vec<Table>,
    pub scalar_errors: Vec<(usize, DefinitionError)>,
    pub table_errors: Vec<(usize, DefinitionError)>,
}

/// The rounded value fits a cell of `size` bytes.
pub open spec fn fits_cell(i: int, size: usize) -> bool {
    0 <= i < pow256(size as nat)
}

/// The stored integer for a solved value: rounded to the nearest integer,
/// halves away from zero, when that fits a cell of `size` bytes.
pub fn raw_in_cell(r: &Rational, size: usize) -> (raw: Option<u32>)
    requires
        size <= MAX_CELL,
    ensures
        raw == (if fits_cell(round_half_away(r@), size) {
            Some(round_half_away(r@) as u32)
        } else {
            None::<u32>
        }),
{
    let i = r.round();
    let limit: i128 = if size == 0 {
        1
    } else if size == 1 {
        0x100
    } else if size == 2 {
        0x1_0000
    } else if size == 3 {
        0x100_0000
    } else {
        0x1_0000_0000
    };
    assert(limit == pow256(size as nat)) by {
        reveal_with_fuel(pow256, 5);
    }
    if 0 <= i && i < limit {
        Some(i as u32)
    } else {
        None
    }
}

/// The physical value of the cell at `address`, or why there is none.
pub open spec fn cell_value(image: Seq<u8>, address: u64, size: usize, expr: Seq<char>) -> Result<
    Frac,
    ValueError,
> {
    match read_spec(image, address, size) {
        Err(e) => Err(ValueError::Cell(e)),
        Ok(raw) => match eval_spec(expr, raw as int) {
            Err(e) => Err(ValueError::Expr(e)),
            Ok(v) => Ok(v),
        },
    }
}

/// The stored integer that a physical value becomes in a cell of `size`
/// bytes, or why there is none.
pub open spec fn raw_for(expr: Seq<char>, val: Frac, size: usize) -> Result<u32, ValueError> {
    match eval_reverse_spec(expr, val) {
        Err(e) => Err(ValueError::Expr(e)),
        Ok(r) => if fits_cell(round_half_away(r), size) {
            Ok(round_half_away(r) as u32)
        } else {
            Err(ValueError::OutOfRange)
        },
    }
}

impl Scalar {
    /// Reads the cell and evaluates the expression on it.
    pub fn read(&self, image: &[u8]) -> (r: Result<Rational, ValueError>)
        ensures
            match cell_value(image@, self.address, self.size, self.expression@) {
                Ok(v) => r is Ok && r->Ok_0@ == v,
                Err(e) => r == Err::<Rational, ValueError>(e),
            },
    {
        let raw = match read_cell(image, self.address, self.size) {
            Ok(v) => v,
            Err(e) => {
                return Err(ValueError::Cell(e));
            },
        };
        match eval(self.expression.as_str(), raw) {
            Ok(v) => Ok(v),
            Err(e) => Err(ValueError::Expr(e)),
        }
    }

    /// Solves the expression for `val`, rounds, and stores the result. When
    /// solving fails, or the result does not fit the cell, nothing is written.
    pub fn write(&self, image: &mut Vec<u8>, val: Rational) -> (r: Result<(), ValueError>)
        ensures
            self.size > MAX_CELL ==> r == Err::<(), ValueError>(
                ValueError::Cell(CellError::TooWide { size: self.size }),
            ) && final(image)@ == old(image)@,
            self.size <= MAX_CELL ==> match raw_for(self.expression@, val@, self.size) {
                Err(e) => r == Err::<(), ValueError>(e) && final(image)@ == old(image)@,
                Ok(raw) => match read_spec(old(image)@, self.address, self.size) {
                    Err(e) => r == Err::<(), ValueError>(ValueError::Cell(e)) && final(image)@
                        == old(image)@,
                    Ok(_) => r is Ok && final(image)@ == written(
                        old(image)@,
                        self.address,
                        self.size,
                        raw,
                    ),
                },
            },
    {
        if self.size > MAX_CELL {
            return Err(ValueError::Cell(CellError::TooWide { size: self.size }));
        }
        let solved = match eval_reverse(self.expression.as_str(), val) {
            Ok(v) => v,
            Err(e) => {
                return Err(ValueError::Expr(e));
            },
        };
        let raw = match raw_in_cell(&solved, self.size) {
            Some(v) => v,
            None => {
                return Err(ValueError::OutOfRange);
            },
        };
        match write_cell(image, self.address, self.size, raw) {
            Ok(()) => Ok(()),
            Err(e) => Err(ValueError::Cell(e)),
        }
    }
}

/// The largest stored integer of a cell: every bit set.
pub open spec fn max_raw(size: usize) -> u32 {
    if size >= 4 {
        u32::MAX
    } else {
        (pow256(size as nat) - 1) as u32
    }
}

/// The first error among `rs`, or all their values.
pub open spec fn collect<T, E>(rs: Seq<Result<T, E>>) -> Result<Seq<T>, E>
    decreases rs.len(),
{
    if rs.len() == 0 {
        Ok(Seq::empty())
    } else {
        match rs[0] {
            Err(e) => Err(e),
            Ok(v) => match collect(rs.drop_first()) {
                Err(e) => Err(e),
                Ok(rest) => Ok(seq![v] + rest),
            },
        }
    }
}

proof fn lemma_collect_step<T, E>(rs: Seq<Result<T, E>>, i: int, done: Seq<T>)
    requires
        0 <= i < rs.len(),
        rs[i] is Ok,
        collect(rs) == (match collect(rs.skip(i)) {
            Err(e) => Err(e),
            Ok(rest) => Ok(done + rest),
        }),
    ensures
        collect(rs) == (match collect(rs.skip(i + 1)) {
            Err(e) => Err(e),
            Ok(rest) => Ok(done.push(rs[i]->Ok_0) + rest),
        }),
{
    let t = rs.skip(i);
    assert(t[0] == rs[i]);
    assert(t.drop_first() == rs.skip(i + 1));
    match collect(rs.skip(i + 1)) {
        Err(e) => {},
        Ok(rest) => {
            assert(done + (seq![rs[i]->Ok_0] + rest) == done.push(rs[i]->Ok_0) + rest);
        },
    }
}

proof fn lemma_collect_len<T, E>(rs: Seq<Result<T, E>>)
    ensures
        collect(rs) is Ok ==> collect(rs)->Ok_0.len() == rs.len(),
    decreases rs.len(),
{
    if rs.len() > 0 {
        lemma_collect_len(rs.drop_first());
    }
}

/// The stored integer of cell `k` of a run of cells starting at `address`.
pub open spec fn cell_raw(image: Seq<u8>, address: u64, size: usize, k: int) -> nat {
    le_value(image.subrange(address + k * size, address + k * size + size))
}

/// The run of `count` cells of `size` bytes at `address` lies in the image.
pub open spec fn run_in_bounds(len: nat, address: u64, size: usize, count: usize) -> bool {
    address + count * size <= len
}

/// The outcome of evaluating each cell of a run.
pub open spec fn cell_results(
    image: Seq<u8>,
    address: u64,
    size: usize,
    count: usize,
    expr: Seq<char>,
) -> Seq<Result<Frac, ExprError>> {
    Seq::new(count as nat, |k: int| eval_spec(expr, cell_raw(image, address, size, k) as int))
}

/// The values of an axis, or why they cannot be read.
pub open spec fn axis_values(data: AxisData, image: Seq<u8>) -> Result<Seq<Frac>, ValueError> {
    match data {
        AxisData::User(v) => Ok(v@.map_values(|r: Rational| r@)),
        AxisData::Binary { address, element_size, count, expression } => {
            if element_size > MAX_CELL {
                Err(ValueError::Cell(CellError::TooWide { size: element_size }))
            } else if !run_in_bounds(image.len(), address, element_size, count) {
                Err(ValueError::Cell(CellError::OutOfBounds { address, size: element_size }))
            } else {
                match collect(cell_results(image, address, element_size, count, expression@)) {
                    Err(e) => Err(ValueError::Expr(e)),
                    Ok(v) => Ok(v),
                }
            }
        },
    }
}

fn region_fits(len: usize, address: u64, size: usize, count: usize) -> (r: bool)
    requires
        size <= MAX_CELL,
    ensures
        r == run_in_bounds(len as nat, address, size, count),
{
    assert((count as u128) * (size as u128) <= 4 * 0xffff_ffff_ffff_ffff) by (nonlinear_arith)
        requires count <= 0xffff_ffff_ffff_ffff, size <= 4;
    let end: u128 = address as u128 + (count as u128) * (size as u128);
    end <= len as u128
}

impl Axis {
    /// The number of values.
    pub fn len(&self) -> (r: usize)
        ensures
            r == match self.data {
                AxisData::User(v) => v@.len(),
                AxisData::Binary { count, .. } => count as nat,
            },
    {
        match &self.data {
            AxisData::User(v) => v.len(),
            AxisData::Binary { count, .. } => *count,
        }
    }

    /// Whether the values are stored in the image.
    pub fn writeable(&self) -> (r: bool)
        ensures
            r == self.data is Binary,
    {
        match self.data {
            AxisData::User(_) => false,
            AxisData::Binary { .. } => true,
        }
    }

    /// The values at the raw integers `0` and all bits set, for a stored
    /// axis; not ordered when the expression decreases.
    pub fn range(&self) -> (r: Option<Result<(Rational, Rational), ExprError>>)
        ensures
            match self.data {
                AxisData::User(_) => r is None,
                AxisData::Binary { element_size, expression, .. } => r is Some && match (
                    eval_spec(expression@, 0),
                    eval_spec(expression@, max_raw(element_size) as int),
                ) {
                    (Ok(lo), Ok(hi)) => r->Some_0 is Ok && r->Some_0->Ok_0.0@ == lo
                        && r->Some_0->Ok_0.1@ == hi,
                    (Err(e), _) => r->Some_0 == Err::<(Rational, Rational), ExprError>(e),
                    (Ok(_), Err(e)) => r->Some_0 == Err::<(Rational, Rational), ExprError>(e),
                },
            },
    {
        match &self.data {
            AxisData::User(_) => None,
            AxisData::Binary { element_size, expression, .. } => {
                let mut top: u32 = 0xffff_ffff;
                if *element_size < 4 {
                    let mut p: u32 = 1;
                    let mut k: usize = 0;
                    while k < *element_size
                        invariant
                            0 <= k <= *element_size < 4,
                            p == pow256(k as nat),
                        decreases *element_size - k,
                    {
                        proof {
                            reveal_with_fuel(pow256, 4);
                            assert(k < 3 ==> pow256(k as nat) <= 65536);
                        }
                        p = p * 256;
                        k = k + 1;
                    }
                    proof {
                        lemma_pow256_pos(k as nat);
                    }
                    top = p - 1;
                }
                let lo = match eval(expression.as_str(), 0) {
                    Ok(v) => v,
                    Err(e) => {
                        return Some(Err(e));
                    },
                };
                let hi = match eval(expression.as_str(), top) {
                    Ok(v) => v,
                    Err(e) => {
                        return Some(Err(e));
                    },
                };
                Some(Ok((lo, hi)))
            },
        }
    }
}

pub open spec fn rationals_view(v: Seq<Rational>) -> Seq<Frac> {
    v.map_values(|r: Rational| r@)
}

/// The stored integers for `vals` on a stored axis, or why they cannot be written.
pub open spec fn axis_raws(data: AxisData, image_len: nat, vals: Seq<Frac>) -> Result<Seq<u32>, ValueError> {
    match data {
        AxisData::User(_) => Err(ValueError::NotWriteable),
        AxisData::Binary { address, element_size, count, expression } => {
            if vals.len() != count {
                Err(ValueError::WrongLength { expected: count, given: vals.len() as usize })
            } else if element_size > MAX_CELL {
                Err(ValueError::Cell(CellError::TooWide { size: element_size }))
            } else if !run_in_bounds(image_len, address, element_size, count) {
                Err(ValueError::Cell(CellError::OutOfBounds { address, size: element_size }))
            } else {
                collect(raw_results(expression@, vals, element_size))
            }
        },
    }
}

/// `after` is `before` with cell `k` of the run at `address` holding `raws[k]`
/// for every `k` below `n`, and every other byte unchanged.
pub open spec fn cells_written(
    before: Seq<u8>,
    after: Seq<u8>,
    address: u64,
    size: usize,
    raws: Seq<u32>,
    n: int,
) -> bool {
    &&& after.len() == before.len()
    &&& forall|k: int|
        0 <= k < n ==> #[trigger] after.subrange(address + k * size, address + k * size + size)
            == le_bytes(raws[k] as nat, size as nat)
    &&& forall|j: int|
        0 <= j < before.len() && !(address <= j < address + n * size) ==> #[trigger] after[j]
            == before[j]
}

proof fn lemma_written_index(img: Seq<u8>, a: u64, s: usize, raw: u32, j: int)
    requires
        a + s <= img.len(),
        0 <= j < img.len(),
    ensures
        written(img, a, s, raw).len() == img.len(),
        written(img, a, s, raw)[j] == if a <= j < a + s {
            le_bytes(raw as nat, s as nat)[j - a]
        } else {
            img[j]
        },
{
    lemma_le_bytes_len(raw as nat, s as nat);
}

fn copy_rationals(v: &Vec<Rational>) -> (r: Vec<Rational>)
    ensures
        rationals_view(r@) == rationals_view(v@),
{
    let mut out: Vec<Rational> = Vec::new();
    let mut i: usize = 0;
    while i < v.len()
        invariant
            0 <= i <= v@.len(),
            out@ == v@.subrange(0, i as int),
        decreases v@.len() - i,
    {
        out.push(v[i]);
        i = i + 1;
        assert(out@ == v@.subrange(0, i as int));
    }
    assert(v@.subrange(0, v@.len() as int) == v@);
    out
}

impl Axis {
    /// The values of the axis: the fixed ones, or each stored cell evaluated
    /// through the expression.
    pub fn read(&self, image: &[u8]) -> (r: Result<Vec<Rational>, ValueError>)
        ensures
            match axis_values(self.data, image@) {
                Ok(v) => r is Ok && rationals_view(r->Ok_0@) == v,
                Err(e) => r == Err::<Vec<Rational>, ValueError>(e),
            },
    {
        match &self.data {
            AxisData::User(items) => Ok(copy_rationals(items)),
            AxisData::Binary { address, element_size, count, expression } => {
                let address = *address;
                let size = *element_size;
                let count = *count;
                if size > MAX_CELL {
                    return Err(ValueError::Cell(CellError::TooWide { size }));
                }
                if !region_fits(image.len(), address, size, count) {
                    return Err(ValueError::Cell(CellError::OutOfBounds { address, size }));
                }
                let ghost all = cell_results(image@, address, size, count, expression@);
                let mut out: Vec<Rational> = Vec::new();
                if count == 0 {
                    assert(all.len() == 0);
                    assert(rationals_view(out@) == Seq::<Frac>::empty());
                    return Ok(out);
                }
                assert(all[0] == eval_spec(expression@, cell_raw(image@, address, size, 0) as int));
                let ast = match parse(expression.as_str()) {
                    Ok(t) => t,
                    Err(e) => {
                        assert(all[0] == Err::<Frac, ExprError>(e));
                        assert(all.skip(0) == all);
                        return Err(ValueError::Expr(e));
                    },
                };
                let mut k: usize = 0;
                let len = image.len();
                assert(all.skip(0) == all);
                while k < count
                    invariant
                        0 <= k <= count,
                        len == image@.len(),
                        self.data == (AxisData::Binary {
                            address,
                            element_size: size,
                            count,
                            expression: *expression,
                        }),
                        size <= MAX_CELL,
                        run_in_bounds(image@.len(), address, size, count),
                        all.len() == count,
                        parse_spec(expression@) == Ok::<crate::ast::Atom, ExprError>(ast),
                        forall|i: int|
                            0 <= i < count ==> #[trigger] all[i] == eval_spec(
                                expression@,
                                cell_raw(image@, address, size, i) as int,
                            ),
                        collect(all) == (match collect(all.skip(k as int)) {
                            Err(e) => Err(e),
                            Ok(rest) => Ok(rationals_view(out@) + rest),
                        }),
                    decreases count - k,
                {
                    assert(address + k * size + size <= address + count * size) by (nonlinear_arith)
                        requires k < count;
                    assert(k * size <= address + k * size + size) by (nonlinear_arith)
                        requires address >= 0, size >= 0, k >= 0;
                    assert(usize::MAX <= u64::MAX);
                    let at: u64 = address + (k as u64) * (size as u64);
                    proof {
                        let cell = image@.subrange(at as int, at + size);
                        crate::codec::lemma_le_value_bound(cell);
                        reveal_with_fuel(pow256, 5);
                        // a case per width lets the solver unfold pow256
                        assert(pow256(size as nat) <= 0x1_0000_0000) by {
                            if size == 0 {
                            } else if size == 1 {
                            } else if size == 2 {
                            } else if size == 3 {
                            } else {
                            }
                        }
                    }
                    let raw = match read_cell(image, at, size) {
                        Ok(v) => v,
                        Err(e) => {
                            return Err(ValueError::Cell(e));
                        },
                    };
                    assert(raw == cell_raw(image@, address, size, k as int));
                    let ghost rest = all.skip(k as int);
                    assert(rest[0] == all[k as int]);
                    let v = match ast.eval(&Rational::from_u32(raw)) {
                        Ok(v) => v,
                        Err(e) => {
                            assert(rest[0] == Err::<Frac, ExprError>(e));
                            assert(collect(rest) == Err::<Seq<Frac>, ExprError>(e));
                            assert(collect(all) == Err::<Seq<Frac>, ExprError>(e));
                            assert(self.data->Binary_expression@ == expression@);
                            assert(all == cell_results(image@, address, size, count, expression@));
                            return Err(ValueError::Expr(e));
                        },
                    };
                    let ghost done = rationals_view(out@);
                    assert(all[k as int] == Ok::<Frac, ExprError>(v@));
                    proof {
                        lemma_collect_step(all, k as int, done);
                    }
                    out.push(v);
                    assert(rationals_view(out@) == done.push(v@));
                    k = k + 1;
                }
                assert(all.skip(count as int).len() == 0);
                assert(rationals_view(out@) + Seq::<Frac>::empty() == rationals_view(out@));
                Ok(out)
            },
        }
    }
}

pub open spec fn raw_results(expr: Seq<char>, vals: Seq<Frac>, size: usize) -> Seq<
    Result<u32, ValueError>,
> {
    Seq::new(vals.len(), |k: int| raw_for(expr, vals[k], size))
}

impl Axis {
    /// Solves the expression for each value and stores the results in
    /// consecutive cells. Nothing is written unless every value can be
    /// solved and every cell lies in the image.
    pub fn write(&self, image: &mut Vec<u8>, vals: Vec<Rational>) -> (r: Result<(), ValueError>)
        ensures
            match axis_raws(self.data, old(image)@.len(), rationals_view(vals@)) {
                Err(e) => r == Err::<(), ValueError>(e) && final(image)@ == old(image)@,
                Ok(raws) => r is Ok && cells_written(
                    old(image)@,
                    final(image)@,
                    self.data->Binary_address,
                    self.data->Binary_element_size,
                    raws,
                    raws.len() as int,
                ),
            },
    {
        let (address, size, count, expression) = match &self.data {
            AxisData::User(_) => {
                return Err(ValueError::NotWriteable);
            },
            AxisData::Binary { address, element_size, count, expression } => (
                *address,
                *element_size,
                *count,
                expression,
            ),
        };
        let ghost vv = rationals_view(vals@);
        if vals.len() != count {
            return Err(ValueError::WrongLength { expected: count, given: vals.len() });
        }
        if size > MAX_CELL {
            return Err(ValueError::Cell(CellError::TooWide { size }));
        }
        if !region_fits(image.len(), address, size, count) {
            return Err(ValueError::Cell(CellError::OutOfBounds { address, size }));
        }
        let ghost all = raw_results(expression@, vv, size);
        let mut raws: Vec<u32> = Vec::new();
        if count > 0 {
            let ast = match parse(expression.as_str()) {
                Ok(t) => t,
                Err(e) => {
                    assert(all[0] == Err::<u32, ValueError>(ValueError::Expr(e)));
                    assert(all.skip(0) == all);
                    return Err(ValueError::Expr(e));
                },
            };
            let actions = match ast.rev() {
                Ok(a) => a,
                Err(e) => {
                    assert(all[0] == Err::<u32, ValueError>(ValueError::Expr(e)));
                    assert(all.skip(0) == all);
                    return Err(ValueError::Expr(e));
                },
            };
            let mut k: usize = 0;
            assert(all.skip(0) == all);
            while k < count
                invariant
                    0 <= k <= count,
                    count == vals@.len(),
                    self.data == (AxisData::Binary {
                        address,
                        element_size: size,
                        count,
                        expression: *expression,
                    }),
                    size <= MAX_CELL,
                    run_in_bounds(image@.len(), address, size, count),
                    vv == rationals_view(vals@),
                    all == raw_results(expression@, vv, size),
                    parse_spec(expression@) == Ok::<crate::ast::Atom, ExprError>(ast),
                    plan(ast) is Ok,
                    crate::eval::actions_view(actions@) == plan(ast)->Ok_0,
                    collect(all) == (match collect(all.skip(k as int)) {
                        Err(e) => Err(e),
                        Ok(rest) => Ok(raws@ + rest),
                    }),
                decreases count - k,
            {
                let ghost rest = all.skip(k as int);
                assert(rest[0] == all[k as int]);
                let solved = match exec_actions(&actions, vals[k]) {
                    Ok(v) => v,
                    Err(e) => {
                        assert(rest[0] == Err::<u32, ValueError>(ValueError::Expr(e)));
                        assert(collect(rest) == Err::<Seq<u32>, ValueError>(ValueError::Expr(e)));
                        return Err(ValueError::Expr(e));
                    },
                };
                let raw = match raw_in_cell(&solved, size) {
                    Some(v) => v,
                    None => {
                        assert(rest[0] == Err::<u32, ValueError>(ValueError::OutOfRange));
                        assert(collect(rest) == Err::<Seq<u32>, ValueError>(ValueError::OutOfRange));
                        return Err(ValueError::OutOfRange);
                    },
                };
                assert(all[k as int] == Ok::<u32, ValueError>(raw));
                proof {
                    lemma_collect_step(all, k as int, raws@);
                }
                raws.push(raw);
                k = k + 1;
            }
            assert(all.skip(count as int).len() == 0);
            assert(raws@ + Seq::<u32>::empty() == raws@);
        } else {
            assert(all.len() == 0);
            assert(raws@ == Seq::<u32>::empty());
        }
        assert(collect(all) == Ok::<Seq<u32>, ValueError>(raws@));
        proof {
            lemma_collect_len(all);
        }
        let ghost before = image@;
        let len = image.len();
        let mut k: usize = 0;
        while k < count
            invariant
                0 <= k <= count,
                raws@.len() == count,
                size <= MAX_CELL,
                len == before.len(),
                run_in_bounds(before.len(), address, size, count),
                cells_written(before, image@, address, size, raws@, k as int),
            decreases count - k,
        {
            assert(address + k * size + size <= address + count * size) by (nonlinear_arith)
                requires k < count;
            assert(k * size <= address + k * size + size) by (nonlinear_arith)
                requires address >= 0, size >= 0, k >= 0;
            assert(usize::MAX <= u64::MAX);
            let at: u64 = address + (k as u64) * (size as u64);
            let ghost img = image@;
            let res = write_cell(image, at, size, raws[k]);
            assert(res is Ok);
            proof {
                let a = at as int;
                assert forall|j: int| 0 <= j < img.len() implies #[trigger] image@[j] == if a <= j
                    < a + size {
                    le_bytes(raws@[k as int] as nat, size as nat)[j - a]
                } else {
                    img[j]
                } by {
                    lemma_written_index(img, at, size, raws@[k as int], j);
                }
                lemma_le_bytes_len(raws@[k as int] as nat, size as nat);
                assert forall|q: int| 0 <= q < k + 1 implies #[trigger] image@.subrange(
                    address + q * size,
                    address + q * size + size,
                ) == le_bytes(raws@[q] as nat, size as nat) by {
                    if q == k {
                        assert(image@.subrange(a, a + size) =~= le_bytes(
                            raws@[k as int] as nat,
                            size as nat,
                        ));
                    } else {
                        assert(address + q * size + size <= a) by (nonlinear_arith)
                            requires q < k, a == address + k * size;
                        assert(address + q * size >= 0) by (nonlinear_arith)
                            requires q >= 0, address >= 0, size >= 0;
                        assert(image@.subrange(address + q * size, address + q * size + size)
                            =~= img.subrange(address + q * size, address + q * size + size));
                    }
                }
                assert(address + (k + 1) * size == a + size) by (nonlinear_arith)
                    requires a == address + k * size;
            }
            k = k + 1;
        }
        Ok(())
    }
}

/// Once a step fails, every later sum fails.
proof fn lemma_delta_sum_err(t: Atom, i: nat, n: nat)
    requires
        i <= n,
        delta_sum(t, i) is Err,
    ensures
        delta_sum(t, n) is Err,
    decreases n - i,
{
    if i < n {
        lemma_delta_sum_err(t, i + 1, n);
    }
}

/// The number of raw values sampled by the precision estimate.
pub const SAMPLES: u32 = 20;

/// `|e(1) - e(0)| + ... + |e(n) - e(n - 1)|`, where `e(i)` is the tree's
/// value at raw `i`.
pub open spec fn delta_sum(t: Atom, n: nat) -> Result<Frac, ExprError>
    decreases n,
{
    if n == 0 {
        Ok((0, 1))
    } else {
        match delta_sum(t, (n - 1) as nat) {
            Err(e) => Err(e),
            Ok(prev) => match combine(
                eval_tree(t, (n as int, 1)),
                eval_tree(t, (n - 1, 1)),
                Ops::Subtract,
            ) {
                Err(e) => Err(e),
                Ok(d) => checked_q_add(prev, q_abs(d)),
            },
        }
    }
}

/// How many `j >= 1` have `10^(2j - 1) * b2 <= a2`: for `a2 = a * a` and
/// `b2 = b * b`, the nearest integer to `log10(a / b)` when that is positive.
pub open spec fn decades(a2: nat, b2: nat, j: nat) -> nat
    decreases a2 + 1 - j,
{
    if 1 <= j <= a2 && pow10((2 * j - 1) as nat) * b2 <= a2 {
        1 + decades(a2, b2, j + 1)
    } else {
        0
    }
}

/// The digit count for a mean step of `b / a`: `round(log10(a / b)) + 1`,
/// counted up (`up` decades) or down (`down` decades); none when it is
/// negative or when the squares leave `u128`. `log10(a / b)` is never an
/// odd multiple of one half, so the rounding has no ties.
pub open spec fn digits_for(a: int, b: int) -> Option<usize> {
    if a * a > u128::MAX || b * b > u128::MAX {
        None
    } else {
        let up = decades((a * a) as nat, (b * b) as nat, 1);
        let down = decades((b * b) as nat, (a * a) as nat, 1);
        if up > 0 {
            Some((up + 1) as usize)
        } else if down == 0 {
            Some(1)
        } else if down == 1 {
            Some(0)
        } else {
            None
        }
    }
}

/// Display precision of an axis: with `S` the sum of the absolute steps
/// between the values at raw `0..SAMPLES`, the mean step is
/// `S / (SAMPLES - 1)` and the precision is `round(log10(1 / mean)) + 1`.
/// None for fixed values, for an expression that fails on those raw values
/// or does not vary, when that formula is negative (a mean step of about
/// `10^1.5` or more), and when the estimate leaves the exact range.
pub open spec fn precision_spec(data: AxisData) -> Option<usize> {
    match data {
        AxisData::User(_) => None,
        AxisData::Binary { expression, .. } => match parse_spec(expression@) {
            Err(_) => None,
            Ok(t) => match delta_sum(t, (SAMPLES - 1) as nat) {
                Err(_) => None,
                Ok(s) => if s.0 <= 0 {
                    None
                } else {
                    digits_for((SAMPLES - 1) * s.1, s.0)
                },
            },
        },
    }
}

proof fn lemma_pow10_exceeds(n: nat)
    ensures
        pow10(n) > n,
    decreases n,
{
    if n > 0 {
        lemma_pow10_exceeds((n - 1) as nat);
    }
}

/// `10^(2j + 1) = 100 * 10^(2j - 1)`.
proof fn lemma_pow10_step(j: nat)
    requires
        j >= 1,
    ensures
        pow10((2 * (j + 1) - 1) as nat) == 100 * pow10((2 * j - 1) as nat),
{
    let n = (2 * j - 1) as nat;
    assert((2 * (j + 1) - 1) as nat == n + 2);
    assert(pow10(n + 2) == 10 * pow10(n + 1));
    assert(pow10(n + 1) == 10 * pow10(n));
}

/// A power of ten below `2^128` has an exponent below `39`.
pub proof fn lemma_pow10_small(n: nat)
    requires
        pow10(n) <= u128::MAX,
    ensures
        n < 39,
{
    if n >= 39 {
        crate::token::lemma_pow10_mono(39, n);
        reveal_with_fuel(pow10, 40);
    }
}

fn count_decades(a2: u128, b2: u128) -> (r: usize)
    requires
        b2 >= 1,
    ensures
        r == decades(a2 as nat, b2 as nat, 1),
        r < 20,
{
    let mut count: usize = 0;
    let ghost mut j: nat = 1;
    assert(pow10(1) == 10) by {
        reveal_with_fuel(pow10, 2);
    }
    assert((2 * 1 - 1) as nat == 1);
    let mut p: u128 = match b2.checked_mul(10) {
        Some(v) => v,
        None => {
            assert(decades(a2 as nat, b2 as nat, 1) == 0);
            return 0;
        },
    };
    loop
        invariant
            j >= 1,
            b2 >= 1,
            p == pow10((2 * j - 1) as nat) * b2,
            count == j - 1,
            j <= 20,
            decades(a2 as nat, b2 as nat, 1) == count + decades(a2 as nat, b2 as nat, j),
        decreases a2 + 1 - p,
    {
        let ghost n = (2 * j - 1) as nat;
        proof {
            lemma_pow10_exceeds(n);
            assert(pow10(n) * b2 >= pow10(n)) by (nonlinear_arith)
                requires b2 >= 1, pow10(n) >= 0;
        }
        if p > a2 {
            return count;
        }
        proof {
            lemma_pow10_small(n);
        }
        assert(decades(a2 as nat, b2 as nat, j) == 1 + decades(a2 as nat, b2 as nat, j + 1));
        count = count + 1;
        proof {
            lemma_pow10_step(j);
            assert(pow10((2 * (j + 1) - 1) as nat) * b2 == 100 * p) by (nonlinear_arith)
                requires pow10((2 * (j + 1) - 1) as nat) == 100 * pow10(n), p == pow10(n) * b2;
        }
        if p > a2 / 100 {
            assert(100 * p > a2) by (nonlinear_arith)
                requires p > a2 / 100, a2 >= 0;
            assert(decades(a2 as nat, b2 as nat, j + 1) == 0);
            return count;
        }
        assert(p * 100 <= a2) by (nonlinear_arith)
            requires p <= a2 / 100, a2 >= 0;
        p = p * 100;
        proof {
            j = j + 1;
        }
    }
}

impl Axis {
    /// Estimated number of decimal digits worth showing; see `precision_spec`.
    pub fn precision(&self) -> (r: Option<usize>)
        ensures
            r == precision_spec(self.data),
    {
        let expression = match &self.data {
            AxisData::User(_) => {
                return None;
            },
            AxisData::Binary { expression, .. } => expression,
        };
        let ast = match parse(expression.as_str()) {
            Ok(t) => t,
            Err(_) => {
                return None;
            },
        };
        let mut prev = match ast.eval(&Rational::from_u32(0)) {
            Ok(v) => v,
            Err(_) => {
                proof {
                    assert(delta_sum(ast, 1) is Err);
                    lemma_delta_sum_err(ast, 1, (SAMPLES - 1) as nat);
                }
                return None;
            },
        };
        let mut sum = Rational::from_int(0);
        let mut i: u32 = 1;
        while i < SAMPLES
            invariant
                1 <= i <= SAMPLES,
                parse_spec(self.data->Binary_expression@) == Ok::<Atom, ExprError>(ast),
                self.data is Binary,
                delta_sum(ast, (i - 1) as nat) == Ok::<Frac, ExprError>(sum@),
                eval_tree(ast, ((i - 1) as int, 1)) == Ok::<Frac, ExprError>(prev@),
            decreases SAMPLES - i,
        {
            let cur = match ast.eval(&Rational::from_u32(i)) {
                Ok(v) => v,
                Err(_) => {
                    proof {
                        lemma_delta_sum_err(ast, i as nat, (SAMPLES - 1) as nat);
                    }
                    return None;
                },
            };
            let d = match cur.checked_sub(&prev) {
                Some(v) => v,
                None => {
                    proof {
                        lemma_delta_sum_err(ast, i as nat, (SAMPLES - 1) as nat);
                    }
                    return None;
                },
            };
            let next = match sum.checked_add(&d.abs()) {
                Some(v) => v,
                None => {
                    proof {
                        lemma_delta_sum_err(ast, i as nat, (SAMPLES - 1) as nat);
                    }
                    return None;
                },
            };
            sum = next;
            prev = cur;
            i = i + 1;
        }
        let n = sum.numer();
        let d = sum.denom();
        if n <= 0 {
            return None;
        }
        let a: u128 = match (d as u128).checked_mul((SAMPLES - 1) as u128) {
            Some(v) => v,
            None => {
                assert(((SAMPLES - 1) * d) * ((SAMPLES - 1) * d) > u128::MAX) by (nonlinear_arith)
                    requires (SAMPLES - 1) * d > u128::MAX;
                return None;
            },
        };
        let a2 = match a.checked_mul(a) {
            Some(v) => v,
            None => {
                return None;
            },
        };
        let b2 = match (n as u128).checked_mul(n as u128) {
            Some(v) => v,
            None => {
                return None;
            },
        };
        assert(b2 >= 1) by (nonlinear_arith)
            requires b2 == n * n, n >= 1;
        assert(a2 >= 1) by (nonlinear_arith)
            requires a2 == a * a, a >= 1;
        let up = count_decades(a2, b2);
        if up > 0 {
            return Some(1 + up);
        }
        let down = count_decades(b2, a2);
        if down == 0 {
            Some(1)
        } else if down == 1 {
            Some(0)
        } else {
            None
        }
    }
}

pub open spec fn cell_view(c: Option<Rational>) -> Option<Frac> {
    match c {
        Some(r) => Some(r@),
        None => None,
    }
}

pub open spec fn row_view(row: Seq<Option<Rational>>) -> Seq<Option<Frac>> {
    row.map_values(|c: Option<Rational>| cell_view(c))
}

pub open spec fn grid_view(g: Seq<Vec<Option<Rational>>>) -> Seq<Seq<Option<Frac>>> {
    g.map_values(|row: Vec<Option<Rational>>| row_view(row@))
}

pub open spec fn present(v: Seq<Frac>) -> Seq<Option<Frac>> {
    v.map_values(|q: Frac| Some(q))
}

pub open spec fn min_int(a: int, b: int) -> int {
    if a < b {
        a
    } else {
        b
    }
}

/// Row `r` of the values: the `xl` values after the first `r * xl`, as far
/// as there are values.
pub open spec fn value_row(zs: Seq<Frac>, xl: int, r: int) -> Seq<Frac> {
    zs.subrange(min_int(r * xl, zs.len() as int), min_int(r * xl + xl, zs.len() as int))
}

/// The display grid: a header row with a blank corner and the column
/// labels, then for each row label the label and that row's values.
pub open spec fn grid_spec(xs: Seq<Frac>, ys: Seq<Frac>, zs: Seq<Frac>) -> Seq<Seq<Option<Frac>>> {
    seq![seq![None::<Frac>] + present(xs)] + Seq::new(
        ys.len(),
        |r: int| seq![Some(ys[r])] + present(value_row(zs, xs.len() as int, r)),
    )
}

/// Lays out column labels, row labels and values as a grid.
pub fn build_grid(xs: &Vec<Rational>, ys: &Vec<Rational>, zs: &Vec<Rational>) -> (r: Vec<
    Vec<Option<Rational>>,
>)
    ensures
        grid_view(r@) == grid_spec(rationals_view(xs@), rationals_view(ys@), rationals_view(zs@)),
{
    let ghost xv = rationals_view(xs@);
    let ghost yv = rationals_view(ys@);
    let ghost zv = rationals_view(zs@);
    let xl = xs.len();
    let zl = zs.len();
    let mut head: Vec<Option<Rational>> = Vec::new();
    head.push(None);
    let mut i: usize = 0;
    while i < xl
        invariant
            0 <= i <= xl,
            xl == xs@.len(),
            xv == rationals_view(xs@),
            row_view(head@) == seq![None::<Frac>] + present(xv.subrange(0, i as int)),
        decreases xl - i,
    {
        let ghost before = row_view(head@);
        head.push(Some(xs[i]));
        assert(row_view(head@) == before.push(Some(xs@[i as int]@)));
        assert(xv.subrange(0, i + 1) =~= xv.subrange(0, i as int).push(xv[i as int]));
        assert(present(xv.subrange(0, i + 1)) == present(xv.subrange(0, i as int)).push(
            Some(xv[i as int]),
        ));
        i = i + 1;
    }
    assert(xv.subrange(0, xl as int) == xv);
    let mut grid: Vec<Vec<Option<Rational>>> = Vec::new();
    grid.push(head);
    let ghost spec = grid_spec(xv, yv, zv);
    let mut zi: usize = 0;
    let mut r: usize = 0;
    while r < ys.len()
        invariant
            0 <= r <= ys@.len(),
            xl == xs@.len(),
            zl == zs@.len(),
            xv == rationals_view(xs@),
            yv == rationals_view(ys@),
            zv == rationals_view(zs@),
            spec == grid_spec(xv, yv, zv),
            zi == min_int(r * xl, zl as int),
            grid_view(grid@) == spec.subrange(0, r + 1),
        decreases ys@.len() - r,
    {
        let mut row: Vec<Option<Rational>> = Vec::new();
        row.push(Some(ys[r]));
        let ghost lo = zi as int;
        let ghost hi = min_int(r * xl + xl, zl as int);
        assert(r * xl + xl == (r + 1) * xl) by (nonlinear_arith);
        let mut c: usize = 0;
        while c < xl && zi < zl
            invariant
                0 <= c <= xl,
                zl == zs@.len(),
                zv == rationals_view(zs@),
                zv.len() == zl,
                0 <= lo <= zi <= hi,
                zi == lo + c,
                hi == min_int(lo + xl, zl as int) || lo == zl,
                lo == zl ==> hi == zl,
                row_view(row@) == seq![Some(yv[r as int])] + present(zv.subrange(lo, zi as int)),
            decreases xl - c,
        {
            let ghost before = row_view(row@);
            row.push(Some(zs[zi]));
            assert(row_view(row@) == before.push(Some(zs@[zi as int]@)));
            assert(zv.subrange(lo, zi + 1) =~= zv.subrange(lo, zi as int).push(zv[zi as int]));
            assert(present(zv.subrange(lo, zi + 1)) == present(zv.subrange(lo, zi as int)).push(
                Some(zv[zi as int]),
            ));
            zi = zi + 1;
            c = c + 1;
        }
        assert(zi == hi);
        assert(value_row(zv, xl as int, r as int) == zv.subrange(lo, hi));
        let ghost g0 = grid_view(grid@);
        grid.push(row);
        assert(grid_view(grid@) == g0.push(row_view(row@)));
        assert(spec[r + 1] == seq![Some(yv[r as int])] + present(value_row(zv, xl as int, r as int)));
        assert(spec.subrange(0, r + 2) == spec.subrange(0, r + 1).push(spec[r + 1]));
        r = r + 1;
    }
    assert(spec.subrange(0, spec.len() as int) == spec);
    grid
}

impl Table {
    /// Reads the three axes and lays them out for display; see `grid_spec`.
    pub fn build_array(&self, image: &[u8]) -> (r: Result<Vec<Vec<Option<Rational>>>, ValueError>)
        ensures
            match (
                axis_values(self.x.data, image@),
                axis_values(self.y.data, image@),
                axis_values(self.z.data, image@),
            ) {
                (Ok(xs), Ok(ys), Ok(zs)) => r is Ok && grid_view(r->Ok_0@) == grid_spec(xs, ys, zs),
                (Err(e), _, _) => r == Err::<Vec<Vec<Option<Rational>>>, ValueError>(e),
                (Ok(_), Err(e), _) => r == Err::<Vec<Vec<Option<Rational>>>, ValueError>(e),
                (Ok(_), Ok(_), Err(e)) => r == Err::<Vec<Vec<Option<Rational>>>, ValueError>(e),
            },
    {
        let xs = match self.x.read(image) {
            Ok(v) => v,
            Err(e) => {
                return Err(e);
            },
        };
        let ys = match self.y.read(image) {
            Ok(v) => v,
            Err(e) => {
                return Err(e);
            },
        };
        let zs = match self.z.read(image) {
            Ok(v) => v,
            Err(e) => {
                return Err(e);
            },
        };
        Ok(build_grid(&xs, &ys, &zs))
    }
}

} // verus!
