//! Typed column values, comparison operators, and columnar data with
//! statistics used for pruning.

use vstd::prelude::*;

verus! {

/// A typed cell value: a literal operand in a predicate, or a value read
/// out of a column.
#[derive(Debug, PartialEq)]
pub enum Value {
    I64(i64),
    Str(String),
    Bool(bool),
}

/// The mathematical shape of a [`Value`]: strings are sequences of
/// characters. Contracts speak of these.
pub enum Val {
    I64(i64),
    Str(Seq<char>),
    Bool(bool),
}

/// The abstraction of a concrete [`Value`].
pub open spec fn val_of(v: Value) -> Val {
    match v {
        Value::I64(x) => Val::I64(x),
        Value::Str(s) => Val::Str(s@),
        Value::Bool(b) => Val::Bool(b),
    }
}

/// The comparison kinds usable in a predicate.
#[derive(Clone, Copy, PartialEq, Eq, Structural, Debug)]
pub enum Operator {
    Equal,
    NotEqual,
    GT,
    GTE,
    LT,
    LTE,
}

/// The declared type of a column.
#[derive(Clone, Copy, PartialEq, Eq, Structural, Debug)]
pub enum ColumnType {
    I64,
    Str,
    Bool,
}

pub open spec fn type_of_val(v: Val) -> ColumnType {
    match v {
        Val::I64(_) => ColumnType::I64,
        Val::Str(_) => ColumnType::Str,
        Val::Bool(_) => ColumnType::Bool,
    }
}

/// Whether `a op b` holds. Range comparisons are defined on integers only;
/// strings and booleans support equality and inequality. A comparison
/// across differing types never holds.
pub open spec fn spec_cmp_i64(x: i64, op: Operator, y: i64) -> bool {
    match op {
        Operator::Equal => x == y,
        Operator::NotEqual => x != y,
        Operator::GT => x > y,
        Operator::GTE => x >= y,
        Operator::LT => x < y,
        Operator::LTE => x <= y,
    }
}

pub open spec fn spec_cmp(a: Val, op: Operator, b: Val) -> bool {
    match a {
        Val::I64(x) => match b {
            Val::I64(y) => spec_cmp_i64(x, op, y),
            _ => false,
        },
        Val::Str(x) => match b {
            Val::Str(y) => match op {
                Operator::Equal => x == y,
                Operator::NotEqual => x != y,
                _ => false,
            },
            _ => false,
        },
        Val::Bool(x) => match b {
            Val::Bool(y) => match op {
                Operator::Equal => x == y,
                Operator::NotEqual => x != y,
                _ => false,
            },
            _ => false,
        },
    }
}

impl Value {
    /// A copy of this value, equal to the original.
    pub fn duplicate(&self) -> (r: Value)
        ensures
            r == *self,
    {
        match self {
            Value::I64(x) => Value::I64(*x),
            Value::Str(s) => Value::Str(s.clone()),
            Value::Bool(b) => Value::Bool(*b),
        }
    }
}

/// Evaluates `x op y` on two integers.
pub fn cmp_i64(x: i64, op: Operator, y: i64) -> (r: bool)
    ensures
        r == spec_cmp_i64(x, op, y),
{
    match op {
        Operator::Equal => x == y,
        Operator::NotEqual => x != y,
        Operator::GT => x > y,
        Operator::GTE => x >= y,
        Operator::LT => x < y,
        Operator::LTE => x <= y,
    }
}

/// Evaluates `a op b`.
pub fn value_cmp(a: &Value, op: Operator, b: &Value) -> (r: bool)
    ensures
        r == spec_cmp(val_of(*a), op, val_of(*b)),
{
    match a {
        Value::I64(x) => match b {
            Value::I64(y) => cmp_i64(*x, op, *y),
            _ => false,
        },
        Value::Str(x) => match b {
            Value::Str(y) => match op {
                Operator::Equal => *x == *y,
                Operator::NotEqual => !(*x == *y),
                _ => false,
            },
            _ => false,
        },
        Value::Bool(x) => match b {
            Value::Bool(y) => match op {
                Operator::Equal => *x == *y,
                Operator::NotEqual => *x != *y,
                _ => false,
            },
            _ => false,
        },
    }
}

/// The integer at row `i` of an integer column (irrelevant otherwise).
pub open spec fn i64_at(c: ColumnData, i: int) -> i64 {
    match c {
        ColumnData::I64(v) => v@[i],
        _ => 0,
    }
}

/// Whether a comparison against some value of `[m, mx]` can hold: the
/// statistics-based pruning test of a single predicate.
pub open spec fn spec_can_match(m: i64, mx: i64, op: Operator, lit: i64) -> bool {
    match op {
        Operator::Equal => m <= lit <= mx,
        Operator::NotEqual => !(m == lit && mx == lit),
        Operator::GT => mx > lit,
        Operator::GTE => mx >= lit,
        Operator::LT => m < lit,
        Operator::LTE => m <= lit,
    }
}

/// Pruning is sound: when the test fails, no value within the
/// statistics satisfies the comparison.
pub proof fn lemma_can_match_sound(m: i64, mx: i64, op: Operator, lit: i64, v: i64)
    requires
        m <= v <= mx,
        !spec_can_match(m, mx, op, lit),
    ensures
        !spec_cmp_i64(v, op, lit),
{
}

/// Evaluates the pruning test.
pub fn can_match(m: i64, mx: i64, op: Operator, lit: i64) -> (r: bool)
    ensures
        r == spec_can_match(m, mx, op, lit),
{
    match op {
        Operator::Equal => m <= lit && lit <= mx,
        Operator::NotEqual => !(m == lit && mx == lit),
        Operator::GT => mx > lit,
        Operator::GTE => mx >= lit,
        Operator::LT => m < lit,
        Operator::LTE => m <= lit,
    }
}

/// The row-aligned values of one column.
#[derive(Debug)]
pub enum ColumnData {
    I64(Vec<i64>),
    Str(Vec<String>),
    Bool(Vec<bool>),
}

/// A named, typed, immutable columnar vector.
#[derive(Debug)]
pub struct Column {
    pub name: String,
    pub data: ColumnData,
}

/// The sequence-of-character views of a sequence of strings.
pub open spec fn strs(v: Seq<String>) -> Seq<Seq<char>> {
    v.map_values(|s: String| s@)
}

impl ColumnData {
    pub open spec fn spec_len(&self) -> nat {
        match self {
            ColumnData::I64(v) => v@.len(),
            ColumnData::Str(v) => v@.len(),
            ColumnData::Bool(v) => v@.len(),
        }
    }

    pub open spec fn spec_type(&self) -> ColumnType {
        match self {
            ColumnData::I64(_) => ColumnType::I64,
            ColumnData::Str(_) => ColumnType::Str,
            ColumnData::Bool(_) => ColumnType::Bool,
        }
    }

    /// The abstract value held at row `i`.
    pub open spec fn spec_at(&self, i: int) -> Val {
        match self {
            ColumnData::I64(v) => Val::I64(v@[i]),
            ColumnData::Str(v) => Val::Str(v@[i]@),
            ColumnData::Bool(v) => Val::Bool(v@[i]),
        }
    }

    pub fn len(&self) -> (n: usize)
        ensures
            n == self.spec_len(),
    {
        match self {
            ColumnData::I64(v) => v.len(),
            ColumnData::Str(v) => v.len(),
            ColumnData::Bool(v) => v.len(),
        }
    }

    /// Reads the value at row `i`.
    pub fn value_at(&self, i: usize) -> (r: Value)
        requires
            i < self.spec_len(),
        ensures
            val_of(r) == self.spec_at(i as int),
    {
        match self {
            ColumnData::I64(v) => Value::I64(v[i]),
            ColumnData::Str(v) => Value::Str(v[i].clone()),
            ColumnData::Bool(v) => Value::Bool(v[i]),
        }
    }
}

} // verus!
