//! The parsed form of a formula as the dependency analysis reads it: literals,
//! references, operators, function calls and array constants.
use vstd::prelude::*;

verus! {

/// The kinds of spreadsheet error values.
#[derive(Clone, Copy, Debug, PartialEq, Eq, Hash)]
pub enum ErrorKind {
    Null,
    Ref,
    Name,
    Value,
    Div,
    Na,
    Num,
    NImpl,
    Circ,
    Calc,
    Spill,
    Error,
}

/// An error value with the reason given for it, when one is given (such as
/// which kind of reference is not supported).
#[derive(Clone, Debug, PartialEq, Eq)]
pub struct EvalError {
    pub kind: ErrorKind,
    pub message: Option<String>,
}

impl EvalError {
    /// The text of the reason, when one is given.
    pub open spec fn message_text(&self) -> Option<Seq<char>> {
        match self.message {
            Some(m) => Some(m@),
            None => None,
        }
    }
}

/// A literal value written in a formula or held by a name. Numbers are kept
/// as the bit pattern of their 64-bit IEEE value: the analysis never reads them.
#[derive(Clone, Debug, PartialEq)]
pub enum ScalarLiteral {
    Empty,
    Boolean(bool),
    Int(i64),
    NumberBits(u64),
    Text(String),
    Error(ErrorKind),
}

impl ScalarLiteral {
    /// A copy of this literal.
    pub fn duplicate(&self) -> (r: ScalarLiteral)
        ensures
            r == *self,
    {
        match self {
            ScalarLiteral::Empty => ScalarLiteral::Empty,
            ScalarLiteral::Boolean(b) => ScalarLiteral::Boolean(*b),
            ScalarLiteral::Int(i) => ScalarLiteral::Int(*i),
            ScalarLiteral::NumberBits(n) => ScalarLiteral::NumberBits(*n),
            ScalarLiteral::Text(t) => ScalarLiteral::Text(t.clone()),
            ScalarLiteral::Error(e) => ScalarLiteral::Error(*e),
        }
    }
}

/// The target of a reference expression.
#[derive(Clone, Debug, PartialEq)]
pub enum ReferenceTarget {
    /// A cell, on the formula's own sheet when `sheet` is `None`.
    Cell { sheet: Option<String>, row: u32, col: u32 },
    /// A range; missing bounds default to row or column 1, a missing end to the start.
    Range {
        sheet: Option<String>,
        start_row: Option<u32>,
        start_col: Option<u32>,
        end_row: Option<u32>,
        end_col: Option<u32>,
    },
    /// A defined name.
    NamedRange(String),
    /// A structured reference into a table.
    Table(String),
    /// A cell across several sheets.
    Cell3D,
    /// A range across several sheets.
    Range3D,
    /// A reference into another workbook.
    External(String),
}

/// A formula expression tree.
#[derive(Debug)]
pub enum FormulaAst {
    Literal(ScalarLiteral),
    Reference(ReferenceTarget),
    UnaryOp { op: String, expr: Box<FormulaAst> },
    BinaryOp { op: String, left: Box<FormulaAst>, right: Box<FormulaAst> },
    Function { name: String, args: Vec<FormulaAst> },
    Call { callee: Box<FormulaAst>, args: Vec<FormulaAst> },
    Array(Vec<Vec<FormulaAst>>),
    Omitted,
}

} // verus!
