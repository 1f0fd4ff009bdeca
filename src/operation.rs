//! The five binary operations, their symbols and their precedence.

use vstd::prelude::*;

verus! {

/// A binary arithmetic operation.
#[derive(Debug, Clone, Copy, PartialEq, Eq, Structural)]
pub enum Operation {
    Add,
    Subtract,
    Multiply,
    Divide,
    Power,
}

/// The operation that the one-character text `s` stands for, if any.
pub open spec fn operation_of(s: Seq<char>) -> Option<Operation> {
    if s.len() != 1 {
        None
    } else if s[0] == '+' {
        Some(Operation::Add)
    } else if s[0] == '-' {
        Some(Operation::Subtract)
    } else if s[0] == '*' {
        Some(Operation::Multiply)
    } else if s[0] == '/' {
        Some(Operation::Divide)
    } else if s[0] == '^' {
        Some(Operation::Power)
    } else {
        None
    }
}

/// Whether `c` is one of the operator symbols `+ - * / ^`.
pub open spec fn is_operator_char(c: char) -> bool {
    c == '+' || c == '-' || c == '*' || c == '/' || c == '^'
}

/// The precedence of the operation written by `s`, if `s` is an operator symbol.
pub open spec fn precedence_of(s: Seq<char>) -> Option<u16> {
    match operation_of(s) {
        Some(op) => Some(op.rank()),
        None => None,
    }
}

impl Operation {
    /// Power binds tightest, then multiplication and division, then addition and
    /// subtraction.
    pub open spec fn rank(self) -> u16 {
        match self {
            Operation::Add | Operation::Subtract => 1,
            Operation::Multiply | Operation::Divide => 2,
            Operation::Power => 3,
        }
    }

    /// The symbol shown for the operation.
    pub open spec fn display(self) -> Seq<char> {
        match self {
            Operation::Add => seq!['+'],
            Operation::Subtract => seq!['-'],
            Operation::Multiply => seq!['×'],
            Operation::Divide => seq!['÷'],
            Operation::Power => seq!['^'],
        }
    }

    /// The symbol shown for the operation.
    pub fn to_str(&self) -> (r: &'static str)
        ensures
            r@ == self.display(),
    {
        proof {
            reveal_strlit("+");
            reveal_strlit("-");
            reveal_strlit("×");
            reveal_strlit("÷");
            reveal_strlit("^");
        }
        match self {
            Operation::Add => "+",
            Operation::Subtract => "-",
            Operation::Multiply => "×",
            Operation::Divide => "÷",
            Operation::Power => "^",
        }
    }

    /// The operation written by `string`, or `None` where `string` is no operator
    /// symbol.
    pub fn from_str(string: &str) -> (r: Option<Operation>)
        ensures
            r == operation_of(string@),
    {
        if string.unicode_len() != 1 {
            return None;
        }
        from_char(string.get_char(0))
    }

    /// The precedence rank of the operation.
    pub fn precedence(&self) -> (r: u16)
        ensures
            r == self.rank(),
    {
        match self {
            Operation::Add | Operation::Subtract => 1,
            Operation::Multiply | Operation::Divide => 2,
            Operation::Power => 3,
        }
    }
}

/// The operation written by the single character `c`, if any.
pub fn from_char(c: char) -> (r: Option<Operation>)
    ensures
        r == operation_of(seq![c]),
        r is Some <==> is_operator_char(c),
{
    if c == '+' {
        Some(Operation::Add)
    } else if c == '-' {
        Some(Operation::Subtract)
    } else if c == '*' {
        Some(Operation::Multiply)
    } else if c == '/' {
        Some(Operation::Divide)
    } else if c == '^' {
        Some(Operation::Power)
    } else {
        None
    }
}

/// The precedence of the operator written by `symbol`, or `None` where `symbol`
/// is no operator.
pub fn precedence(symbol: &str) -> (r: Option<u16>)
    ensures
        r == precedence_of(symbol@),
{
    match Operation::from_str(symbol) {
        Some(op) => Some(op.precedence()),
        None => None,
    }
}

} // verus!
