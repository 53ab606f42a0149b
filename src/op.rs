use vstd::prelude::*;

verus! {

/// The operator that produced a node; a leaf carries none.
#[derive(Clone, Copy, Debug, PartialEq, Eq, Structural)]
pub enum Op {
    Add,
    Mul,
    Exp,
    Pow,
    ReLU,
    TanH,
}

/// Number of operands each operator consumes.
pub open spec fn arity(op: Option<Op>) -> nat {
    match op {
        None => 0,
        Some(Op::Add) | Some(Op::Mul) => 2,
        Some(_) => 1,
    }
}

/// Printable name of an operator.
pub open spec fn op_symbol(op: Op) -> Seq<char> {
    match op {
        Op::Add => "+"@,
        Op::Mul => "*"@,
        Op::Exp => "exp"@,
        Op::Pow => "pow"@,
        Op::ReLU => "relu"@,
        Op::TanH => "tanh"@,
    }
}

impl Op {
    /// Number of operands of this operator.
    pub fn arity(&self) -> (r: usize)
        ensures
            r == arity(Some(*self)),
    {
        match self {
            Op::Add | Op::Mul => 2,
            _ => 1,
        }
    }

    /// The operator's printable name.
    pub fn symbol(&self) -> (r: &'static str)
        ensures
            r@ == op_symbol(*self),
    {
        match self {
            Op::Add => {
                proof { reveal_strlit("+"); }
                "+"
            },
            Op::Mul => {
                proof { reveal_strlit("*"); }
                "*"
            },
            Op::Exp => {
                proof { reveal_strlit("exp"); }
                "exp"
            },
            Op::Pow => {
                proof { reveal_strlit("pow"); }
                "pow"
            },
            Op::ReLU => {
                proof { reveal_strlit("relu"); }
                "relu"
            },
            Op::TanH => {
                proof { reveal_strlit("tanh"); }
                "tanh"
            },
        }
    }
}

} // verus!
