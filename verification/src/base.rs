use vstd::prelude::*;

verus! {

/// The five binary operators of the expression language.
#[allow(non_camel_case_types)]
#[derive(Clone, Copy, Debug, PartialEq, Eq, Structural)]
pub enum OperatorKind {
    ADD,
    SUB,
    MULT,
    DIV,
    POW,
}

impl OperatorKind {
    /// The character that stands for the operator, in the input and in diagrams.
    pub open spec fn spec_symbol(self) -> char {
        match self {
            OperatorKind::ADD => '+',
            OperatorKind::SUB => '-',
            OperatorKind::MULT => '*',
            OperatorKind::DIV => '/',
            OperatorKind::POW => '^',
        }
    }

    /// The operator that a character stands for, if it stands for one.
    pub open spec fn spec_from_symbol(c: char) -> Option<OperatorKind> {
        if c == '+' {
            Some(OperatorKind::ADD)
        } else if c == '-' {
            Some(OperatorKind::SUB)
        } else if c == '*' {
            Some(OperatorKind::MULT)
        } else if c == '/' {
            Some(OperatorKind::DIV)
        } else if c == '^' {
            Some(OperatorKind::POW)
        } else {
            None
        }
    }

    #[verifier::when_used_as_spec(spec_symbol)]
    pub fn symbol(self) -> (c: char)
        ensures
            c == self.spec_symbol(),
    {
        match self {
            OperatorKind::ADD => '+',
            OperatorKind::SUB => '-',
            OperatorKind::MULT => '*',
            OperatorKind::DIV => '/',
            OperatorKind::POW => '^',
        }
    }

    #[verifier::when_used_as_spec(spec_from_symbol)]
    pub fn from_symbol(c: char) -> (op: Option<OperatorKind>)
        ensures
            op == OperatorKind::spec_from_symbol(c),
    {
        if c == '+' {
            Some(OperatorKind::ADD)
        } else if c == '-' {
            Some(OperatorKind::SUB)
        } else if c == '*' {
            Some(OperatorKind::MULT)
        } else if c == '/' {
            Some(OperatorKind::DIV)
        } else if c == '^' {
            Some(OperatorKind::POW)
        } else {
            None
        }
    }
}

/// Every operator is found again from its symbol.
pub proof fn lemma_symbol_round_trip(op: OperatorKind)
    ensures
        OperatorKind::spec_from_symbol(op.spec_symbol()) == Some(op),
{
}

} // verus!
