//! The six directed operators and their arithmetic semantics.
//!
//! Subtraction and division are not commutative, so each comes in two
//! directed forms: the plain form applies left-to-right, the `Reverse` form
//! right-to-left. Every operator is partial: subtraction demands a
//! non-negative result and division demands an exact non-zero divisor.
//! A failed precondition is not an error, it merely prunes that branch.

use vstd::prelude::*;

verus! {

/// A directed binary operator over two expression values.
#[derive(Clone, Copy, Debug, PartialEq, Eq, Structural)]
pub enum Operator {
    Add,
    Sub,
    SubReverse,
    Mul,
    Div,
    DivReverse,
}

/// Whether `op` may be applied to left value `l` and right value `r`:
/// subtraction must not go negative, division must be exact and by non-zero.
pub open spec fn op_defined(op: Operator, l: nat, r: nat) -> bool {
    match op {
        Operator::Add => true,
        Operator::Sub => l >= r,
        Operator::SubReverse => r >= l,
        Operator::Mul => true,
        Operator::Div => r != 0 && l % r == 0,
        Operator::DivReverse => l != 0 && r % l == 0,
    }
}

/// The mathematical value of applying `op` to left value `l` and right
/// value `r`, when `op_defined` holds.
pub open spec fn op_value(op: Operator, l: nat, r: nat) -> nat
    recommends
        op_defined(op, l, r),
{
    match op {
        Operator::Add => l + r,
        Operator::Sub => (l - r) as nat,
        Operator::SubReverse => (r - l) as nat,
        Operator::Mul => l * r,
        Operator::Div => l / r,
        Operator::DivReverse => r / l,
    }
}

/// The directed operator with its operand roles swapped: applying the flip
/// to `(r, l)` means the same as applying the original to `(l, r)`.
pub open spec fn flip_op(op: Operator) -> Operator {
    match op {
        Operator::Add => Operator::Add,
        Operator::Sub => Operator::SubReverse,
        Operator::SubReverse => Operator::Sub,
        Operator::Mul => Operator::Mul,
        Operator::Div => Operator::DivReverse,
        Operator::DivReverse => Operator::Div,
    }
}

/// A directed operator applied to `(l, r)` agrees with its flip applied to
/// `(r, l)`: same definedness, same value.
pub proof fn lemma_op_flip(op: Operator, l: nat, r: nat)
    ensures
        op_defined(flip_op(op), r, l) == op_defined(op, l, r),
        op_defined(op, l, r) ==> op_value(flip_op(op), r, l) == op_value(op, l, r),
{
}

impl Operator {
    /// All six directed operators, in the order the search tries them.
    pub fn iterator() -> (r: Vec<Operator>)
        ensures
            r@ =~= seq![Operator::Add, Operator::Sub, Operator::SubReverse, Operator::Mul, Operator::Div, Operator::DivReverse],
    {
        let mut v: Vec<Operator> = Vec::new();
        v.push(Operator::Add);
        v.push(Operator::Sub);
        v.push(Operator::SubReverse);
        v.push(Operator::Mul);
        v.push(Operator::Div);
        v.push(Operator::DivReverse);
        v
    }

    /// The display symbol of this operator, padded as it appears in a
    /// rendered derivation. The reverse forms never appear in a rendering
    /// (they are normalized away first) and carry marker symbols.
    pub fn symbol(&self) -> (r: &'static str)
        ensures
            r@ == op_symbol(*self),
    {
        proof {
            reveal_strlit(" + ");
            reveal_strlit(" - ");
            reveal_strlit("<->");
            reveal_strlit(" * ");
            reveal_strlit(" / ");
            reveal_strlit("</>");
        }
        match self {
            Operator::Add => " + ",
            Operator::Sub => " - ",
            Operator::SubReverse => "<->",
            Operator::Mul => " * ",
            Operator::Div => " / ",
            Operator::DivReverse => "</>",
        }
    }
}

/// The character sequence `Operator::symbol` yields for each operator.
pub open spec fn op_symbol(op: Operator) -> Seq<char> {
    match op {
        Operator::Add => seq![' ', '+', ' '],
        Operator::Sub => seq![' ', '-', ' '],
        Operator::SubReverse => seq!['<', '-', '>'],
        Operator::Mul => seq![' ', '*', ' '],
        Operator::Div => seq![' ', '/', ' '],
        Operator::DivReverse => seq!['<', '/', '>'],
    }
}

/// Apply `op` to `(l, r)`, yielding `None` when the operator's precondition
/// fails or the result would reach `limit`. Rejecting large results keeps
/// every accepted value within the engine's encodable range instead of
/// silently truncating it.
pub fn apply_op(op: Operator, l: u32, r: u32, limit: u32) -> (res: Option<u32>)
    requires
        limit <= 0x8000_0000u32,
        l < limit,
        r < limit,
    ensures
        (match res {
            Some(v) => op_defined(op, l as nat, r as nat) && v < limit && v as nat == op_value(
                op,
                l as nat,
                r as nat,
            ),
            None => !(op_defined(op, l as nat, r as nat) && op_value(op, l as nat, r as nat)
                < limit),
        }),
{
    match op {
        Operator::Add => {
            let s: u32 = l + r;
            if s < limit {
                Some(s)
            } else {
                None
            }
        },
        Operator::Sub => {
            if l >= r {
                Some(l - r)
            } else {
                None
            }
        },
        Operator::SubReverse => {
            if r >= l {
                Some(r - l)
            } else {
                None
            }
        },
        Operator::Mul => {
            proof {
                assert((l as nat) * (r as nat) <= 0x7fff_ffff * 0x7fff_ffff) by (nonlinear_arith)
                    requires
                        l as nat <= 0x7fff_ffff,
                        r as nat <= 0x7fff_ffff,
                ;
            }
            let p: u64 = (l as u64) * (r as u64);
            if p < limit as u64 {
                Some(p as u32)
            } else {
                None
            }
        },
        Operator::Div => {
            if r != 0 && l % r == 0 {
                Some(l / r)
            } else {
                None
            }
        },
        Operator::DivReverse => {
            if l != 0 && r % l == 0 {
                Some(r / l)
            } else {
                None
            }
        },
    }
}

} // verus!
