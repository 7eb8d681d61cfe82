//! Reconstruction of a readable derivation from the record arena.
//!
//! A leaf renders as its decimal value; a node renders as
//! `(left) op (right)`. The two reverse operators are normalized purely for
//! presentation: a `SubReverse` node prints as the plain subtraction of its
//! operands in swapped order, and likewise for `DivReverse`. The stored
//! tree is never altered. Recursion is bounded because a node's children
//! sit strictly earlier in the arena.

use vstd::prelude::*;

use crate::ops::{op_symbol, Operator};
use crate::solver::{rec_has_key, Expression, Record, Solver};

verus! {

/// The decimal digit character for `d`.
pub open spec fn spec_digit_char(d: nat) -> char
    recommends
        d < 10,
{
    if d == 0 {
        '0'
    } else if d == 1 {
        '1'
    } else if d == 2 {
        '2'
    } else if d == 3 {
        '3'
    } else if d == 4 {
        '4'
    } else if d == 5 {
        '5'
    } else if d == 6 {
        '6'
    } else if d == 7 {
        '7'
    } else if d == 8 {
        '8'
    } else {
        '9'
    }
}

/// The decimal rendering of `n`, most significant digit first, without
/// leading zeros (except for `n == 0` itself).
pub open spec fn spec_decimal(n: nat) -> Seq<char>
    decreases n,
{
    if n < 10 {
        seq![spec_digit_char(n)]
    } else {
        spec_decimal(n / 10) + seq![spec_digit_char(n % 10)]
    }
}

/// The operand order and operator actually displayed for a node: reverse
/// operators swap their operands and print as the plain form.
pub open spec fn spec_display_parts(l: usize, op: Operator, r: usize) -> (usize, Operator, usize) {
    match op {
        Operator::SubReverse => (r, Operator::Sub, l),
        Operator::DivReverse => (r, Operator::Div, l),
        _ => (l, op, r),
    }
}

/// The rendering of record `i` of `recs`: a leaf as its decimal value, a
/// node as `(left) op (right)` after display normalization.
pub open spec fn spec_render(recs: Seq<Record>, i: int) -> Seq<char>
    decreases i,
{
    if 0 <= i < recs.len() {
        match recs[i].expr {
            Expression::Leaf(v) => spec_decimal(v as nat),
            Expression::Node(l, op, r) => {
                if (l as int) < i && (r as int) < i {
                    let (dl, dop, dr) = spec_display_parts(l, op, r);
                    seq!['('] + spec_render(recs, dl as int) + seq![')'] + op_symbol(dop)
                        + seq!['('] + spec_render(recs, dr as int) + seq![')']
                } else {
                    Seq::empty()
                }
            },
        }
    } else {
        Seq::empty()
    }
}

/// The rendering of a bare expression node against the arena `recs`: what
/// `spec_render` yields once for the top of a record.
pub open spec fn spec_render_expr(recs: Seq<Record>, e: Expression) -> Seq<char> {
    match e {
        Expression::Leaf(v) => spec_decimal(v as nat),
        Expression::Node(l, op, r) => {
            if (l as int) < recs.len() && (r as int) < recs.len() {
                let (dl, dop, dr) = spec_display_parts(l, op, r);
                seq!['('] + spec_render(recs, dl as int) + seq![')'] + op_symbol(dop) + seq!['(']
                    + spec_render(recs, dr as int) + seq![')']
            } else {
                Seq::empty()
            }
        },
    }
}

/// The single-character string for one decimal digit.
fn digit_str(d: u8) -> (r: &'static str)
    requires
        d < 10,
    ensures
        r@ == seq![spec_digit_char(d as nat)],
{
    proof {
        reveal_strlit("0");
        reveal_strlit("1");
        reveal_strlit("2");
        reveal_strlit("3");
        reveal_strlit("4");
        reveal_strlit("5");
        reveal_strlit("6");
        reveal_strlit("7");
        reveal_strlit("8");
        reveal_strlit("9");
    }
    match d {
        0 => "0",
        1 => "1",
        2 => "2",
        3 => "3",
        4 => "4",
        5 => "5",
        6 => "6",
        7 => "7",
        8 => "8",
        _ => {
            proof {
                assert(d == 9);
            }
            "9"
        },
    }
}

/// The decimal string for a byte value.
fn u8_decimal(v: u8) -> (r: String)
    ensures
        r@ == spec_decimal(v as nat),
    decreases v,
{
    if v < 10 {
        digit_str(v).to_owned()
    } else {
        let mut s = u8_decimal(v / 10);
        s.append(digit_str(v % 10));
        s
    }
}

impl Solver {
    /// Render the expression at arena index `i` as a readable derivation.
    pub fn render_record(&self, i: usize) -> (r: String)
        requires
            self.wf(),
            i < self.records@.len(),
        ensures
            r@ == spec_render(self.records@, i as int),
        decreases i,
    {
        proof {
            assert(crate::solver::record_wf_at(self.records@, self.count, self.dierolls@, i as int));
            reveal_strlit("(");
            reveal_strlit(")");
        }
        let e = self.records[i].expr;
        match e {
            Expression::Leaf(v) => u8_decimal(v),
            Expression::Node(l0, op0, r0) => {
                let (dl, dop, dr) = match op0 {
                    Operator::SubReverse => (r0, Operator::Sub, l0),
                    Operator::DivReverse => (r0, Operator::Div, l0),
                    _ => (l0, op0, r0),
                };
                let mut s = String::new();
                s.append("(");
                let left = self.render_record(dl);
                s.append(left.as_str());
                s.append(")");
                s.append(dop.symbol());
                s.append("(");
                let right = self.render_record(dr);
                s.append(right.as_str());
                s.append(")");
                proof {
                    assert("("@ =~= seq!['(']);
                    assert(")"@ =~= seq![')']);
                    assert(s@ =~= spec_render(self.records@, i as int));
                }
                s
            },
        }
    }

    /// Render the expression tree `expr` against this engine's arena:
    /// a leaf as its value, a node as `(left) op (right)` with the reverse
    /// operators normalized away. Node operands must be valid arena
    /// indices.
    pub fn print_expr(&self, expr: Expression) -> (r: String)
        requires
            self.wf(),
            (expr matches Expression::Node(l, _op, rr) ==> (l as int) < self.records@.len() && (
            rr as int) < self.records@.len()),
        ensures
            r@ == spec_render_expr(self.records@, expr),
    {
        proof {
            reveal_strlit("(");
            reveal_strlit(")");
        }
        match expr {
            Expression::Leaf(v) => u8_decimal(v),
            Expression::Node(l0, op0, r0) => {
                let (dl, dop, dr) = match op0 {
                    Operator::SubReverse => (r0, Operator::Sub, l0),
                    Operator::DivReverse => (r0, Operator::Div, l0),
                    _ => (l0, op0, r0),
                };
                let mut s = String::new();
                s.append("(");
                let left = self.render_record(dl);
                s.append(left.as_str());
                s.append(")");
                s.append(dop.symbol());
                s.append("(");
                let right = self.render_record(dr);
                s.append(right.as_str());
                s.append(")");
                proof {
                    assert("("@ =~= seq!['(']);
                    assert(")"@ =~= seq![')']);
                    assert(s@ =~= spec_render_expr(self.records@, expr));
                }
                s
            },
        }
    }

    /// Render the derivation of the expression stored under a canonical
    /// key, or `"0"` when no such expression has been discovered.
    pub fn printer(&self, encoded_value: u32) -> (r: String)
        requires
            self.wf(),
        ensures
            ({
                let v = encoded_value >> (self.count as u32);
                let m = encoded_value & crate::solver::spec_full_mask(self.count);
                if rec_has_key(self.records@, v, m) {
                    exists|i: int|
                        0 <= i < self.records@.len() && self.records@[i].value == v
                            && self.records@[i].mask == m && r@ == spec_render(self.records@, i)
                } else {
                    r@ == seq!['0']
                }
            }),
    {
        let v = self.expr_to_value(encoded_value);
        let m = self.expr_to_numbers(encoded_value);
        match self.find_key(v, m) {
            Some(i) => {
                let s = self.render_record(i);
                proof {
                    assert(0 <= i as int && (i as int) < self.records@.len()
                        && self.records@[i as int].value == v && self.records@[i as int].mask == m
                        && s@ == spec_render(self.records@, i as int));
                }
                s
            },
            None => {
                proof {
                    reveal_strlit("0");
                    assert("0"@ =~= seq!['0']);
                }
                "0".to_owned()
            },
        }
    }

    /// Render the derivation of the target, or `None` when the search has
    /// not produced one.
    pub fn render_solution(&self) -> (r: Option<String>)
        requires
            self.wf(),
        ensures
            r is Some <==> self.has_target(),
            (r matches Some(s) ==> exists|i: int|
                0 <= i < self.records@.len() && self.records@[i].value
                    == self.target_decoded as u32 && self.records@[i].mask == self.full_mask()
                    && s@ == spec_render(self.records@, i)),
    {
        let c: u32 = self.count as u32;
        let full: u32 = 0xffff_ffffu32 >> (32 - c);
        match self.find_key(self.target_decoded as u32, full) {
            Some(i) => {
                let s = self.render_record(i);
                proof {
                    assert(rec_has_key(
                        self.records@,
                        self.target_decoded as u32,
                        self.full_mask(),
                    ));
                }
                Some(s)
            },
            None => None,
        }
    }
}

} // verus!
