//! The engine's governing laws, stated and proved once and for all.
//!
//! Soundness: every record's stored value is the arithmetic value of its
//! expression tree, and its leaves are exactly the input numbers its usage
//! mask selects — so a full-mask target record is a correct derivation of
//! the target from the whole input multiset.
//!
//! Completeness: once the search has terminated, every well-formed
//! expression over the inputs (disjoint slot usage, operator preconditions
//! respected, all intermediate values below the ceiling) has its
//! (value, mask) key in the closure set — so a full-mask expression for
//! the target implies the engine reports a solution.

use vstd::prelude::*;
use vstd::multiset::Multiset;

use crate::ops::{flip_op, lemma_op_flip, op_defined, op_value, Operator};
use crate::solver::{
    keys_distinct_in, leaf_key_present, lemma_limit_bounds, lemma_mask_union, lemma_single_bit,
    pair_closed, pair_op_closed, rec_has_key, record_wf_at, spec_full_mask, Expression, Record,
    Solver,
};

verus! {

broadcast use vstd::multiset::group_multiset_axioms, vstd::seq_lib::group_to_multiset_ensures;

/// The arithmetic value of the expression stored at arena index `i`.
pub open spec fn rec_eval(recs: Seq<Record>, i: int) -> nat
    decreases i,
{
    if 0 <= i < recs.len() {
        match recs[i].expr {
            Expression::Leaf(v) => v as nat,
            Expression::Node(l, op, r) => {
                if (l as int) < i && (r as int) < i {
                    op_value(op, rec_eval(recs, l as int), rec_eval(recs, r as int))
                } else {
                    0
                }
            },
        }
    } else {
        0
    }
}

/// The multiset of leaf values of the expression at arena index `i`.
pub open spec fn rec_leaves(recs: Seq<Record>, i: int) -> Multiset<u8>
    decreases i,
{
    if 0 <= i < recs.len() {
        match recs[i].expr {
            Expression::Leaf(v) => Multiset::empty().insert(v),
            Expression::Node(l, _op, r) => {
                if (l as int) < i && (r as int) < i {
                    rec_leaves(recs, l as int).add(rec_leaves(recs, r as int))
                } else {
                    Multiset::empty()
                }
            },
        }
    } else {
        Multiset::empty()
    }
}

/// The multiset of numbers that `mask` selects among the first `n` slots.
pub open spec fn mask_values(rolls: Seq<u8>, mask: u32, n: nat) -> Multiset<u8>
    decreases n,
{
    if n == 0 {
        Multiset::empty()
    } else {
        let rest = mask_values(rolls, mask, (n - 1) as nat);
        if (mask >> ((n - 1) as u32)) & 1 == 1 {
            rest.insert(rolls[n - 1])
        } else {
            rest
        }
    }
}

/// Inserting into a sum of multisets is inserting into the left part.
proof fn lemma_add_insert_left<V>(a: Multiset<V>, b: Multiset<V>, x: V)
    ensures
        a.add(b).insert(x) =~= a.insert(x).add(b),
{
}

/// Inserting into a sum of multisets is inserting into the right part.
proof fn lemma_add_insert_right<V>(a: Multiset<V>, b: Multiset<V>, x: V)
    ensures
        a.add(b).insert(x) =~= a.add(b.insert(x)),
{
}

/// A mask with no bit below `n` selects nothing there.
proof fn lemma_mask_values_none(rolls: Seq<u8>, mask: u32, n: nat)
    requires
        n <= 32,
        forall|j: u32| j < n ==> (mask >> j) & 1 == 0,
    ensures
        mask_values(rolls, mask, n) =~= Multiset::empty(),
    decreases n,
{
    if n > 0 {
        lemma_mask_values_none(rolls, mask, (n - 1) as nat);
        assert((mask >> ((n - 1) as u32)) & 1 == 0);
    }
}

/// A single-bit mask selects exactly that slot's number.
proof fn lemma_mask_values_single(rolls: Seq<u8>, k: u32, n: nat)
    requires
        k < n <= 32,
    ensures
        mask_values(rolls, 1u32 << k, n) =~= Multiset::empty().insert(rolls[k as int]),
    decreases n,
{
    let j: u32 = (n - 1) as u32;
    if k as nat == n - 1 {
        assert(((1u32 << k) >> j) & 1 == 1) by (bit_vector)
            requires
                k < 32,
                j == k,
        ;
        assert forall|j2: u32| j2 < (n - 1) as nat implies ((1u32 << k) >> j2) & 1 == 0 by {
            assert((j2 < k && k < 32) ==> ((1u32 << k) >> j2) & 1 == 0) by (bit_vector);
        }
        lemma_mask_values_none(rolls, 1u32 << k, (n - 1) as nat);
    } else {
        assert(((1u32 << k) >> j) & 1 == 0) by (bit_vector)
            requires
                k < 32,
                j < 32,
                k != j,
        ;
        lemma_mask_values_single(rolls, k, (n - 1) as nat);
    }
}

/// Selecting with the union of two disjoint masks selects the sum of what
/// each selects.
proof fn lemma_mask_values_union(rolls: Seq<u8>, m1: u32, m2: u32, n: nat)
    requires
        n <= 32,
        m1 & m2 == 0,
    ensures
        mask_values(rolls, m1 | m2, n) =~= mask_values(rolls, m1, n).add(mask_values(rolls, m2, n)),
    decreases n,
{
    if n > 0 {
        let j: u32 = (n - 1) as u32;
        lemma_mask_values_union(rolls, m1, m2, (n - 1) as nat);
        let b1 = (m1 >> j) & 1;
        let b2 = (m2 >> j) & 1;
        assert(((m1 | m2) >> j) & 1 == (b1 | b2)) by (bit_vector)
            requires
                b1 == (m1 >> j) & 1,
                b2 == (m2 >> j) & 1,
        ;
        assert(b1 == 0 || b1 == 1) by (bit_vector)
            requires
                b1 == (m1 >> j) & 1,
        ;
        assert(b2 == 0 || b2 == 1) by (bit_vector)
            requires
                b2 == (m2 >> j) & 1,
        ;
        assert(!(b1 == 1 && b2 == 1)) by (bit_vector)
            requires
                m1 & m2 == 0,
                b1 == (m1 >> j) & 1,
                b2 == (m2 >> j) & 1,
        ;
        let x = rolls[n - 1];
        let r1 = mask_values(rolls, m1, (n - 1) as nat);
        let r2 = mask_values(rolls, m2, (n - 1) as nat);
        if b1 == 1 {
            assert((b1 | b2) == 1) by (bit_vector)
                requires
                    b1 == 1,
                    b2 == 0,
            ;
            lemma_add_insert_left(r1, r2, x);
        } else if b2 == 1 {
            assert((b1 | b2) == 1) by (bit_vector)
                requires
                    b1 == 0,
                    b2 == 1,
            ;
            lemma_add_insert_right(r1, r2, x);
        } else {
            assert((b1 | b2) == 0) by (bit_vector)
                requires
                    b1 == 0,
                    b2 == 0,
            ;
        }
    }
}

/// The full mask selects every one of the first `n` numbers.
proof fn lemma_mask_values_full(rolls: Seq<u8>, count: u8, n: nat)
    requires
        1 <= count <= 24,
        n <= count as nat,
        rolls.len() == count as int,
    ensures
        mask_values(rolls, spec_full_mask(count), n) =~= rolls.subrange(0, n as int).to_multiset(),
    decreases n,
{
    if n == 0 {
        assert(rolls.subrange(0, 0).to_multiset() =~= Multiset::empty()) by {
            assert(rolls.subrange(0, 0) =~= Seq::<u8>::empty());
            Seq::<u8>::empty().to_multiset_ensures();
        }
    } else {
        let j: u32 = (n - 1) as u32;
        let sh: u32 = (32 - count) as u32;
        assert(((0xffff_ffffu32 >> sh) >> j) & 1 == 1) by (bit_vector)
            requires
                sh <= 31,
                j < 32 - sh,
        ;
        lemma_mask_values_full(rolls, count, (n - 1) as nat);
        let prefix = rolls.subrange(0, (n - 1) as int);
        assert(rolls.subrange(0, n as int) =~= prefix.push(rolls[n - 1]));
        assert(prefix.push(rolls[n - 1]).to_multiset() =~= prefix.to_multiset().insert(
            rolls[n - 1],
        ));
    }
}

/// Soundness of a record's stored value: it is the arithmetic value of the
/// expression tree rooted there.
pub proof fn lemma_rec_eval(recs: Seq<Record>, count: u8, rolls: Seq<u8>, i: int)
    requires
        forall|t: int| 0 <= t < recs.len() ==> #[trigger] record_wf_at(recs, count, rolls, t),
        0 <= i < recs.len(),
    ensures
        rec_eval(recs, i) == recs[i].value as nat,
    decreases i,
{
    assert(record_wf_at(recs, count, rolls, i));
    match recs[i].expr {
        Expression::Leaf(_v) => {},
        Expression::Node(l, _op, r) => {
            lemma_rec_eval(recs, count, rolls, l as int);
            lemma_rec_eval(recs, count, rolls, r as int);
        },
    }
}

/// Soundness of a record's usage mask: the multiset of leaf values of its
/// expression tree is exactly the numbers its mask selects.
pub proof fn lemma_rec_leaves(recs: Seq<Record>, count: u8, rolls: Seq<u8>, i: int)
    requires
        1 <= count <= 24,
        rolls.len() == count as int,
        forall|t: int| 0 <= t < recs.len() ==> #[trigger] record_wf_at(recs, count, rolls, t),
        0 <= i < recs.len(),
    ensures
        rec_leaves(recs, i) =~= mask_values(rolls, recs[i].mask, count as nat),
    decreases i,
{
    assert(record_wf_at(recs, count, rolls, i));
    match recs[i].expr {
        Expression::Leaf(v) => {
            let k = choose|k: int|
                0 <= k < count && recs[i].mask == 1u32 << (k as u32) && rolls[k] == v;
            lemma_mask_values_single(rolls, k as u32, count as nat);
        },
        Expression::Node(l, _op, r) => {
            lemma_rec_leaves(recs, count, rolls, l as int);
            lemma_rec_leaves(recs, count, rolls, r as int);
            lemma_mask_values_union(
                rolls,
                recs[l as int].mask,
                recs[r as int].mask,
                count as nat,
            );
        },
    }
}

/// Soundness of a solution record: a record carrying the target value
/// under the full usage mask evaluates to the target, and its leaves are
/// exactly the original input multiset — each number used once, none
/// omitted, none repeated.
pub proof fn lemma_solution_sound(s: Solver, i: int)
    requires
        s.wf(),
        0 <= i < s.records@.len(),
        s.records@[i].value == s.target_decoded as u32,
        s.records@[i].mask == spec_full_mask(s.count),
    ensures
        rec_eval(s.records@, i) == s.target_decoded as nat,
        rec_leaves(s.records@, i) =~= s.dierolls@.to_multiset(),
{
    lemma_rec_eval(s.records@, s.count, s.dierolls@, i);
    lemma_rec_leaves(s.records@, s.count, s.dierolls@, i);
    lemma_mask_values_full(s.dierolls@, s.count, s.count as nat);
    assert(s.dierolls@.subrange(0, s.count as int) =~= s.dierolls@);
}

/// The disjoint-mask invariant: an accepted internal node never combines
/// two expressions whose usage masks overlap, and its own mask is exactly
/// their union.
pub proof fn lemma_disjoint_masks(s: Solver, i: int)
    requires
        s.wf(),
        0 <= i < s.records@.len(),
    ensures
        s.records@[i].expr matches Expression::Node(l, _op, r) ==> {
            &&& (l as int) < i
            &&& (r as int) < i
            &&& s.records@[l as int].mask & s.records@[r as int].mask == 0
            &&& s.records@[i].mask == s.records@[l as int].mask | s.records@[r as int].mask
        },
{
    assert(record_wf_at(s.records@, s.count, s.dierolls@, i));
}

/// A one-number engine, once seeded, holds exactly the single leaf: the
/// only producible value is the number itself, so the target is reachable
/// if and only if it equals that number.
pub proof fn lemma_single_number(s: Solver)
    requires
        s.wf(),
        s.seeded,
        s.count == 1,
    ensures
        s.records@.len() == 1,
        s.has_target() <==> s.dierolls@[0] == s.target_decoded,
{
    let recs = s.records@;
    assert(spec_full_mask(1u8) == 1) by (bit_vector);
    assert(1u32 << 0 == 1) by (bit_vector);
    assert forall|t: int| 0 <= t < recs.len() implies recs[t].value == s.dierolls@[0] as u32
        && recs[t].mask == 1 by {
        assert(record_wf_at(recs, s.count, s.dierolls@, t));
        match recs[t].expr {
            Expression::Leaf(v) => {
                let k = choose|k: int|
                    0 <= k < s.count && recs[t].mask == 1u32 << (k as u32) && s.dierolls@[k] == v;
                assert(k == 0);
            },
            Expression::Node(l, _op, r) => {
                assert(record_wf_at(recs, s.count, s.dierolls@, l as int));
                assert(record_wf_at(recs, s.count, s.dierolls@, r as int));
                assert(recs[l as int].mask == 1 && recs[r as int].mask == 1);
                assert(1u32 & 1u32 != 0) by (bit_vector);
                assert(false);
            },
        }
    }
    assert(leaf_key_present(recs, s.dierolls@, 0));
    assert(recs.len() >= 1);
    if recs.len() > 1 {
        assert(keys_distinct_in(recs));
        assert(!(recs[0].value == recs[1].value && recs[0].mask == recs[1].mask));
        assert(false);
    }
    if s.dierolls@[0] == s.target_decoded {
        assert(recs[0].value == s.target_decoded as u32 && recs[0].mask == spec_full_mask(s.count));
        assert(s.has_target());
    }
    if s.has_target() {
        let w = choose|w: int|
            0 <= w < recs.len() && recs[w].value == s.target_decoded as u32 && recs[w].mask
                == spec_full_mask(s.count);
        assert(recs[w].value == s.dierolls@[0] as u32);
    }
}

/// Display normalization is value-preserving: the operand order and
/// operator a node is rendered with evaluate to the node's own value, and
/// the displayed operator is always one of the four plain forms.
pub proof fn lemma_display_sound(s: Solver, i: int)
    requires
        s.wf(),
        0 <= i < s.records@.len(),
    ensures
        s.records@[i].expr matches Expression::Node(l, op, r) ==> {
            let (dl, dop, dr) = crate::render::spec_display_parts(l, op, r);
            &&& op_value(
                dop,
                rec_eval(s.records@, dl as int),
                rec_eval(s.records@, dr as int),
            ) == rec_eval(s.records@, i)
            &&& (dop == Operator::Add || dop == Operator::Sub || dop == Operator::Mul || dop == Operator::Div)
        },
{
    assert(record_wf_at(s.records@, s.count, s.dierolls@, i));
    match s.records@[i].expr {
        Expression::Leaf(_v) => {},
        Expression::Node(l, op, r) => {
            lemma_rec_eval(s.records@, s.count, s.dierolls@, i);
            lemma_rec_eval(s.records@, s.count, s.dierolls@, l as int);
            lemma_rec_eval(s.records@, s.count, s.dierolls@, r as int);
            lemma_op_flip(op, rec_eval(s.records@, l as int), rec_eval(s.records@, r as int));
        },
    }
}

/// An abstract expression over input slots: a slot's number, or two
/// sub-expressions combined by a directed operator. This is the shape a
/// claimed solution takes when stating completeness; the engine itself
/// never builds one.
pub enum Formula {
    Num(u8),
    Apply(Box<Formula>, Operator, Box<Formula>),
}

/// The usage mask of a formula: the union of its slots' single-bit masks.
pub open spec fn f_mask(f: Formula) -> u32
    decreases f,
{
    match f {
        Formula::Num(k) => 1u32 << (k as u32),
        Formula::Apply(l, _op, r) => f_mask(*l) | f_mask(*r),
    }
}

/// The arithmetic value of a formula over the given numbers.
pub open spec fn f_val(f: Formula, rolls: Seq<u8>) -> nat
    decreases f,
{
    match f {
        Formula::Num(k) => rolls[k as int] as nat,
        Formula::Apply(l, op, r) => op_value(op, f_val(*l, rolls), f_val(*r, rolls)),
    }
}

/// A valid formula for `count` slots holding `rolls`, with every
/// intermediate value below `limit`: slots in range, sub-expressions over
/// disjoint slots, every operator's precondition met, no value at or above
/// the ceiling.
pub open spec fn f_wf(f: Formula, count: u8, rolls: Seq<u8>, limit: u32) -> bool
    decreases f,
{
    match f {
        Formula::Num(k) => (k as int) < count as int,
        Formula::Apply(l, op, r) => {
            &&& f_wf(*l, count, rolls, limit)
            &&& f_wf(*r, count, rolls, limit)
            &&& f_mask(*l) & f_mask(*r) == 0
            &&& op_defined(op, f_val(*l, rolls), f_val(*r, rolls))
            &&& op_value(op, f_val(*l, rolls), f_val(*r, rolls)) < limit
        },
    }
}

/// A valid formula uses at least one slot and no slot outside the input.
proof fn lemma_f_mask_bounds(f: Formula, count: u8, rolls: Seq<u8>, limit: u32)
    requires
        1 <= count <= 24,
        f_wf(f, count, rolls, limit),
    ensures
        f_mask(f) != 0,
        f_mask(f) <= spec_full_mask(count),
    decreases f,
{
    match f {
        Formula::Num(k) => {
            lemma_single_bit(count, k as u32);
        },
        Formula::Apply(l, _op, r) => {
            lemma_f_mask_bounds(*l, count, rolls, limit);
            lemma_f_mask_bounds(*r, count, rolls, limit);
            lemma_mask_union(count, f_mask(*l), f_mask(*r));
        },
    }
}

/// Once the work queue has fully drained, every valid formula's
/// (value, mask) key is in the closure set. The two operands of any
/// combination were discovered at different times; when the younger of the
/// two was expanded as an anchor, the older was already present, and the
/// six directed operators cover both operand orders.
proof fn lemma_formula_found(s: Solver, f: Formula)
    requires
        s.wf(),
        s.seeded,
        s.next_anchor == s.records@.len(),
        f_wf(f, s.count, s.dierolls@, s.limit()),
    ensures
        f_val(f, s.dierolls@) < s.limit(),
        rec_has_key(s.records@, f_val(f, s.dierolls@) as u32, f_mask(f)),
    decreases f,
{
    let recs = s.records@;
    let rolls = s.dierolls@;
    let limit = s.limit();
    lemma_limit_bounds(s.count);
    match f {
        Formula::Num(k) => {
            assert(leaf_key_present(recs, rolls, k as int));
        },
        Formula::Apply(l, op, r) => {
            lemma_formula_found(s, *l);
            lemma_formula_found(s, *r);
            lemma_f_mask_bounds(*l, s.count, rolls, limit);
            lemma_f_mask_bounds(*r, s.count, rolls, limit);
            let ml = f_mask(*l);
            let mr = f_mask(*r);
            let vl = f_val(*l, rolls);
            let vr = f_val(*r, rolls);
            lemma_mask_union(s.count, ml, mr);
            let il = choose|i: int|
                0 <= i < recs.len() && recs[i].value == vl as u32 && recs[i].mask == ml;
            let ir = choose|i: int|
                0 <= i < recs.len() && recs[i].value == vr as u32 && recs[i].mask == mr;
            assert(recs[il].value as nat == vl);
            assert(recs[ir].value as nat == vr);
            assert(ml != mr);
            assert(il != ir);
            if ir < il {
                assert(pair_closed(recs, limit, il, ir));
                assert(pair_op_closed(recs, limit, il, ir, op));
                assert(rec_has_key(recs, op_value(op, vl, vr) as u32, ml | mr));
            } else {
                assert(pair_closed(recs, limit, ir, il));
                lemma_op_flip(op, vl, vr);
                let fop = flip_op(op);
                assert(pair_op_closed(recs, limit, ir, il, fop));
                assert(op_value(fop, vr, vl) == op_value(op, vl, vr));
                assert(rec_has_key(recs, op_value(op, vl, vr) as u32, mr | ml));
            }
        },
    }
}

/// Completeness: if the search has terminated and some valid full-mask
/// formula evaluates to the target, the engine reports a solution. Order
/// of discovery does not matter, only the final verdict.
pub proof fn lemma_complete(s: Solver, f: Formula)
    requires
        s.wf(),
        s.done(),
        f_wf(f, s.count, s.dierolls@, s.limit()),
        f_mask(f) == spec_full_mask(s.count),
        f_val(f, s.dierolls@) == s.target_decoded as nat,
    ensures
        s.has_target(),
{
    if !s.has_target() {
        assert(s.next_anchor == s.records@.len());
        lemma_formula_found(s, f);
    }
}

} // verus!
