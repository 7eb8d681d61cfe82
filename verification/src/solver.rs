//! The expression closure engine.
//!
//! The engine maintains a growing arena of expression records. Each record
//! is either a leaf (one input slot's number) or an internal node combining
//! two earlier records with a directed operator. A record is identified for
//! deduplication by the pair (computed value, usage mask); the usage mask
//! has bit `i` set when input slot `i` has been consumed. The search runs
//! breadth-first: every record enters a FIFO work queue exactly once, here
//! realized as the arena's insertion order together with a cursor
//! (`next_anchor`) marking the first record not yet expanded.

use vstd::prelude::*;
use vstd::set_lib::{lemma_len_subset, lemma_int_range, set_int_range};

use crate::ops::{op_defined, op_value, apply_op, Operator};

verus! {

/// One expression: a single input slot's number, or two earlier records
/// (by arena index) combined with a directed operator.
#[derive(Clone, Copy, Debug)]
pub enum Expression {
    Leaf(u8),
    Node(usize, Operator, usize),
}

/// One discovered expression: its computed value, the usage mask of input
/// slots it consumes, and its structure.
#[derive(Clone, Copy, Debug)]
pub struct Record {
    pub value: u32,
    pub mask: u32,
    pub expr: Expression,
}

/// Why an engine could not be constructed.
#[derive(Clone, Copy, Debug, PartialEq, Eq, Structural)]
pub enum ConfigError {
    /// The number sequence is empty.
    NoNumbers,
    /// The number sequence has more slots than the key encoding can address.
    TooManyNumbers,
}

/// Exclusive upper bound on expression values the engine accepts: with
/// `count` mask bits, a value must fit in the remaining high bits of a
/// 32-bit canonical key. Candidate values at or above this ceiling are
/// skipped rather than truncated.
pub open spec fn spec_limit(count: u8) -> u32 {
    1u32 << ((32 - count) as u32)
}

/// The mask with exactly the low `count` bits set: every input slot used.
pub open spec fn spec_full_mask(count: u8) -> u32 {
    0xffff_ffffu32 >> ((32 - count) as u32)
}

/// The canonical key of (value, usage mask): value in the high bits, the
/// low `count` bits of the mask below it.
pub open spec fn spec_encode(count: u8, value: u32, numbers: u32) -> u32 {
    (value << (count as u32)) | (numbers & spec_full_mask(count))
}

/// Whether some record in `recs` carries exactly this value and mask.
pub open spec fn rec_has_key(recs: Seq<Record>, v: u32, m: u32) -> bool {
    exists|i: int| 0 <= i < recs.len() && recs[i].value == v && recs[i].mask == m
}

/// `r2` keeps every record of `r1`, at the same index.
pub open spec fn extends(r2: Seq<Record>, r1: Seq<Record>) -> bool {
    &&& r1.len() <= r2.len()
    &&& forall|i: int| 0 <= i < r1.len() ==> r2[i] == r1[i]
}

/// The combination of record `j` (left) with record `i` (right) under `op`
/// has been accounted for: if their masks are disjoint and `op` applies
/// with a result below `limit`, the resulting key is present.
pub open spec fn pair_op_closed(recs: Seq<Record>, limit: u32, j: int, i: int, op: Operator) -> bool
    recommends
        0 <= j < recs.len(),
        0 <= i < recs.len(),
{
    let lv = recs[j].value as nat;
    let rv = recs[i].value as nat;
    (recs[j].mask & recs[i].mask == 0 && op_defined(op, lv, rv) && op_value(op, lv, rv) < limit)
        ==> rec_has_key(recs, op_value(op, lv, rv) as u32, recs[j].mask | recs[i].mask)
}

/// All six directed operators have been accounted for on the pair (j, i).
pub open spec fn pair_closed(recs: Seq<Record>, limit: u32, j: int, i: int) -> bool
    recommends
        0 <= j < recs.len(),
        0 <= i < recs.len(),
{
    &&& pair_op_closed(recs, limit, j, i, Operator::Add)
    &&& pair_op_closed(recs, limit, j, i, Operator::Sub)
    &&& pair_op_closed(recs, limit, j, i, Operator::SubReverse)
    &&& pair_op_closed(recs, limit, j, i, Operator::Mul)
    &&& pair_op_closed(recs, limit, j, i, Operator::Div)
    &&& pair_op_closed(recs, limit, j, i, Operator::DivReverse)
}

/// Every already-expanded anchor `j < n` has been combined with every record
/// older than itself. Newer partners are reached later, when they are the
/// anchor and `j` is the older side: the reverse operators make the two
/// orientations interchangeable.
pub open spec fn closed_upto(recs: Seq<Record>, limit: u32, n: int) -> bool {
    forall|j: int, i: int|
        0 <= j < n <= recs.len() && 0 <= i < j ==> #[trigger] pair_closed(recs, limit, j, i)
}

/// The leaf record for slot `k` is present among `recs`: value `rolls[k]`,
/// mask with exactly bit `k` set.
pub open spec fn leaf_key_present(recs: Seq<Record>, rolls: Seq<u8>, k: int) -> bool {
    rec_has_key(recs, rolls[k] as u32, 1u32 << (k as u32))
}

/// Structural soundness of record `i` of `recs`, for `count` slots holding
/// the numbers `rolls`: its mask is a non-empty subset of the slots, its
/// value is below the ceiling, a leaf carries some slot's number under that
/// slot's single-bit mask, and a node combines two strictly earlier records
/// with disjoint masks, its own mask their union and its value the operator
/// applied to theirs.
pub open spec fn record_wf_at(recs: Seq<Record>, count: u8, rolls: Seq<u8>, i: int) -> bool
    recommends
        0 <= i < recs.len(),
{
    let r = recs[i];
    &&& r.mask != 0
    &&& r.mask <= spec_full_mask(count)
    &&& r.value < spec_limit(count)
    &&& match r.expr {
        Expression::Leaf(v) => {
            &&& r.value == v as u32
            &&& exists|k: int|
                0 <= k < count && r.mask == 1u32 << (k as u32) && #[trigger] rolls[k] == v
        },
        Expression::Node(l, op, rr) => {
            &&& (l as int) < i
            &&& (rr as int) < i
            &&& recs[l as int].mask & recs[rr as int].mask == 0
            &&& r.mask == recs[l as int].mask | recs[rr as int].mask
            &&& op_defined(op, recs[l as int].value as nat, recs[rr as int].value as nat)
            &&& r.value as nat == op_value(
                op,
                recs[l as int].value as nat,
                recs[rr as int].value as nat,
            )
        },
    }
}

/// No two records of `recs` share the (value, mask) deduplication key.
pub open spec fn keys_distinct_in(recs: Seq<Record>) -> bool {
    forall|i: int, j: int|
        0 <= i < j < recs.len() ==> !(#[trigger] recs[i].value == #[trigger] recs[j].value
            && recs[i].mask == recs[j].mask)
}

/// The expression-closure engine over one number sequence and one target.
#[derive(Debug)]
pub struct Solver {
    /// Number of input slots; also the width of every usage mask.
    pub count: u8,
    /// The input numbers, one per slot.
    pub dierolls: Vec<u8>,
    /// The target value, as given.
    pub target_decoded: u8,
    /// The canonical key of (target value, full mask).
    pub target_encoded: u32,
    /// Every distinct expression discovered so far, in discovery order.
    pub records: Vec<Record>,
    /// Index of the first record not yet expanded as a left operand.
    pub next_anchor: usize,
    /// Whether the per-slot leaf records have been inserted.
    pub seeded: bool,
}

impl Solver {
    /// Exclusive ceiling on values this engine can encode.
    pub open spec fn limit(self) -> u32 {
        spec_limit(self.count)
    }

    /// The mask in which every input slot is consumed.
    pub open spec fn full_mask(self) -> u32 {
        spec_full_mask(self.count)
    }

    /// The leaf record for slot `k` is present: value `dierolls[k]`,
    /// mask with exactly bit `k` set.
    pub open spec fn leaf_present(self, k: int) -> bool {
        leaf_key_present(self.records@, self.dierolls@, k)
    }

    /// Structural soundness of record `i`, see `record_wf_at`.
    pub open spec fn record_wf(self, i: int) -> bool
        recommends
            0 <= i < self.records@.len(),
    {
        record_wf_at(self.records@, self.count, self.dierolls@, i)
    }

    /// No two records share the (value, mask) deduplication key.
    pub open spec fn keys_distinct(self) -> bool {
        keys_distinct_in(self.records@)
    }

    /// The engine's invariant, established at construction and preserved by
    /// every step of the search.
    pub open spec fn wf(self) -> bool {
        &&& 1 <= self.count <= 24
        &&& self.dierolls@.len() == self.count as int
        &&& self.target_encoded == spec_encode(self.count, self.target_decoded as u32, self.full_mask())
        &&& self.next_anchor <= self.records@.len()
        &&& forall|i: int|
            0 <= i < self.records@.len() ==> #[trigger] record_wf_at(
                self.records@,
                self.count,
                self.dierolls@,
                i,
            )
        &&& keys_distinct_in(self.records@)
        &&& (self.seeded ==> forall|k: int|
            0 <= k < self.count ==> #[trigger] leaf_key_present(self.records@, self.dierolls@, k))
        &&& (!self.seeded ==> self.records@.len() == 0 && self.next_anchor == 0)
        &&& closed_upto(self.records@, self.limit(), self.next_anchor as int)
    }

    /// A record with the target value consuming every slot exists.
    pub open spec fn has_target(self) -> bool {
        rec_has_key(self.records@, self.target_decoded as u32, self.full_mask())
    }

    /// The search has terminated: seeded, and either the work queue is
    /// drained or the target has been found.
    pub open spec fn done(self) -> bool {
        &&& self.seeded
        &&& (self.next_anchor == self.records@.len() || self.has_target())
    }

    /// Construct an engine for the given numbers and target, with an empty
    /// closure set. Rejects an empty sequence and one with more slots than
    /// the 32-bit key encoding can address. The target always fits the
    /// value budget: at most 24 mask bits leave at least 8 value bits, and
    /// the target is a byte.
    pub fn new(dierolls: Vec<u8>, target: u8) -> (r: Result<Solver, ConfigError>)
        ensures
            (r matches Err(ConfigError::NoNumbers)) <==> dierolls@.len() == 0,
            (r matches Err(ConfigError::TooManyNumbers)) <==> dierolls@.len() > 24,
            r matches Ok(s) ==> {
                &&& s.wf()
                &&& s.dierolls@ == dierolls@
                &&& s.count as int == dierolls@.len()
                &&& s.target_decoded == target
                &&& s.records@.len() == 0
                &&& s.next_anchor == 0
                &&& !s.seeded
            },
            (r is Ok) <==> (1 <= dierolls@.len() <= 24),
    {
        if dierolls.len() == 0 {
            return Err(ConfigError::NoNumbers);
        }
        if dierolls.len() > 24 {
            return Err(ConfigError::TooManyNumbers);
        }
        let count: u8 = dierolls.len() as u8;
        let c: u32 = count as u32;
        let full: u32 = 0xffff_ffffu32 >> (32 - c);
        let target_encoded: u32 = ((target as u32) << c) | full;
        let s = Solver {
            count,
            dierolls,
            target_decoded: target,
            target_encoded,
            records: Vec::new(),
            next_anchor: 0,
            seeded: false,
        };
        proof {
            assert(full & full == full) by (bit_vector);
            assert(s.target_encoded == spec_encode(s.count, s.target_decoded as u32, s.full_mask()));
        }
        Ok(s)
    }

    /// Exclusive ceiling on values this engine can encode, as a run-time
    /// value.
    pub fn value_limit(&self) -> (r: u32)
        requires
            1 <= self.count <= 24,
        ensures
            r == self.limit(),
    {
        1u32 << (32 - self.count as u32)
    }

    /// Pack (value, numbers) into a canonical key: the value in the high
    /// bits, the low `count` bits of `numbers` below it. The value must be
    /// below the engine's ceiling, so nothing is truncated and the two
    /// halves can be recovered exactly.
    pub fn encode_expr(&self, value: u32, numbers: u32) -> (r: u32)
        requires
            1 <= self.count <= 24,
            value < self.limit(),
        ensures
            r == spec_encode(self.count, value, numbers),
            r >> (self.count as u32) == value,
            r & spec_full_mask(self.count) == numbers & spec_full_mask(self.count),
    {
        let c: u32 = self.count as u32;
        let full: u32 = 0xffff_ffffu32 >> (32 - c);
        let r = (value << c) | (numbers & full);
        proof {
            let v = value;
            let n = numbers;
            assert((1 <= c <= 24 && v < (1u32 << ((32 - c) as u32))) ==> {
                let f = 0xffff_ffffu32 >> ((32 - c) as u32);
                &&& ((v << c) | (n & f)) >> c == v
                &&& ((v << c) | (n & f)) & f == n & f
            }) by (bit_vector);
        }
        r
    }

    /// Recover the value half of a canonical key.
    pub fn expr_to_value(&self, expr: u32) -> (r: u32)
        requires
            1 <= self.count <= 24,
        ensures
            r == expr >> (self.count as u32),
    {
        expr >> (self.count as u32)
    }

    /// Recover the usage-mask half of a canonical key.
    pub fn expr_to_numbers(&self, expr: u32) -> (r: u32)
        requires
            1 <= self.count <= 24,
        ensures
            r == expr & spec_full_mask(self.count),
    {
        let c: u32 = self.count as u32;
        expr & (0xffff_ffffu32 >> (32 - c))
    }

    /// Linear scan for the record with this (value, mask) key.
    pub fn find_key(&self, v: u32, m: u32) -> (r: Option<usize>)
        ensures
            (match r {
                Some(i) => i < self.records@.len() && self.records@[i as int].value == v
                    && self.records@[i as int].mask == m,
                None => !rec_has_key(self.records@, v, m),
            }),
    {
        let n = self.records.len();
        let mut i: usize = 0;
        while i < n
            invariant
                i <= n,
                n == self.records@.len(),
                forall|k: int|
                    0 <= k < i ==> !(#[trigger] self.records@[k].value == v && self.records@[k].mask
                        == m),
            decreases n - i,
        {
            if self.records[i].value == v && self.records[i].mask == m {
                return Some(i);
            }
            i += 1;
        }
        None
    }

    /// Whether the closure set already holds this (value, mask) key.
    pub fn contains_key(&self, v: u32, m: u32) -> (r: bool)
        ensures
            r == rec_has_key(self.records@, v, m),
    {
        self.find_key(v, m).is_some()
    }

    /// Try one directed operator on anchor record `j` (left operand) and
    /// candidate record `i` (right operand); insert the resulting
    /// expression when its (value, mask) key is new. Overlapping masks, a
    /// failed operator precondition and an out-of-range value are silently
    /// skipped branches, not errors.
    fn combine(&mut self, j: usize, i: usize, op: Operator)
        requires
            old(self).wf(),
            j < old(self).records@.len(),
            i < old(self).records@.len(),
        ensures
            final(self).wf(),
            final(self).count == old(self).count,
            final(self).dierolls@ == old(self).dierolls@,
            final(self).target_decoded == old(self).target_decoded,
            final(self).target_encoded == old(self).target_encoded,
            final(self).next_anchor == old(self).next_anchor,
            final(self).seeded == old(self).seeded,
            extends(final(self).records@, old(self).records@),
            pair_op_closed(final(self).records@, final(self).limit(), j as int, i as int, op),
    {
        proof {
            assert(record_wf_at(self.records@, self.count, self.dierolls@, j as int));
            assert(record_wf_at(self.records@, self.count, self.dierolls@, i as int));
            lemma_limit_bounds(self.count);
        }
        let lm = self.records[j].mask;
        let lv = self.records[j].value;
        let rm = self.records[i].mask;
        let rv = self.records[i].value;
        if lm & rm != 0 {
            return;
        }
        let limit = self.value_limit();
        match apply_op(op, lv, rv, limit) {
            None => {},
            Some(v) => {
                let m = lm | rm;
                if !self.contains_key(v, m) {
                    let ghost old_recs = self.records@;
                    self.records.push(Record { value: v, mask: m, expr: Expression::Node(j, op, i) });
                    proof {
                        let recs = self.records@;
                        let newi = old_recs.len() as int;
                        lemma_mask_union(self.count, lm, rm);
                        assert(extends(recs, old_recs));
                        assert forall|t: int| 0 <= t < recs.len() implies record_wf_at(
                            recs,
                            self.count,
                            self.dierolls@,
                            t,
                        ) by {
                            if t < newi {
                                assert(record_wf_at(old_recs, self.count, self.dierolls@, t));
                                assert(recs[t] == old_recs[t]);
                                match recs[t].expr {
                                    Expression::Leaf(v) => {
                                        let k = choose|k: int|
                                            0 <= k < self.count && old_recs[t].mask == 1u32
                                                << (k as u32) && self.dierolls@[k] == v;
                                        assert(self.dierolls@[k] == v);
                                    },
                                    Expression::Node(l, _op2, rr) => {
                                        assert(recs[l as int] == old_recs[l as int]);
                                        assert(recs[rr as int] == old_recs[rr as int]);
                                    },
                                }
                            } else {
                                assert(recs[t].mask == lm | rm);
                                assert(recs[j as int] == old_recs[j as int]);
                                assert(recs[i as int] == old_recs[i as int]);
                            }
                        }
                        assert(keys_distinct_in(recs));
                        if self.seeded {
                            assert forall|k: int| 0 <= k < self.count implies #[trigger] leaf_key_present(
                                recs,
                                self.dierolls@,
                                k,
                            ) by {
                                assert(leaf_key_present(old_recs, self.dierolls@, k));
                                lemma_has_key_extends(
                                    old_recs,
                                    recs,
                                    self.dierolls@[k] as u32,
                                    1u32 << (k as u32),
                                );
                            }
                        }
                        lemma_closed_upto_extends(
                            old_recs,
                            recs,
                            self.limit(),
                            self.next_anchor as int,
                        );
                        assert(recs[newi].value == v && recs[newi].mask == m);
                        assert(rec_has_key(recs, v, m));
                    }
                }
            },
        }
    }

    /// Run the closure search to completion: seed the per-slot leaves once,
    /// then expand anchors in queue order, combining each with every record
    /// older than itself under all six directed operators, until the target
    /// key appears or no anchor is left. Running it again after it has
    /// terminated changes nothing.
    pub fn solve(&mut self)
        requires
            old(self).wf(),
        ensures
            final(self).wf(),
            final(self).done(),
            final(self).count == old(self).count,
            final(self).dierolls@ == old(self).dierolls@,
            final(self).target_decoded == old(self).target_decoded,
            final(self).target_encoded == old(self).target_encoded,
            extends(final(self).records@, old(self).records@),
            old(self).done() ==> *final(self) == *old(self),
    {
        if self.seeded {
            if self.next_anchor == self.records.len() {
                return;
            }
            if self.has_solution() {
                return;
            }
        }
        if !self.seeded {
            let count = self.count;
            let mut k: u8 = 0;
            while k < count
                invariant
                    1 <= count <= 24,
                    self.count == count,
                    self.dierolls@ == old(self).dierolls@,
                    self.target_decoded == old(self).target_decoded,
                    self.target_encoded == old(self).target_encoded,
                    self.dierolls@.len() == count as int,
                    !self.seeded,
                    self.next_anchor == 0,
                    k <= count,
                    self.records@.len() == k as int,
                    forall|t: int|
                        0 <= t < k as int ==> {
                            &&& (#[trigger] self.records@[t]).mask == 1u32 << (t as u32)
                            &&& self.records@[t].value == self.dierolls@[t] as u32
                            &&& (self.records@[t].expr matches Expression::Leaf(v) && v
                                == self.dierolls@[t])
                        },
                decreases count - k,
            {
                let die = self.dierolls[k as usize];
                self.records.push(
                    Record { value: die as u32, mask: 1u32 << (k as u32), expr: Expression::Leaf(die) },
                );
                k += 1;
            }
            self.seeded = true;
            proof {
                lemma_limit_bounds(count);
                assert forall|t: int| 0 <= t < self.records@.len() implies record_wf_at(
                    self.records@,
                    count,
                    self.dierolls@,
                    t,
                ) by {
                    lemma_single_bit(count, t as u32);
                    let r = self.records@[t];
                    assert(r.mask == 1u32 << (t as u32));
                    assert(r.value < self.limit());
                    match r.expr {
                        Expression::Leaf(v) => {
                            assert(v == self.dierolls@[t]);
                            assert(0 <= t < self.count && r.mask == 1u32 << (t as u32)
                                && self.dierolls@[t] == v);
                        },
                        Expression::Node(_l, _op2, _rr) => {
                            assert(false);
                        },
                    }
                }
                assert forall|t1: int, t2: int|
                    0 <= t1 < t2 < self.records@.len() implies !(#[trigger] self.records@[t1].value
                    == #[trigger] self.records@[t2].value && self.records@[t1].mask
                    == self.records@[t2].mask) by {
                    lemma_single_bits_distinct(t1 as u32, t2 as u32);
                }
                assert forall|k2: int| 0 <= k2 < self.count implies #[trigger] leaf_key_present(
                    self.records@,
                    self.dierolls@,
                    k2,
                ) by {
                    assert(self.records@[k2].value == self.dierolls@[k2] as u32
                        && self.records@[k2].mask == 1u32 << (k2 as u32));
                }
                assert(self.wf());
            }
        }
        while self.next_anchor < self.records.len() && !self.has_solution()
            invariant
                self.wf(),
                self.seeded,
                self.count == old(self).count,
                self.dierolls@ == old(self).dierolls@,
                self.target_decoded == old(self).target_decoded,
                self.target_encoded == old(self).target_encoded,
                extends(self.records@, old(self).records@),
            decreases
                    0x1_0000_0000_0000_0001int - self.records@.len(),
                    self.records@.len() - self.next_anchor,
        {
            let j = self.next_anchor;
            let snapshot_len = self.records.len();
            let mut i: usize = 0;
            while i < snapshot_len
                invariant
                    self.wf(),
                    self.seeded,
                    self.count == old(self).count,
                    self.dierolls@ == old(self).dierolls@,
                    self.target_decoded == old(self).target_decoded,
                    self.target_encoded == old(self).target_encoded,
                    extends(self.records@, old(self).records@),
                    j == self.next_anchor,
                    (j as int) < self.records@.len(),
                    snapshot_len <= self.records@.len(),
                    i <= snapshot_len,
                    forall|t: int|
                        0 <= t < i as int ==> #[trigger] pair_closed(
                            self.records@,
                            self.limit(),
                            j as int,
                            t,
                        ),
                decreases snapshot_len - i,
            {
                let ghost rstart = self.records@;
                let ghost lim = self.limit();
                self.combine(j, i, Operator::Add);
                let ghost r1 = self.records@;
                self.combine(j, i, Operator::Sub);
                let ghost r2 = self.records@;
                self.combine(j, i, Operator::SubReverse);
                let ghost r3 = self.records@;
                self.combine(j, i, Operator::Mul);
                let ghost r4 = self.records@;
                self.combine(j, i, Operator::Div);
                let ghost r5 = self.records@;
                self.combine(j, i, Operator::DivReverse);
                proof {
                    let rf = self.records@;
                    lemma_extends_trans(r2, r1, rstart);
                    lemma_extends_trans(r3, r2, rstart);
                    lemma_extends_trans(r4, r3, rstart);
                    lemma_extends_trans(r5, r4, rstart);
                    lemma_extends_trans(rf, r5, rstart);
                    lemma_extends_trans(rf, r5, r1);
                    lemma_extends_trans(rf, r5, r2);
                    lemma_extends_trans(rf, r5, r3);
                    lemma_extends_trans(rf, r5, r4);
                    lemma_pair_op_extends(r1, rf, lim, j as int, i as int, Operator::Add);
                    lemma_pair_op_extends(r2, rf, lim, j as int, i as int, Operator::Sub);
                    lemma_pair_op_extends(r3, rf, lim, j as int, i as int, Operator::SubReverse);
                    lemma_pair_op_extends(r4, rf, lim, j as int, i as int, Operator::Mul);
                    lemma_pair_op_extends(r5, rf, lim, j as int, i as int, Operator::Div);
                    assert(pair_closed(rf, lim, j as int, i as int));
                    assert forall|t: int| 0 <= t < (i + 1) as int implies #[trigger] pair_closed(
                        rf,
                        lim,
                        j as int,
                        t,
                    ) by {
                        if t < i as int {
                            assert(pair_closed(rstart, lim, j as int, t));
                            lemma_pair_extends(rstart, rf, lim, j as int, t);
                        }
                    }
                    lemma_extends_trans(rf, rstart, old(self).records@);
                }
                i += 1;
            }
            proof {
                let recs = self.records@;
                let lim = self.limit();
                assert forall|jj: int, ii: int|
                    0 <= jj < (j + 1) as int <= recs.len() && 0 <= ii < jj implies #[trigger] pair_closed(
                    recs,
                    lim,
                    jj,
                    ii,
                ) by {
                    if jj < j as int {
                        assert(closed_upto(recs, lim, j as int));
                        assert(pair_closed(recs, lim, jj, ii));
                    } else {
                        assert(jj == j as int);
                        assert(ii < snapshot_len as int);
                        assert(pair_closed(recs, lim, j as int, ii));
                    }
                }
                assert(closed_upto(recs, lim, (j + 1) as int));
            }
            self.next_anchor = j + 1;
            proof {
                lemma_records_bounded(*self);
            }
        }
    }

    /// True iff the target has been reached: some record carries the target
    /// value under the full usage mask.
    pub fn has_solution(&self) -> (r: bool)
        requires
            1 <= self.count <= 24,
        ensures
            r == self.has_target(),
    {
        let c: u32 = self.count as u32;
        let full: u32 = 0xffff_ffffu32 >> (32 - c);
        self.contains_key(self.target_decoded as u32, full)
    }
}

/// The value ceiling leaves at least the low eight bits' worth of room and
/// never exceeds half the key space.
pub proof fn lemma_limit_bounds(count: u8)
    requires
        1 <= count <= 24,
    ensures
        256 <= spec_limit(count) <= 0x8000_0000u32,
{
    let sh: u32 = (32 - count) as u32;
    assert((8 <= sh <= 31) ==> (256 <= (1u32 << sh) <= 0x8000_0000u32)) by (bit_vector);
}

/// A single-bit mask for a slot below `count` is non-empty and within the
/// full mask; two different slots give two different masks.
pub proof fn lemma_single_bit(count: u8, k: u32)
    requires
        1 <= count <= 24,
        k < count,
    ensures
        (1u32 << k) != 0,
        (1u32 << k) <= spec_full_mask(count),
{
    let c: u32 = count as u32;
    let sh: u32 = (32 - count) as u32;
    assert((k < c && c <= 24 && sh == 32 - c) ==> ((1u32 << k) != 0 && (1u32 << k)
        <= (0xffff_ffffu32 >> sh))) by (bit_vector);
}

/// Distinct shift amounts below 32 give distinct single-bit masks.
pub proof fn lemma_single_bits_distinct(k1: u32, k2: u32)
    requires
        k1 < 32,
        k2 < 32,
        k1 != k2,
    ensures
        (1u32 << k1) != (1u32 << k2),
{
    assert((k1 < 32 && k2 < 32 && k1 != k2) ==> ((1u32 << k1) != (1u32 << k2))) by (bit_vector);
}

/// Facts about combining two masks within the full mask: the union stays
/// within it, stays non-empty, and the bitwise operators commute.
pub proof fn lemma_mask_union(count: u8, a: u32, b: u32)
    requires
        1 <= count <= 24,
        a <= spec_full_mask(count),
        b <= spec_full_mask(count),
    ensures
        (a | b) <= spec_full_mask(count),
        a != 0 ==> (a | b) != 0,
        a | b == b | a,
        a & b == b & a,
        (a & b == 0 && a != 0) ==> a != b,
{
    let sh: u32 = (32 - count) as u32;
    assert((a <= (0xffff_ffffu32 >> sh) && b <= (0xffff_ffffu32 >> sh)) ==> ((a | b)
        <= (0xffff_ffffu32 >> sh))) by (bit_vector);
    assert(a != 0 ==> (a | b) != 0) by (bit_vector);
    assert(a | b == b | a) by (bit_vector);
    assert(a & b == b & a) by (bit_vector);
    assert((a & b == 0 && a != 0) ==> a != b) by (bit_vector);
}

/// The closure set cannot grow forever: records carry pairwise-distinct
/// (value, mask) keys, so there can be at most one per possible key pair.
pub proof fn lemma_records_bounded(s: Solver)
    requires
        s.keys_distinct(),
    ensures
        s.records@.len() <= 0x1_0000_0000_0000_0000,
{
    let recs = s.records@;
    let keys = recs.map(|t: int, r: Record| (r.value as int) * 0x1_0000_0000 + (r.mask as int));
    assert forall|i: int, j: int|
        0 <= i < keys.len() && 0 <= j < keys.len() && i != j implies keys[i] != keys[j] by {
        let v1 = recs[i].value as int;
        let m1 = recs[i].mask as int;
        let v2 = recs[j].value as int;
        let m2 = recs[j].mask as int;
        assert(!(v1 == v2 && m1 == m2));
        if v1 != v2 {
            assert(v1 * 0x1_0000_0000 + m1 != v2 * 0x1_0000_0000 + m2) by (nonlinear_arith)
                requires
                    v1 != v2,
                    0 <= m1 < 0x1_0000_0000,
                    0 <= m2 < 0x1_0000_0000,
            ;
        }
    }
    keys.unique_seq_to_set();
    lemma_int_range(0, 0x1_0000_0000_0000_0000);
    assert forall|a: int| keys.to_set().contains(a) implies set_int_range(
        0,
        0x1_0000_0000_0000_0000,
    ).contains(a) by {
        let i = choose|i: int| 0 <= i < keys.len() && keys[i] == a;
        let v = recs[i].value as int;
        let m = recs[i].mask as int;
        assert(0 <= v * 0x1_0000_0000 + m < 0x1_0000_0000_0000_0000) by (nonlinear_arith)
            requires
                0 <= v < 0x1_0000_0000,
                0 <= m < 0x1_0000_0000,
        ;
    }
    lemma_len_subset(keys.to_set(), set_int_range(0, 0x1_0000_0000_0000_0000));
}

/// Record extension is transitive.
pub proof fn lemma_extends_trans(r3: Seq<Record>, r2: Seq<Record>, r1: Seq<Record>)
    requires
        extends(r3, r2),
        extends(r2, r1),
    ensures
        extends(r3, r1),
{
    assert forall|t: int| 0 <= t < r1.len() implies r3[t] == r1[t] by {
        assert(r2[t] == r1[t]);
        assert(r3[t] == r2[t]);
    }
}

/// A key present in a sequence of records is still present in any
/// extension of it.
pub proof fn lemma_has_key_extends(r1: Seq<Record>, r2: Seq<Record>, v: u32, m: u32)
    requires
        extends(r2, r1),
        rec_has_key(r1, v, m),
    ensures
        rec_has_key(r2, v, m),
{
    let i = choose|i: int| 0 <= i < r1.len() && r1[i].value == v && r1[i].mask == m;
    assert(r2[i].value == v && r2[i].mask == m);
}

/// A closed pair stays closed in any extension: the pair's own records are
/// unchanged and the resulting key remains present.
pub proof fn lemma_pair_op_extends(r1: Seq<Record>, r2: Seq<Record>, limit: u32, j: int, i: int, op: Operator)
    requires
        extends(r2, r1),
        0 <= j < r1.len(),
        0 <= i < r1.len(),
        pair_op_closed(r1, limit, j, i, op),
    ensures
        pair_op_closed(r2, limit, j, i, op),
{
    let lv = r1[j].value as nat;
    let rv = r1[i].value as nat;
    if r1[j].mask & r1[i].mask == 0 && op_defined(op, lv, rv) && op_value(op, lv, rv) < limit {
        lemma_has_key_extends(r1, r2, op_value(op, lv, rv) as u32, r1[j].mask | r1[i].mask);
    }
}

/// All six operators on a pair stay closed in any extension.
pub proof fn lemma_pair_extends(r1: Seq<Record>, r2: Seq<Record>, limit: u32, j: int, i: int)
    requires
        extends(r2, r1),
        0 <= j < r1.len(),
        0 <= i < r1.len(),
        pair_closed(r1, limit, j, i),
    ensures
        pair_closed(r2, limit, j, i),
{
    lemma_pair_op_extends(r1, r2, limit, j, i, Operator::Add);
    lemma_pair_op_extends(r1, r2, limit, j, i, Operator::Sub);
    lemma_pair_op_extends(r1, r2, limit, j, i, Operator::SubReverse);
    lemma_pair_op_extends(r1, r2, limit, j, i, Operator::Mul);
    lemma_pair_op_extends(r1, r2, limit, j, i, Operator::Div);
    lemma_pair_op_extends(r1, r2, limit, j, i, Operator::DivReverse);
}

/// The whole expanded region stays closed in any extension.
pub proof fn lemma_closed_upto_extends(r1: Seq<Record>, r2: Seq<Record>, limit: u32, n: int)
    requires
        extends(r2, r1),
        0 <= n <= r1.len(),
        closed_upto(r1, limit, n),
    ensures
        closed_upto(r2, limit, n),
{
    assert forall|j: int, i: int|
        0 <= j < n <= r2.len() && 0 <= i < j implies #[trigger] pair_closed(r2, limit, j, i) by {
        assert(pair_closed(r1, limit, j, i));
        lemma_pair_extends(r1, r2, limit, j, i);
    }
}

} // verus!
