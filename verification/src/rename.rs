//! Cloning instructions under a renaming of values.
use vstd::prelude::*;

use crate::ir::{Call, Inst, InstV, Load, LocalId, ValueId};

verus! {

/// A renaming as mathematical values: the pairs in the order in which they were
/// added, and the number of the next fresh value.
#[verifier::ext_equal]
pub struct Renaming {
    pub pairs: Seq<(ValueId, ValueId)>,
    pub next: nat,
}

/// What the renaming has for a value: the last pair that was added for it.
pub open spec fn lookup(pairs: Seq<(ValueId, ValueId)>, v: ValueId) -> Option<ValueId>
    decreases pairs.len(),
{
    if pairs.len() == 0 {
        None
    } else if pairs.last().0 == v {
        Some(pairs.last().1)
    } else {
        lookup(pairs.drop_last(), v)
    }
}

impl Renaming {
    /// The name of `v`: a fresh one at its first mention.
    pub open spec fn name(self, v: ValueId) -> (ValueId, Renaming) {
        match lookup(self.pairs, v) {
            Some(n) => (n, self),
            None => {
                let n = ValueId(self.next as u32);
                (n, Renaming { pairs: self.pairs.push((v, n)), next: self.next + 1 })
            },
        }
    }

    /// The names of the first `k` values, in order.
    pub open spec fn names(self, vs: Seq<ValueId>, k: nat) -> (Seq<ValueId>, Renaming)
        decreases k,
    {
        if k == 0 {
            (seq![], self)
        } else {
            let (before, st) = self.names(vs, (k - 1) as nat);
            let (n, after) = st.name(vs[k - 1]);
            (before.push(n), after)
        }
    }

    /// The clone of an instruction: destination first, then operands in order.
    pub open spec fn inst(self, i: InstV) -> (InstV, Renaming) {
        match i {
            InstV::Const { dst, c } => {
                let (d, s1) = self.name(dst);
                (InstV::Const { dst: d, c }, s1)
            },
            InstV::Bin { op, dst, a, b } => {
                let (d, s1) = self.name(dst);
                let (x, s2) = s1.name(a);
                let (y, s3) = s2.name(b);
                (InstV::Bin { op, dst: d, a: x, b: y }, s3)
            },
            InstV::Unary { op, dst, a } => {
                let (d, s1) = self.name(dst);
                let (x, s2) = s1.name(a);
                (InstV::Unary { op, dst: d, a: x }, s2)
            },
            InstV::Cast { dst, val, to } => {
                let (d, s1) = self.name(dst);
                let (x, s2) = s1.name(val);
                (InstV::Cast { dst: d, val: x, to }, s2)
            },
            InstV::Load(l) => {
                let (d, s1) = self.name(l.dst);
                let (x, s2) = s1.name(l.idx);
                (InstV::Load(Load { dst: d, arr: l.arr, idx: x }), s2)
            },
            InstV::Store { arr, idx, val } => {
                let (x, s1) = self.name(idx);
                let (y, s2) = s1.name(val);
                (InstV::Store { arr, idx: x, val: y }, s2)
            },
            InstV::Call { dst, callee, args, arr_refs } => {
                let (d, s1) = match dst {
                    Some(v) => {
                        let (n, s) = self.name(v);
                        (Some(n), s)
                    },
                    None => (None, self),
                };
                let (xs, s2) = s1.names(args, args.len());
                (InstV::Call { dst: d, callee, args: xs, arr_refs }, s2)
            },
        }
    }

    /// The clones of the first `k` instructions, in order.
    pub open spec fn insts(self, s: Seq<InstV>, k: nat) -> (Seq<InstV>, Renaming)
        decreases k,
    {
        if k == 0 {
            (seq![], self)
        } else {
            let (before, st) = self.insts(s, (k - 1) as nat);
            let (i, after) = st.inst(s[k - 1]);
            (before.push(i), after)
        }
    }
}

/// A renaming of values, which mints a fresh name at the first mention of a value.
pub struct IdMap {
    pairs: Vec<(ValueId, ValueId)>,
    next: u128,
}

impl View for IdMap {
    type V = Renaming;

    closed spec fn view(&self) -> Renaming {
        Renaming { pairs: self.pairs@, next: self.next as nat }
    }
}

impl IdMap {
    /// Fresh numbers cannot run out of their type.
    pub closed spec fn inv(&self) -> bool {
        self.next <= 0x1_0000_0000_0000_0000 + self.pairs@.len()
    }

    /// A renaming without pairs, whose first fresh name has number `next`.
    pub fn starting_at(next: u64) -> (r: IdMap)
        ensures
            r.inv(),
            r@ == (Renaming { pairs: seq![], next: next as nat }),
    {
        let r = IdMap { pairs: Vec::new(), next: next as u128 };
        assert(r@ =~= (Renaming { pairs: seq![], next: next as nat }));
        r
    }

    /// The number of the next fresh name.
    pub fn next_fresh(&self) -> (r: u128)
        ensures
            r == self@.next,
    {
        self.next
    }

    /// How many pairs there are.
    pub fn len(&self) -> (r: usize)
        ensures
            r == self@.pairs.len(),
    {
        self.pairs.len()
    }

    /// The pair at a position.
    pub fn pair(&self, k: usize) -> (r: (ValueId, ValueId))
        requires
            k < self@.pairs.len(),
        ensures
            r == self@.pairs[k as int],
    {
        self.pairs[k]
    }

    /// Has `v` keep its name.
    pub fn keep(&mut self, v: ValueId)
        requires
            old(self).inv(),
        ensures
            final(self).inv(),
            final(self)@ == (Renaming {
                pairs: old(self)@.pairs.push((v, v)),
                next: old(self)@.next,
            }),
    {
        self.pairs.push((v, v));
    }

    /// The name of `v`: a fresh one at its first mention.
    pub fn map_id(&mut self, v: ValueId) -> (r: ValueId)
        requires
            old(self).inv(),
        ensures
            final(self).inv(),
            (r, final(self)@) == old(self)@.name(v),
    {
        let mut k: usize = self.pairs.len();
        proof {
            assert(self.pairs@.take(k as int) =~= self.pairs@);
        }
        while k > 0
            invariant
                *self == *old(self),
                self.inv(),
                k <= self.pairs@.len(),
                lookup(self.pairs@, v) == lookup(self.pairs@.take(k as int), v),
            decreases k,
        {
            proof {
                let now = self.pairs@.take(k as int);
                assert(now.last() == self.pairs@[k - 1]);
                assert(now.drop_last() =~= self.pairs@.take(k - 1));
            }
            let (from, to) = self.pairs[k - 1];
            if from == v {
                return to;
            }
            k = k - 1;
        }
        let n = ValueId(self.next as u32);
        self.pairs.push((v, n));
        self.next = self.next + 1;
        n
    }

    /// The names of values, in order.
    pub fn map_ids(&mut self, vs: &Vec<ValueId>) -> (r: Vec<ValueId>)
        requires
            old(self).inv(),
        ensures
            final(self).inv(),
            (r@, final(self)@) == old(self)@.names(vs@, vs@.len()),
    {
        let mut out: Vec<ValueId> = Vec::new();
        let mut k: usize = 0;
        while k < vs.len()
            invariant
                self.inv(),
                k <= vs@.len(),
                (out@, self@) == old(self)@.names(vs@, k as nat),
            decreases vs@.len() - k,
        {
            let n = self.map_id(vs[k]);
            out.push(n);
            k = k + 1;
        }
        out
    }

    /// The clone of an instruction.
    pub fn clone_inst(&mut self, inst: &Inst) -> (r: Inst)
        requires
            old(self).inv(),
        ensures
            final(self).inv(),
            (r@, final(self)@) == old(self)@.inst(inst@),
    {
        match inst {
            Inst::Const { dst, c } => {
                let d = self.map_id(*dst);
                Inst::Const { dst: d, c: *c }
            },
            Inst::Bin { op, dst, a, b } => {
                let d = self.map_id(*dst);
                let x = self.map_id(*a);
                let y = self.map_id(*b);
                Inst::Bin { op: *op, dst: d, a: x, b: y }
            },
            Inst::Unary { op, dst, a } => {
                let d = self.map_id(*dst);
                let x = self.map_id(*a);
                Inst::Unary { op: *op, dst: d, a: x }
            },
            Inst::Cast { dst, val, to } => {
                let d = self.map_id(*dst);
                let x = self.map_id(*val);
                Inst::Cast { dst: d, val: x, to: *to }
            },
            Inst::Load(l) => {
                let d = self.map_id(l.dst);
                let x = self.map_id(l.idx);
                Inst::Load(Load { dst: d, arr: l.arr, idx: x })
            },
            Inst::Store { arr, idx, val } => {
                let x = self.map_id(*idx);
                let y = self.map_id(*val);
                Inst::Store { arr: *arr, idx: x, val: y }
            },
            Inst::Call(c) => {
                let d = match c.dst {
                    Some(v) => Some(self.map_id(v)),
                    None => None,
                };
                let xs = self.map_ids(&c.args);
                Inst::Call(
                    Call {
                        dst: d,
                        callee: c.callee.clone(),
                        args: xs,
                        arr_refs: copy_locals(&c.arr_refs),
                    },
                )
            },
        }
    }
}

/// A copy of a list of locals.
pub fn copy_locals(v: &Vec<LocalId>) -> (r: Vec<LocalId>)
    ensures
        r@ == v@,
{
    let mut out: Vec<LocalId> = Vec::new();
    let mut k: usize = 0;
    while k < v.len()
        invariant
            k <= v@.len(),
            out@ == v@.take(k as int),
        decreases v@.len() - k,
    {
        out.push(v[k]);
        k = k + 1;
        assert(v@.take(k as int) =~= v@.take(k - 1).push(v@[k - 1]));
    }
    assert(v@.take(k as int) =~= v@);
    out
}

} // verus!
