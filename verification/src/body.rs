//! The body of a loop as a function of its own, which runs one iteration.
//!
//! The function takes the iteration and the context as parameters. Its entry loads
//! arrays and captured values from the context under their own names, so that most
//! operands keep theirs; every other value of the loop gets a fresh name. The latch
//! returns. For a reduction, the entry loads the accumulator from the private cell,
//! and the latch stores the result of the chain there: at its top, or at its end where
//! the chain stands in the latch.
use vstd::prelude::*;

use crate::ctx::CtxLayout;
use crate::ir::{
    block_views, inst_views, phi_views, BlockData, BlockId, BlockV, Call, Constant, FuncIr, Inst,
    InstV, LocalId, Phi, PhiV, Term, TermV, Ty, TypeTables, ValueId,
};
use crate::outline::{AccInfo, Skeleton, SkeletonV};
use crate::rename::{IdMap, Renaming};
use crate::search::{first_where, lemma_first_where, lemma_first_where_is, lemma_first_where_none};

verus! {

/// What the body of a loop is built from.
pub struct BodyParts {
    pub ir: FuncIr,
    pub sk: SkeletonV,
    pub acc: Option<AccInfo>,
    pub arrays: Seq<(LocalId, i64, i64)>,
    pub scalars: Seq<(u32, u64, bool, i64)>,
}

/// The import that loads a captured value.
pub open spec fn load_symbol(width: u64, float: bool) -> Seq<char> {
    if width == 8 && !float {
        "helix_ld_i64"@
    } else if width == 4 && !float {
        "helix_ld_i32"@
    } else if width == 8 && float {
        "helix_ld_f64"@
    } else {
        "helix_ld_f32"@
    }
}

/// The import that loads the accumulator.
pub open spec fn acc_load_symbol(width: u64, float: bool) -> Seq<char> {
    if width == 8 && !float {
        "helix_acc_load_i64"@
    } else if width == 4 && !float {
        "helix_acc_load_i32"@
    } else if width == 8 && float {
        "helix_acc_load_f64"@
    } else {
        "helix_acc_load_f32"@
    }
}

/// The import that stores the accumulator.
pub open spec fn acc_store_symbol(width: u64, float: bool) -> Seq<char> {
    if width == 8 && !float {
        "helix_acc_store_i64"@
    } else if width == 4 && !float {
        "helix_acc_store_i32"@
    } else if width == 8 && float {
        "helix_acc_store_f64"@
    } else {
        "helix_acc_store_f32"@
    }
}

/// The value with a fresh number.
pub open spec fn fresh(n: nat) -> ValueId {
    ValueId(n as u32)
}

/// A call of an import.
pub open spec fn import(dst: Option<ValueId>, callee: Seq<char>, args: Seq<ValueId>) -> InstV {
    InstV::Call { dst, callee, args, arr_refs: seq![] }
}

/// The constant of an offset.
pub open spec fn offset_const(dst: ValueId, off: int) -> InstV {
    InstV::Const { dst, c: Constant::I64(off as i64) }
}

/// The value has the type of an array.
pub open spec fn array_at(tys: Seq<Ty>, v: ValueId) -> bool {
    v.0 < tys.len() && tys[v.0 as int] is Array
}

/// Whether the value has the type of an array.
fn is_array_at(tys: &Vec<Ty>, v: ValueId) -> (r: bool)
    ensures
        r == array_at(tys@, v),
{
    let k = v.0 as usize;
    if k < tys.len() {
        match tys[k] {
            Ty::Array(_) => true,
            _ => false,
        }
    } else {
        false
    }
}

impl BodyParts {
    /// First number that the function does not use.
    pub open spec fn base(self) -> nat {
        self.ir.first_free()
    }

    /// The context parameter.
    pub open spec fn ctx(self) -> ValueId {
        fresh(self.base())
    }

    /// First number of array `k`.
    pub open spec fn array_base(self, k: int) -> nat {
        (self.base() + 1 + 4 * k) as nat
    }

    /// Data and length of array `k`.
    pub open spec fn array_ptr(self, k: int) -> ValueId {
        fresh(self.array_base(k) + 1)
    }

    pub open spec fn array_len(self, k: int) -> ValueId {
        fresh(self.array_base(k) + 2)
    }

    /// Number of the offset of scalar `k`.
    pub open spec fn scalar_base(self, k: int) -> nat {
        (self.array_base(self.arrays.len() as int) + k) as nat
    }

    /// Loads of the first `k` arrays.
    pub open spec fn array_loads(self, k: nat) -> Seq<InstV>
        decreases k,
    {
        if k == 0 {
            seq![]
        } else {
            let i = k - 1;
            let b = self.array_base(i);
            let off = self.arrays[i].2 as int;
            self.array_loads(i as nat).push(offset_const(fresh(b), off)).push(
                import(
                    Some(self.array_ptr(i)),
                    "helix_ld_i64"@,
                    seq![self.ctx(), fresh(b)],
                ),
            ).push(offset_const(fresh(b + 3), off + 8)).push(
                import(
                    Some(self.array_len(i)),
                    "helix_ld_i64"@,
                    seq![self.ctx(), fresh(b + 3)],
                ),
            )
        }
    }

    /// Loads of the first `k` captured values.
    pub open spec fn scalar_loads(self, k: nat) -> Seq<InstV>
        decreases k,
    {
        if k == 0 {
            seq![]
        } else {
            let i = k - 1;
            let o = fresh(self.scalar_base(i));
            let (sid, width, float, off) = self.scalars[i];
            self.scalar_loads(i as nat).push(offset_const(o, off as int)).push(
                import(
                    Some(ValueId(sid)),
                    load_symbol(width, float),
                    seq![self.ctx(), o],
                ),
            )
        }
    }

    /// What the entry does before the instructions of the header.
    pub open spec fn preamble(self) -> Seq<InstV> {
        let loads = self.array_loads(self.arrays.len()) + self.scalar_loads(self.scalars.len());
        match self.acc {
            Some(a) => loads.push(
                import(
                    Some(a.dst),
                    acc_load_symbol(a.spec.width, a.spec.float),
                    seq![self.ctx()],
                ),
            ),
            None => loads,
        }
    }

    /// The pairs of the first `k` captured values, which keep their names.
    pub open spec fn kept_scalars(self, k: nat) -> Seq<(ValueId, ValueId)>
        decreases k,
    {
        if k == 0 {
            seq![]
        } else {
            let v = ValueId(self.scalars[k - 1].0);
            self.kept_scalars((k - 1) as nat).push((v, v))
        }
    }

    /// The pairs of the first `k` arrays, whose words keep their names.
    pub open spec fn kept_arrays(self, k: nat) -> Seq<(ValueId, ValueId)>
        decreases k,
    {
        if k == 0 {
            seq![]
        } else {
            let i = k - 1;
            self.kept_arrays(i as nat).push((self.array_ptr(i), self.array_ptr(i))).push(
                (self.array_len(i), self.array_len(i)),
            )
        }
    }

    /// The renaming that the clone starts with.
    pub open spec fn initial(self) -> Renaming {
        let scalars = self.kept_scalars(self.scalars.len());
        let with_acc = match self.acc {
            Some(a) => scalars.push((a.dst, a.dst)),
            None => scalars,
        };
        Renaming {
            pairs: with_acc.push((self.sk.iv_dst, self.sk.iv_dst)).push((self.ctx(), self.ctx()))
                + self.kept_arrays(self.arrays.len()),
            next: self.scalar_base(self.scalars.len() as int),
        }
    }

    /// Where a block of the loop is in the body.
    pub open spec fn place(self, b: BlockId) -> Option<BlockId> {
        match first_where(self.sk.blocks, is_block(b)) {
            Some(k) => Some(BlockId(k as u32)),
            None => None,
        }
    }

    /// The block that every edge out of the loop goes to.
    pub open spec fn exit(self) -> BlockId {
        BlockId(self.sk.blocks.len() as u32)
    }

    /// Where an edge to `b` goes.
    pub open spec fn retarget(self, b: BlockId) -> BlockId {
        match self.place(b) {
            Some(p) => p,
            None => self.exit(),
        }
    }

    /// The first `k` arguments of a phi.
    pub open spec fn phi_args(self, st: Renaming, args: Seq<(BlockId, ValueId)>, k: nat) -> (
        Seq<(BlockId, ValueId)>,
        Renaming,
    )
        decreases k,
    {
        if k == 0 {
            (seq![], st)
        } else {
            let (before, s1) = self.phi_args(st, args, (k - 1) as nat);
            let (n, s2) = s1.name(args[k - 1].1);
            (before.push((self.retarget(args[k - 1].0), n)), s2)
        }
    }

    /// The first `k` phis of a block.
    pub open spec fn phis(self, st: Renaming, phis: Seq<PhiV>, k: nat) -> (Seq<PhiV>, Renaming)
        decreases k,
    {
        if k == 0 {
            (seq![], st)
        } else {
            let (before, s1) = self.phis(st, phis, (k - 1) as nat);
            let p = phis[k - 1];
            let (dst, s2) = s1.name(p.dst);
            let (args, s3) = self.phi_args(s2, p.args, p.args.len());
            (before.push(PhiV { dst, var: p.var, args }), s3)
        }
    }

    /// The terminator of a block that is not the latch.
    pub open spec fn term(self, st: Renaming, t: TermV) -> (TermV, Renaming) {
        match t {
            TermV::Jump(b, args) => match self.place(b) {
                Some(p) => {
                    let (xs, s1) = st.names(args, args.len());
                    (TermV::Jump(p, xs), s1)
                },
                None => (TermV::Jump(self.exit(), seq![]), st),
            },
            TermV::Branch { cond, t, f } => {
                let (c, s1) = st.name(cond);
                if self.place(t) is None && self.place(f) is None {
                    (TermV::Jump(self.exit(), seq![]), s1)
                } else {
                    (TermV::Branch { cond: c, t: self.retarget(t), f: self.retarget(f) }, s1)
                }
            },
            TermV::Return(v) => match v {
                Some(x) => {
                    let (n, s1) = st.name(x);
                    (TermV::Return(Some(n)), s1)
                },
                None => (TermV::Return(None), st),
            },
        }
    }

    /// The latch stores the chain at its end, because the chain stands in it.
    pub open spec fn stores_late(self) -> bool {
        self.acc matches Some(a) && a.in_latch
    }

    /// The store of the chain in the latch.
    pub open spec fn latch_store(self, st: Renaming) -> (Seq<InstV>, Renaming) {
        match self.acc {
            Some(a) => {
                let (n, s1) = st.name(a.back);
                (
                    seq![
                        import(
                            None,
                            acc_store_symbol(a.spec.width, a.spec.float),
                            seq![self.ctx(), n],
                        ),
                    ],
                    s1,
                )
            },
            None => (seq![], st),
        }
    }

    /// The clone of block `k` of the loop.
    pub open spec fn block(self, st: Renaming, k: int) -> (BlockV, Renaming) {
        let b = self.sk.blocks[k];
        let src = self.ir.at(b)@;
        let (phis, s1) = if b == self.sk.header {
            (
                seq![
                    PhiV { dst: self.sk.iv_dst, var: self.sk.iv_var, args: seq![] },
                    PhiV {
                        dst: self.ctx(),
                        var: LocalId(self.ir.n_locals as u32),
                        args: seq![],
                    },
                ],
                st,
            )
        } else {
            self.phis(st, src.phis, src.phis.len())
        };
        let (first, s2) = if b == self.sk.header {
            (self.preamble(), s1)
        } else if b == self.sk.latch && !self.stores_late() {
            self.latch_store(s1)
        } else {
            (seq![], s1)
        };
        let (insts, s3) = s2.insts(src.insts, src.insts.len());
        let (last, s4) = if b != self.sk.header && b == self.sk.latch && self.stores_late() {
            self.latch_store(s3)
        } else {
            (seq![], s3)
        };
        let (term, s5) = if b == self.sk.latch {
            (TermV::Return(None), s4)
        } else {
            self.term(s4, src.term)
        };
        (BlockV { phis, insts: first + insts + last, term }, s5)
    }

    /// The clones of the first `k` blocks.
    pub open spec fn blocks(self, k: nat) -> (Seq<BlockV>, Renaming)
        decreases k,
    {
        if k == 0 {
            (seq![], self.initial())
        } else {
            let (before, st) = self.blocks((k - 1) as nat);
            let (b, after) = self.block(st, k - 1);
            (before.push(b), after)
        }
    }

    /// All clones.
    pub open spec fn clones(self) -> (Seq<BlockV>, Renaming) {
        self.blocks(self.sk.blocks.len())
    }

    /// The blocks of the body: the clones, and one that returns.
    pub open spec fn all_blocks(self) -> Seq<BlockV> {
        self.clones().0.push(BlockV { phis: seq![], insts: seq![], term: TermV::Return(None) })
    }

    /// Types before the cloned values get theirs: those of the function, then `i64`.
    pub open spec fn plain_types(self, n: nat) -> Seq<Ty> {
        Seq::new(
            n,
            |k: int|
                if k < self.ir.types.val_tys@.len() {
                    self.ir.types.val_tys@[k]
                } else {
                    Ty::I64
                },
        )
    }

    /// Types after the first `k` renamed values got those of their originals.
    pub open spec fn types(self, n: nat, pairs: Seq<(ValueId, ValueId)>, k: nat) -> Seq<Ty>
        decreases k,
    {
        if k == 0 {
            self.plain_types(n)
        } else {
            let before = self.types(n, pairs, (k - 1) as nat);
            let (from, to) = pairs[k - 1];
            match self.ir.type_of(from) {
                Some(ty) => if to.0 < n {
                    before.update(to.0 as int, ty)
                } else {
                    before
                },
                None => before,
            }
        }
    }

    /// The phis inside the loop take nothing from outside it.
    pub open spec fn phis_inside(self) -> bool {
        forall|i: int, p: int, k: int|
            0 <= i < self.sk.blocks.len() && self.sk.blocks[i] != self.sk.header && 0 <= p
                < self.ir.at(self.sk.blocks[i]).phis@.len() && 0 <= k < self.ir.at(
                self.sk.blocks[i],
            ).phis@[p].args@.len() ==> self.sk.blocks.contains(
                (#[trigger] self.ir.at(self.sk.blocks[i]).phis@[p].args@[k]).0,
            )
    }

    /// The types of the values of the body.
    pub open spec fn body_tys(self) -> Seq<Ty> {
        let st = self.clones().1;
        self.types(st.next, st.pairs, st.pairs.len())
    }

    /// A body exists: numbers do not run out, phis can be cloned, and neither the
    /// iteration nor the context is an array.
    pub open spec fn possible(self) -> bool {
        &&& self.phis_inside()
        &&& self.clones().1.next <= u32::MAX
        &&& self.ir.n_locals < u32::MAX
        &&& !array_at(self.body_tys(), self.sk.iv_dst)
        &&& !array_at(self.body_tys(), self.ctx())
    }

    /// `f` is the body.
    pub open spec fn is_body(self, f: FuncIr) -> bool {
        let st = self.clones().1;
        &&& f.name@ == "__extracted__"@
        &&& f.ret == Ty::Unit
        &&& f.entry == BlockId(0)
        &&& block_views(f.blocks@) == self.all_blocks()
        &&& f.next_value == st.next
        &&& f.n_locals == self.ir.n_locals + 1
        &&& f.n_source_locals == self.ir.n_source_locals
        &&& f.types.val_tys@ == self.types(st.next, st.pairs, st.pairs.len())
        &&& f.types.local_tys@ == self.ir.types.local_tys@.push(Ty::I64)
        &&& f.types.local_names@.len() == self.ir.types.local_names@.len() + 1
        &&& f.types.local_names@.last()@ == "$par_ctx"@
        &&& forall|i: int|
            0 <= i < self.ir.types.local_names@.len() ==> (
            #[trigger] f.types.local_names@[i])@ == self.ir.types.local_names@[i]@
        &&& f.edges_current()
    }

    /// Data and length of every array.
    pub open spec fn prebind(self) -> Seq<(LocalId, ValueId, ValueId)> {
        Seq::new(
            self.arrays.len(),
            |k: int| (self.arrays[k].0, self.array_ptr(k), self.array_len(k)),
        )
    }
}

/// The block is `b`.
pub open spec fn is_block(b: BlockId) -> spec_fn(BlockId) -> bool {
    |x: BlockId| x == b
}

/// What the body is built from.
pub open spec fn parts(ir: FuncIr, sk: Skeleton, acc: Option<AccInfo>, layout: CtxLayout) -> BodyParts {
    BodyParts { ir, sk: sk@, acc, arrays: layout.arrays@, scalars: layout.scalars@ }
}

/// The import that loads a captured value.
fn ld_sym(width: u64, float: bool) -> (r: &'static str)
    ensures
        r@ == load_symbol(width, float),
{
    if width == 8 && !float {
        "helix_ld_i64"
    } else if width == 4 && !float {
        "helix_ld_i32"
    } else if width == 8 && float {
        "helix_ld_f64"
    } else {
        "helix_ld_f32"
    }
}

/// The import that loads the accumulator.
fn acc_sym(width: u64, float: bool) -> (r: &'static str)
    ensures
        r@ == acc_load_symbol(width, float),
{
    if width == 8 && !float {
        "helix_acc_load_i64"
    } else if width == 4 && !float {
        "helix_acc_load_i32"
    } else if width == 8 && float {
        "helix_acc_load_f64"
    } else {
        "helix_acc_load_f32"
    }
}

/// The import that stores the accumulator.
fn acc_store_sym(width: u64, float: bool) -> (r: &'static str)
    ensures
        r@ == acc_store_symbol(width, float),
{
    if width == 8 && !float {
        "helix_acc_store_i64"
    } else if width == 4 && !float {
        "helix_acc_store_i32"
    } else if width == 8 && float {
        "helix_acc_store_f64"
    } else {
        "helix_acc_store_f32"
    }
}

/// A call of an import.
fn make_import(dst: Option<ValueId>, callee: &str, args: Vec<ValueId>) -> (r: Inst)
    ensures
        r@ == import(dst, callee@, args@),
{
    let c = Call { dst, callee: callee.to_owned(), args, arr_refs: Vec::new() };
    assert(c.arr_refs@ =~= seq![]);
    Inst::Call(c)
}

/// `dst = *(context + off)`.
fn ld_call(dst: ValueId, ctx_v: ValueId, off_v: ValueId) -> (r: Inst)
    ensures
        r@ == import(Some(dst), "helix_ld_i64"@, seq![ctx_v, off_v]),
{
    let args = vec![ctx_v, off_v];
    assert(args@ =~= seq![ctx_v, off_v]);
    make_import(Some(dst), "helix_ld_i64", args)
}

/// Adding an instruction adds its view.
proof fn lemma_push_inst(s: Seq<Inst>, i: Inst)
    ensures
        inst_views(s.push(i)) =~= inst_views(s).push(i@),
{
}

/// What the entry does before the instructions of the header.
#[verifier::rlimit(40)]
fn build_preamble(
    ir: &FuncIr,
    sk: &Skeleton,
    acc: &Option<AccInfo>,
    layout: &CtxLayout,
    base: u64,
) -> (r: Vec<Inst>)
    requires
        layout.packed(),
        base == ir.first_free(),
        base <= 0x1_0000_0000,
    ensures
        inst_views(r@) == parts(*ir, *sk, *acc, *layout).preamble(),
{
    let ghost p = parts(*ir, *sk, *acc, *layout);
    let ctx_v = ValueId(base as u32);
    let mut out: Vec<Inst> = Vec::new();
    let mut k: usize = 0;
    assert(inst_views(out@) =~= seq![]);
    while k < layout.arrays.len()
        invariant
            layout.packed(),
            base <= 0x1_0000_0000,
            p == parts(*ir, *sk, *acc, *layout),
            base == p.base(),
            ctx_v == p.ctx(),
            k <= layout.arrays@.len(),
            inst_views(out@) == p.array_loads(k as nat),
        decreases layout.arrays@.len() - k,
    {
        let (_, _, off) = layout.arrays[k];
        let b: u64 = base + 1 + 4 * (k as u64);
        assert(layout.arrays@[k as int].2 == crate::ctx::CTX_ARRAY_BASE + 16 * k);
        let off0 = ValueId(b as u32);
        let ptr = ValueId((b + 1) as u32);
        let len = ValueId((b + 2) as u32);
        let off8 = ValueId((b + 3) as u32);
        let i0 = Inst::Const { dst: off0, c: Constant::I64(off) };
        let i1 = ld_call(ptr, ctx_v, off0);
        let i2 = Inst::Const { dst: off8, c: Constant::I64(off + 8) };
        let i3 = ld_call(len, ctx_v, off8);
        proof {
            lemma_push_inst(out@, i0);
            lemma_push_inst(out@.push(i0), i1);
            lemma_push_inst(out@.push(i0).push(i1), i2);
            lemma_push_inst(out@.push(i0).push(i1).push(i2), i3);
        }
        out.push(i0);
        out.push(i1);
        out.push(i2);
        out.push(i3);
        k = k + 1;
    }
    let ghost arrays = inst_views(out@);
    let mut j: usize = 0;
    assert(arrays + p.scalar_loads(0) =~= arrays);
    while j < layout.scalars.len()
        invariant
            layout.packed(),
            base <= 0x1_0000_0000,
            p == parts(*ir, *sk, *acc, *layout),
            base == p.base(),
            ctx_v == p.ctx(),
            j <= layout.scalars@.len(),
            inst_views(out@) == arrays + p.scalar_loads(j as nat),
        decreases layout.scalars@.len() - j,
    {
        let (sid, width, float, off) = layout.scalars[j];
        let n: u64 = base + 1 + 4 * (layout.arrays.len() as u64) + j as u64;
        let off_v = ValueId(n as u32);
        let i0 = Inst::Const { dst: off_v, c: Constant::I64(off) };
        let args = vec![ctx_v, off_v];
        assert(args@ =~= seq![ctx_v, off_v]);
        let i1 = make_import(Some(ValueId(sid)), ld_sym(width, float), args);
        proof {
            lemma_push_inst(out@, i0);
            lemma_push_inst(out@.push(i0), i1);
            assert(arrays + p.scalar_loads((j + 1) as nat) =~= (arrays + p.scalar_loads(
                j as nat,
            )).push(i0@).push(i1@));
        }
        out.push(i0);
        out.push(i1);
        j = j + 1;
    }
    if let Some(a) = acc {
        let args = vec![ctx_v];
        assert(args@ =~= seq![ctx_v]);
        let i = make_import(Some(a.dst), acc_sym(a.spec.width, a.spec.float), args);
        proof {
            lemma_push_inst(out@, i);
        }
        out.push(i);
    }
    out
}

/// The renaming that the clone starts with.
fn initial_map(
    ir: &FuncIr,
    sk: &Skeleton,
    acc: &Option<AccInfo>,
    layout: &CtxLayout,
    base: u64,
) -> (r: IdMap)
    requires
        layout.packed(),
        base == ir.first_free(),
        base <= 0x1_0000_0000,
    ensures
        r.inv(),
        r@ == parts(*ir, *sk, *acc, *layout).initial(),
{
    let ghost p = parts(*ir, *sk, *acc, *layout);
    let start: u64 = base + 1 + 4 * (layout.arrays.len() as u64) + layout.scalars.len() as u64;
    let mut map = IdMap::starting_at(start);
    let mut k: usize = 0;
    while k < layout.scalars.len()
        invariant
            map.inv(),
            p == parts(*ir, *sk, *acc, *layout),
            k <= layout.scalars@.len(),
            map@.next == start,
            map@.pairs == p.kept_scalars(k as nat),
        decreases layout.scalars@.len() - k,
    {
        map.keep(ValueId(layout.scalars[k].0));
        k = k + 1;
    }
    if let Some(a) = acc {
        map.keep(a.dst);
    }
    map.keep(sk.iv_dst);
    map.keep(ValueId(base as u32));
    let ghost before = map@.pairs;
    let mut j: usize = 0;
    assert(before + p.kept_arrays(0) =~= before);
    while j < layout.arrays.len()
        invariant
            map.inv(),
            layout.packed(),
            base <= 0x1_0000_0000,
            p == parts(*ir, *sk, *acc, *layout),
            base == p.base(),
            j <= layout.arrays@.len(),
            map@.next == start,
            map@.pairs == before + p.kept_arrays(j as nat),
        decreases layout.arrays@.len() - j,
    {
        let b: u64 = base + 1 + 4 * (j as u64);
        map.keep(ValueId((b + 1) as u32));
        map.keep(ValueId((b + 2) as u32));
        proof {
            assert(map@.pairs =~= before + p.kept_arrays((j + 1) as nat));
        }
        j = j + 1;
    }
    proof {
        assert(map@ =~= p.initial());
    }
    map
}

/// Where a block of the loop is in the body.
fn place_of(blocks: &Vec<BlockId>, b: BlockId) -> (r: Option<BlockId>)
    requires
        blocks@.len() <= u32::MAX,
    ensures
        r == (match first_where(blocks@, is_block(b)) {
            Some(k) => Some(BlockId(k as u32)),
            None => None,
        }),
        r is Some <==> blocks@.contains(b),
{
    let mut k: usize = 0;
    while k < blocks.len()
        invariant
            blocks@.len() <= u32::MAX,
            k <= blocks@.len(),
            forall|i: int| 0 <= i < k ==> !is_block(b)(#[trigger] blocks@[i]),
        decreases blocks@.len() - k,
    {
        if blocks[k] == b {
            proof {
                lemma_first_where_is(blocks@, is_block(b), k as int);
                assert(blocks@[k as int] == b);
            }
            return Some(BlockId(k as u32));
        }
        k = k + 1;
    }
    proof {
        lemma_first_where_none(blocks@, is_block(b));
        if blocks@.contains(b) {
            let q = choose|q: int| 0 <= q < blocks@.len() && blocks@[q] == b;
            assert(is_block(b)(blocks@[q]));
        }
    }
    None
}

/// Where an edge to `b` goes.
fn retarget(blocks: &Vec<BlockId>, b: BlockId) -> (r: BlockId)
    requires
        blocks@.len() <= u32::MAX,
    ensures
        r == (match first_where(blocks@, is_block(b)) {
            Some(k) => BlockId(k as u32),
            None => BlockId(blocks@.len() as u32),
        }),
{
    match place_of(blocks, b) {
        Some(p) => p,
        None => BlockId(blocks.len() as u32),
    }
}

/// The phis of a block inside the loop.
fn clone_phis(
    Ghost(p): Ghost<BodyParts>,
    blocks: &Vec<BlockId>,
    src: &Vec<Phi>,
    map: &mut IdMap,
) -> (r: Vec<Phi>)
    requires
        p.sk.blocks == blocks@,
        blocks@.len() <= u32::MAX,
        old(map).inv(),
    ensures
        final(map).inv(),
        (phi_views(r@), final(map)@) == p.phis(old(map)@, phi_views(src@), src@.len()),
{
    let mut out: Vec<Phi> = Vec::new();
    let mut k: usize = 0;
    assert(phi_views(out@) =~= seq![]);
    while k < src.len()
        invariant
            p.sk.blocks == blocks@,
            blocks@.len() <= u32::MAX,
            map.inv(),
            k <= src@.len(),
            (phi_views(out@), map@) == p.phis(old(map)@, phi_views(src@), k as nat),
        decreases src@.len() - k,
    {
        let phi = &src[k];
        let dst = map.map_id(phi.dst);
        let ghost start = map@;
        let mut args: Vec<(BlockId, ValueId)> = Vec::new();
        let mut j: usize = 0;
        while j < phi.args.len()
            invariant
                p.sk.blocks == blocks@,
                blocks@.len() <= u32::MAX,
                map.inv(),
                j <= phi.args@.len(),
                (args@, map@) == p.phi_args(start, phi.args@, j as nat),
            decreases phi.args@.len() - j,
        {
            let (from, v) = phi.args[j];
            let n = map.map_id(v);
            args.push((retarget(blocks, from), n));
            j = j + 1;
        }
        let made = Phi { dst, var: phi.var, args };
        proof {
            assert(phi_views(src@)[k as int] == src@[k as int]@);
            assert(phi_views(out@.push(made)) =~= phi_views(out@).push(made@));
        }
        out.push(made);
        k = k + 1;
    }
    out
}

/// The terminator of a block that is not the latch.
fn clone_term(
    Ghost(p): Ghost<BodyParts>,
    blocks: &Vec<BlockId>,
    term: &Term,
    map: &mut IdMap,
) -> (r: Term)
    requires
        p.sk.blocks == blocks@,
        blocks@.len() <= u32::MAX,
        old(map).inv(),
    ensures
        final(map).inv(),
        (r@, final(map)@) == p.term(old(map)@, term@),
{
    match term {
        Term::Jump(b, args) => match place_of(blocks, *b) {
            Some(place) => {
                let xs = map.map_ids(args);
                Term::Jump(place, xs)
            },
            None => {
                let none: Vec<ValueId> = Vec::new();
                assert(none@ =~= seq![]);
                Term::Jump(BlockId(blocks.len() as u32), none)
            },
        },
        Term::Branch { cond, t, f } => {
            let c = map.map_id(*cond);
            if place_of(blocks, *t).is_none() && place_of(blocks, *f).is_none() {
                let none: Vec<ValueId> = Vec::new();
                assert(none@ =~= seq![]);
                Term::Jump(BlockId(blocks.len() as u32), none)
            } else {
                Term::Branch { cond: c, t: retarget(blocks, *t), f: retarget(blocks, *f) }
            }
        },
        Term::Return(v) => match v {
            Some(x) => {
                let n = map.map_id(*x);
                Term::Return(Some(n))
            },
            None => Term::Return(None),
        },
    }
}

/// Appends the clones of instructions.
fn append_clones(out: &mut Vec<Inst>, src: &Vec<Inst>, map: &mut IdMap)
    requires
        old(map).inv(),
    ensures
        final(map).inv(),
        ({
            let (insts, st) = old(map)@.insts(inst_views(src@), src@.len());
            &&& inst_views(final(out)@) == inst_views(old(out)@) + insts
            &&& final(map)@ == st
        }),
{
    let ghost start = map@;
    let ghost before = inst_views(out@);
    let mut k: usize = 0;
    assert(before + start.insts(inst_views(src@), 0).0 =~= before);
    while k < src.len()
        invariant
            map.inv(),
            k <= src@.len(),
            inst_views(out@) == before + start.insts(inst_views(src@), k as nat).0,
            map@ == start.insts(inst_views(src@), k as nat).1,
        decreases src@.len() - k,
    {
        let i = map.clone_inst(&src[k]);
        proof {
            assert(inst_views(src@)[k as int] == src@[k as int]@);
            lemma_push_inst(out@, i);
            let (done, _) = start.insts(inst_views(src@), k as nat);
            assert(before + done.push(i@) =~= (before + done).push(i@));
        }
        out.push(i);
        k = k + 1;
    }
}

/// Appends the store of the chain.
fn push_store(
    Ghost(p): Ghost<BodyParts>,
    ctx_v: ValueId,
    acc: &Option<AccInfo>,
    out: &mut Vec<Inst>,
    map: &mut IdMap,
)
    requires
        old(map).inv(),
        p.acc == *acc,
        p.ctx() == ctx_v,
    ensures
        final(map).inv(),
        inst_views(final(out)@) == inst_views(old(out)@) + p.latch_store(old(map)@).0,
        final(map)@ == p.latch_store(old(map)@).1,
{
    let ghost before = inst_views(out@);
    if let Some(a) = acc {
        let n = map.map_id(a.back);
        let args = vec![ctx_v, n];
        assert(args@ =~= seq![ctx_v, n]);
        let i = make_import(None, acc_store_sym(a.spec.width, a.spec.float), args);
        proof {
            lemma_push_inst(out@, i);
            assert(before + seq![i@] =~= before.push(i@));
        }
        out.push(i);
    } else {
        assert(before + seq![] =~= before);
    }
}

/// The clone of block `k` of the loop.
fn clone_block(
    ir: &FuncIr,
    sk: &Skeleton,
    acc: &Option<AccInfo>,
    layout: &CtxLayout,
    base: u64,
    map: &mut IdMap,
    k: usize,
) -> (r: BlockData)
    requires
        layout.packed(),
        base == ir.first_free(),
        base <= 0x1_0000_0000,
        old(map).inv(),
        k < sk.blocks@.len() <= u32::MAX,
        forall|i: int| 0 <= i < sk.blocks@.len() ==> ir.has_block(#[trigger] sk.blocks@[i]),
    ensures
        final(map).inv(),
        (r@, final(map)@) == parts(*ir, *sk, *acc, *layout).block(old(map)@, k as int),
{
    let ghost p = parts(*ir, *sk, *acc, *layout);
    let b = sk.blocks[k];
    let src = ir.block(b);
    let ctx_v = ValueId(base as u32);
    let ghost start = map@;
    let phis: Vec<Phi> = if b == sk.header {
        let iv = Phi { dst: sk.iv_dst, var: sk.iv_var, args: Vec::new() };
        let cv = Phi { dst: ctx_v, var: LocalId(ir.n_locals as u32), args: Vec::new() };
        let v = vec![iv, cv];
        proof {
            assert(iv.args@ =~= seq![]);
            assert(cv.args@ =~= seq![]);
            assert(phi_views(v@) =~= seq![iv@, cv@]);
        }
        v
    } else {
        clone_phis(Ghost(p), &sk.blocks, &src.phis, map)
    };
    let mut insts: Vec<Inst> = if b == sk.header {
        build_preamble(ir, sk, acc, layout, base)
    } else {
        Vec::new()
    };
    let late = match acc {
        Some(a) => a.in_latch,
        None => false,
    };
    if b != sk.header && b == sk.latch && !late {
        assert(inst_views(insts@) =~= seq![]);
        push_store(Ghost(p), ctx_v, acc, &mut insts, map);
    }
    proof {
        let (want_phis, s1) = if b == p.sk.header {
            (phi_views(phis@), start)
        } else {
            p.phis(start, p.ir.at(b)@.phis, p.ir.at(b)@.phis.len())
        };
        let (first, s2) = if b == p.sk.header {
            (p.preamble(), s1)
        } else if b == p.sk.latch && !p.stores_late() {
            p.latch_store(s1)
        } else {
            (seq![], s1)
        };
        assert(inst_views(insts@) =~= first);
        assert(map@ == s2);
    }
    append_clones(&mut insts, &src.insts, map);
    let ghost cloned = inst_views(insts@);
    if b != sk.header && b == sk.latch && late {
        push_store(Ghost(p), ctx_v, acc, &mut insts, map);
    } else {
        assert(cloned + seq![] =~= cloned);
    }
    let term = if b == sk.latch {
        Term::Return(None)
    } else {
        clone_term(Ghost(p), &sk.blocks, &src.term, map)
    };
    BlockData { phis, insts, term, preds: Vec::new() }
}

/// Whether the phis inside the loop take nothing from outside it.
#[verifier::rlimit(40)]
fn phis_stay_inside(
    ir: &FuncIr,
    sk: &Skeleton,
    acc: &Option<AccInfo>,
    layout: &CtxLayout,
) -> (r: bool)
    requires
        sk.blocks@.len() <= u32::MAX,
        forall|i: int| 0 <= i < sk.blocks@.len() ==> ir.has_block(#[trigger] sk.blocks@[i]),
    ensures
        r == parts(*ir, *sk, *acc, *layout).phis_inside(),
{
    let ghost parts = parts(*ir, *sk, *acc, *layout);
    let mut n: usize = 0;
    while n < sk.blocks.len()
        invariant
            parts.ir == *ir,
            parts.sk == sk@,
            sk.blocks@.len() <= u32::MAX,
            forall|i: int| 0 <= i < sk.blocks@.len() ==> ir.has_block(#[trigger] sk.blocks@[i]),
            n <= sk.blocks@.len(),
            forall|i: int, p: int, k: int|
                0 <= i < n && sk.blocks@[i] != sk.header && 0 <= p < ir.at(
                    sk.blocks@[i],
                ).phis@.len() && 0 <= k < ir.at(sk.blocks@[i]).phis@[p].args@.len()
                    ==> sk.blocks@.contains(
                    (#[trigger] ir.at(sk.blocks@[i]).phis@[p].args@[k]).0,
                ),
        decreases sk.blocks@.len() - n,
    {
        let b = sk.blocks[n];
        let phis = &ir.block(b).phis;
        let mut m: usize = 0;
        while b != sk.header && m < phis.len()
            invariant
                parts.ir == *ir,
                parts.sk == sk@,
                sk.blocks@.len() <= u32::MAX,
                n < sk.blocks@.len(),
                b == sk.blocks@[n as int],
                phis@ == ir.at(b).phis@,
                m <= phis@.len(),
                forall|p: int, k: int|
                    0 <= p < m && 0 <= k < phis@[p].args@.len() ==> sk.blocks@.contains(
                        (#[trigger] phis@[p].args@[k]).0,
                    ),
            decreases phis@.len() - m,
        {
            let args = &phis[m].args;
            let mut k: usize = 0;
            while k < args.len()
                invariant
                    parts.ir == *ir,
                    parts.sk == sk@,
                    sk.blocks@.len() <= u32::MAX,
                    n < sk.blocks@.len(),
                    b == sk.blocks@[n as int],
                    b != sk.header,
                    phis@ == ir.at(b).phis@,
                    m < phis@.len(),
                    args@ == phis@[m as int].args@,
                    k <= args@.len(),
                    forall|j: int| 0 <= j < k ==> sk.blocks@.contains((#[trigger] args@[j]).0),
                decreases args@.len() - k,
            {
                if place_of(&sk.blocks, args[k].0).is_none() {
                    assert(parts.ir.at(parts.sk.blocks[n as int]).phis@[m as int].args@[k as int]
                        == args@[k as int]);
                    return false;
                }
                k = k + 1;
            }
            m = m + 1;
        }
        proof {
            assert forall|i: int, p: int, k: int|
                0 <= i < n + 1 && sk.blocks@[i] != sk.header && 0 <= p < ir.at(
                    sk.blocks@[i],
                ).phis@.len() && 0 <= k < ir.at(
                    sk.blocks@[i],
                ).phis@[p].args@.len() implies sk.blocks@.contains(
                (#[trigger] ir.at(sk.blocks@[i]).phis@[p].args@[k]).0,
            ) by {
                if i == n {
                    assert(phis@[p].args@[k] == ir.at(sk.blocks@[i]).phis@[p].args@[k]);
                }
            }
        }
        n = n + 1;
    }
    true
}

/// The types of the values of the body.
fn body_types(
    ir: &FuncIr,
    sk: &Skeleton,
    acc: &Option<AccInfo>,
    layout: &CtxLayout,
    map: &IdMap,
    n: u32,
) -> (r: Vec<Ty>)
    ensures
        r@ == parts(*ir, *sk, *acc, *layout).types(n as nat, map@.pairs, map@.pairs.len()),
{
    let ghost p = parts(*ir, *sk, *acc, *layout);
    let mut out: Vec<Ty> = Vec::new();
    let mut k: u32 = 0;
    while k < n
        invariant
            p.ir == *ir,
            k <= n,
            out@ == p.plain_types(n as nat).take(k as int),
        decreases n - k,
    {
        let ty = if (k as usize) < ir.types.val_tys.len() {
            ir.types.val_tys[k as usize]
        } else {
            Ty::I64
        };
        out.push(ty);
        proof {
            assert(out@ =~= p.plain_types(n as nat).take(k + 1));
        }
        k = k + 1;
    }
    proof {
        assert(p.plain_types(n as nat).take(k as int) =~= p.plain_types(n as nat));
    }
    let mut j: usize = 0;
    while j < map.len()
        invariant
            p.ir == *ir,
            j <= map@.pairs.len(),
            out@.len() == n,
            out@ == p.types(n as nat, map@.pairs, j as nat),
        decreases map@.pairs.len() - j,
    {
        let (from, to) = map.pair(j);
        if let Some(ty) = ir.val_ty(from) {
            if to.0 < n {
                out.set(to.0 as usize, ty);
            }
        }
        j = j + 1;
    }
    out
}

/// The clones of the first `k` blocks are `k` blocks.
pub proof fn lemma_body_len(p: BodyParts, k: nat)
    ensures
        p.blocks(k).0.len() == k,
    decreases k,
{
    if k > 0 {
        lemma_body_len(p, (k - 1) as nat);
    }
}

/// Copies names.
fn copy_names(v: &Vec<String>) -> (r: Vec<String>)
    ensures
        r@.len() == v@.len(),
        forall|i: int| 0 <= i < v@.len() ==> (#[trigger] r@[i])@ == v@[i]@,
{
    let mut out: Vec<String> = Vec::new();
    let mut k: usize = 0;
    while k < v.len()
        invariant
            k <= v@.len(),
            out@.len() == k,
            forall|i: int| 0 <= i < k ==> (#[trigger] out@[i])@ == v@[i]@,
        decreases v@.len() - k,
    {
        out.push(v[k].clone());
        k = k + 1;
    }
    out
}

/// Copies types.
fn copy_types(v: &Vec<Ty>) -> (r: Vec<Ty>)
    ensures
        r@ == v@,
{
    let mut out: Vec<Ty> = Vec::new();
    let mut k: usize = 0;
    while k < v.len()
        invariant
            k <= v@.len(),
            out@ == v@.take(k as int),
        decreases v@.len() - k,
    {
        out.push(v[k]);
        proof {
            assert(v@.take(k + 1) =~= v@.take(k as int).push(v@[k as int]));
        }
        k = k + 1;
    }
    assert(v@.take(k as int) =~= v@);
    out
}

/// Data and length of every array.
fn build_prebind(
    ir: &FuncIr,
    sk: &Skeleton,
    acc: &Option<AccInfo>,
    layout: &CtxLayout,
    base: u64,
) -> (r: Vec<(LocalId, ValueId, ValueId)>)
    requires
        layout.packed(),
        base == ir.first_free(),
        base <= 0x1_0000_0000,
    ensures
        r@ == parts(*ir, *sk, *acc, *layout).prebind(),
{
    let ghost p = parts(*ir, *sk, *acc, *layout);
    let mut out: Vec<(LocalId, ValueId, ValueId)> = Vec::new();
    let mut k: usize = 0;
    while k < layout.arrays.len()
        invariant
            layout.packed(),
            p == parts(*ir, *sk, *acc, *layout),
            base == p.base(),
            base <= 0x1_0000_0000,
            k <= layout.arrays@.len(),
            out@ == p.prebind().take(k as int),
        decreases layout.arrays@.len() - k,
    {
        let b: u64 = base + 1 + 4 * (k as u64);
        out.push((layout.arrays[k].0, ValueId((b + 1) as u32), ValueId((b + 2) as u32)));
        proof {
            assert(out@ =~= p.prebind().take(k + 1));
        }
        k = k + 1;
    }
    proof {
        assert(p.prebind().take(k as int) =~= p.prebind());
    }
    out
}

/// Builds the function that runs one iteration of the loop, and lists where its
/// arrays are; `None` where a phi of the loop takes something from outside it, or
/// value numbers run out.
pub fn build_body_ir(
    ir: &FuncIr,
    sk: &Skeleton,
    acc: &Option<AccInfo>,
    layout: &CtxLayout,
) -> (r: Option<(FuncIr, Vec<(LocalId, ValueId, ValueId)>)>)
    requires
        layout.packed(),
        sk.blocks@.len() < u32::MAX,
        forall|i: int| 0 <= i < sk.blocks@.len() ==> ir.has_block(#[trigger] sk.blocks@[i]),
    ensures
        r is Some <==> parts(*ir, *sk, *acc, *layout).possible(),
        r matches Some((f, prebind)) ==> {
            &&& parts(*ir, *sk, *acc, *layout).is_body(f)
            &&& prebind@ == parts(*ir, *sk, *acc, *layout).prebind()
        },
{
    let ghost p = parts(*ir, *sk, *acc, *layout);
    if !phis_stay_inside(ir, sk, acc, layout) || ir.n_locals >= 0xffff_ffff {
        return None;
    }
    let base: u64 = ir.free_value();
    let mut map = initial_map(ir, sk, acc, layout, base);
    let mut blocks: Vec<BlockData> = Vec::new();
    let mut k: usize = 0;
    assert(block_views(blocks@) =~= seq![]);
    while k < sk.blocks.len()
        invariant
            layout.packed(),
            base == ir.first_free(),
            base <= 0x1_0000_0000,
            p == parts(*ir, *sk, *acc, *layout),
            map.inv(),
            k <= sk.blocks@.len() < u32::MAX,
            forall|i: int| 0 <= i < sk.blocks@.len() ==> ir.has_block(#[trigger] sk.blocks@[i]),
            (block_views(blocks@), map@) == p.blocks(k as nat),
        decreases sk.blocks@.len() - k,
    {
        let b = clone_block(ir, sk, acc, layout, base, &mut map, k);
        proof {
            assert(block_views(blocks@.push(b)) =~= block_views(blocks@).push(b@));
        }
        blocks.push(b);
        k = k + 1;
    }
    let next: u128 = map.next_fresh();
    if next > u32::MAX as u128 {
        return None;
    }
    let exit = BlockData {
        phis: Vec::new(),
        insts: Vec::new(),
        term: Term::Return(None),
        preds: Vec::new(),
    };
    proof {
        lemma_body_len(p, sk.blocks@.len());
        assert(phi_views(exit.phis@) =~= seq![]);
        assert(inst_views(exit.insts@) =~= seq![]);
        assert(block_views(blocks@.push(exit)) =~= block_views(blocks@).push(exit@));
        assert(block_views(blocks@).len() == blocks@.len());
    }
    blocks.push(exit);
    let val_tys = body_types(ir, sk, acc, layout, &map, next as u32);
    if is_array_at(&val_tys, sk.iv_dst) || is_array_at(&val_tys, ValueId(base as u32)) {
        return None;
    }
    let mut local_tys = copy_types(&ir.types.local_tys);
    local_tys.push(Ty::I64);
    let mut local_names = copy_names(&ir.types.local_names);
    local_names.push("$par_ctx".to_owned());
    let mut f = FuncIr {
        name: "__extracted__".to_owned(),
        ret: Ty::Unit,
        blocks,
        entry: BlockId(0),
        next_value: next as u32,
        n_locals: ir.n_locals + 1,
        n_source_locals: ir.n_source_locals,
        types: TypeTables { val_tys, local_tys, local_names },
    };
    f.recompute_edges();
    let prebind = build_prebind(ir, sk, acc, layout, base);
    Some((f, prebind))
}

// ---------------------------------------------------------------------------
// Laws
// ---------------------------------------------------------------------------

/// No two values share a name, and every name is below the next fresh one.
pub open spec fn distinct_names(st: Renaming) -> bool {
    &&& forall|i: int, j: int|
        0 <= i < j < st.pairs.len() ==> (#[trigger] st.pairs[i]).0 != (#[trigger] st.pairs[j]).0
            && st.pairs[i].1 != st.pairs[j].1
    &&& forall|i: int| 0 <= i < st.pairs.len() ==> (#[trigger] st.pairs[i]).1.0 < st.next
}

/// Names stay distinct as long as numbers do not run out.
spec fn sound(st: Renaming) -> bool {
    st.next <= u32::MAX ==> distinct_names(st)
}

/// What is not found has no pair.
proof fn lemma_lookup_none(pairs: Seq<(ValueId, ValueId)>, v: ValueId)
    requires
        crate::rename::lookup(pairs, v) is None,
    ensures
        forall|i: int| 0 <= i < pairs.len() ==> (#[trigger] pairs[i]).0 != v,
    decreases pairs.len(),
{
    if pairs.len() > 0 {
        let d = pairs.drop_last();
        lemma_lookup_none(d, v);
        assert forall|i: int| 0 <= i < pairs.len() implies (#[trigger] pairs[i]).0 != v by {
            if i < d.len() {
                assert(d[i] == pairs[i]);
            }
        }
    }
}

proof fn lemma_name(st: Renaming, v: ValueId)
    requires
        sound(st),
    ensures
        sound(st.name(v).1),
        st.name(v).1.next >= st.next,
{
    if crate::rename::lookup(st.pairs, v) is None {
        lemma_lookup_none(st.pairs, v);
    }
}

proof fn lemma_names(st: Renaming, vs: Seq<ValueId>, k: nat)
    requires
        sound(st),
    ensures
        sound(st.names(vs, k).1),
        st.names(vs, k).1.next >= st.next,
    decreases k,
{
    if k > 0 {
        lemma_names(st, vs, (k - 1) as nat);
        lemma_name(st.names(vs, (k - 1) as nat).1, vs[k - 1]);
    }
}

proof fn lemma_inst(st: Renaming, i: InstV)
    requires
        sound(st),
    ensures
        sound(st.inst(i).1),
        st.inst(i).1.next >= st.next,
{
    match i {
        InstV::Const { dst, .. } => {
            lemma_name(st, dst);
        },
        InstV::Bin { dst, a, b, .. } => {
            lemma_name(st, dst);
            lemma_name(st.name(dst).1, a);
            lemma_name(st.name(dst).1.name(a).1, b);
        },
        InstV::Unary { dst, a, .. } => {
            lemma_name(st, dst);
            lemma_name(st.name(dst).1, a);
        },
        InstV::Cast { dst, val, .. } => {
            lemma_name(st, dst);
            lemma_name(st.name(dst).1, val);
        },
        InstV::Load(l) => {
            lemma_name(st, l.dst);
            lemma_name(st.name(l.dst).1, l.idx);
        },
        InstV::Store { idx, val, .. } => {
            lemma_name(st, idx);
            lemma_name(st.name(idx).1, val);
        },
        InstV::Call { dst, args, .. } => {
            let s1 = match dst {
                Some(v) => st.name(v).1,
                None => st,
            };
            if dst is Some {
                lemma_name(st, dst->0);
            }
            lemma_names(s1, args, args.len());
        },
    }
}

proof fn lemma_insts(st: Renaming, s: Seq<InstV>, k: nat)
    requires
        sound(st),
    ensures
        sound(st.insts(s, k).1),
        st.insts(s, k).1.next >= st.next,
    decreases k,
{
    if k > 0 {
        lemma_insts(st, s, (k - 1) as nat);
        lemma_inst(st.insts(s, (k - 1) as nat).1, s[k - 1]);
    }
}

proof fn lemma_phi_args(p: BodyParts, st: Renaming, args: Seq<(BlockId, ValueId)>, k: nat)
    requires
        sound(st),
    ensures
        sound(p.phi_args(st, args, k).1),
        p.phi_args(st, args, k).1.next >= st.next,
    decreases k,
{
    if k > 0 {
        lemma_phi_args(p, st, args, (k - 1) as nat);
        lemma_name(p.phi_args(st, args, (k - 1) as nat).1, args[k - 1].1);
    }
}

proof fn lemma_phis(p: BodyParts, st: Renaming, phis: Seq<PhiV>, k: nat)
    requires
        sound(st),
    ensures
        sound(p.phis(st, phis, k).1),
        p.phis(st, phis, k).1.next >= st.next,
    decreases k,
{
    if k > 0 {
        lemma_phis(p, st, phis, (k - 1) as nat);
        let s1 = p.phis(st, phis, (k - 1) as nat).1;
        let phi = phis[k - 1];
        lemma_name(s1, phi.dst);
        lemma_phi_args(p, s1.name(phi.dst).1, phi.args, phi.args.len());
    }
}

proof fn lemma_term(p: BodyParts, st: Renaming, t: TermV)
    requires
        sound(st),
    ensures
        sound(p.term(st, t).1),
        p.term(st, t).1.next >= st.next,
{
    match t {
        TermV::Jump(_, args) => {
            lemma_names(st, args, args.len());
        },
        TermV::Branch { cond, .. } => {
            lemma_name(st, cond);
        },
        TermV::Return(v) => {
            if v is Some {
                lemma_name(st, v->0);
            }
        },
    }
}

proof fn lemma_block(p: BodyParts, st: Renaming, k: int)
    requires
        sound(st),
    ensures
        sound(p.block(st, k).1),
        p.block(st, k).1.next >= st.next,
{
    let b = p.sk.blocks[k];
    let src = p.ir.at(b)@;
    let s1 = if b == p.sk.header {
        st
    } else {
        p.phis(st, src.phis, src.phis.len()).1
    };
    if b != p.sk.header {
        lemma_phis(p, st, src.phis, src.phis.len());
    }
    let stores = b != p.sk.header && b == p.sk.latch && p.acc is Some;
    if stores {
        lemma_name(s1, p.acc->0.back);
    }
    let s2 = if stores && !p.stores_late() {
        p.latch_store(s1).1
    } else {
        s1
    };
    lemma_insts(s2, src.insts, src.insts.len());
    let s3 = s2.insts(src.insts, src.insts.len()).1;
    if stores {
        lemma_name(s3, p.acc->0.back);
    }
    let s4 = if stores && p.stores_late() {
        p.latch_store(s3).1
    } else {
        s3
    };
    lemma_term(p, s4, src.term);
}

proof fn lemma_blocks(p: BodyParts, k: nat)
    requires
        sound(p.initial()),
    ensures
        sound(p.blocks(k).1),
        p.blocks(k).1.next >= p.initial().next,
    decreases k,
{
    if k > 0 {
        lemma_blocks(p, (k - 1) as nat);
        lemma_block(p, p.blocks((k - 1) as nat).1, k - 1);
    }
}

/// The kept names of captured values.
pub proof fn lemma_kept_scalars(p: BodyParts, k: nat)
    requires
        k <= p.scalars.len(),
    ensures
        p.kept_scalars(k).len() == k,
        forall|i: int|
            0 <= i < k ==> #[trigger] p.kept_scalars(k)[i] == (
                ValueId(p.scalars[i].0),
                ValueId(p.scalars[i].0),
            ),
    decreases k,
{
    if k > 0 {
        lemma_kept_scalars(p, (k - 1) as nat);
        assert forall|i: int| 0 <= i < k implies #[trigger] p.kept_scalars(k)[i] == (
            ValueId(p.scalars[i].0),
            ValueId(p.scalars[i].0),
        ) by {
            if i < k - 1 {
                assert(p.kept_scalars((k - 1) as nat)[i] == p.kept_scalars(k)[i]);
            }
        }
    }
}

/// The kept names of the words of arrays.
pub proof fn lemma_kept_arrays(p: BodyParts, k: nat)
    requires
        k <= p.arrays.len(),
        p.array_base(k as int) <= u32::MAX,
    ensures
        p.kept_arrays(k).len() == 2 * k,
        forall|i: int|
            0 <= i < 2 * k ==> (#[trigger] p.kept_arrays(k)[i]).0 == p.kept_arrays(k)[i].1
                && p.kept_arrays(k)[i].0.0 == p.base() + 1 + 4 * (i / 2) + 1 + i % 2,
    decreases k,
{
    if k > 0 {
        let prior = p.kept_arrays((k - 1) as nat);
        lemma_kept_arrays(p, (k - 1) as nat);
        assert forall|i: int| 0 <= i < 2 * k implies (#[trigger] p.kept_arrays(k)[i]).0
            == p.kept_arrays(k)[i].1 && p.kept_arrays(k)[i].0.0 == p.base() + 1 + 4 * (i / 2) + 1
            + i % 2 by {
            if i < 2 * (k - 1) {
                assert(p.kept_arrays(k)[i] == prior[i]);
            }
        }
    }
}

/// The values that the body binds under their own names are distinct, and the
/// function has them: they are below its free numbers.
pub open spec fn bound_names_distinct(p: BodyParts) -> bool {
    &&& forall|i: int, j: int|
        0 <= i < j < p.scalars.len() ==> (#[trigger] p.scalars[i]).0 != (
        #[trigger] p.scalars[j]).0
    &&& forall|i: int|
        0 <= i < p.scalars.len() ==> (#[trigger] p.scalars[i]).0 < p.base() && p.scalars[i].0
            != p.sk.iv_dst.0 && (p.acc is Some ==> p.scalars[i].0 != p.acc->0.dst.0)
    &&& p.sk.iv_dst.0 < p.base()
    &&& p.acc is Some ==> p.acc->0.dst != p.sk.iv_dst && p.acc->0.dst.0 < p.base()
}

/// Renaming confuses no two values: in the finished body every two values of the loop
/// have two names, all below the number of values of the body.
pub proof fn lemma_names_are_distinct(p: BodyParts)
    requires
        bound_names_distinct(p),
        p.possible(),
    ensures
        distinct_names(p.clones().1),
{
    let st = p.initial();
    let n = p.sk.blocks.len();
    let scalars = p.kept_scalars(p.scalars.len());
    lemma_kept_scalars(p, p.scalars.len());
    if st.next <= u32::MAX {
        lemma_kept_arrays(p, p.arrays.len());
        let arrays = p.kept_arrays(p.arrays.len());
        let m: int = scalars.len() as int + if p.acc is Some { 1int } else { 0int };
        assert forall|i: int| 0 <= i < st.pairs.len() implies (#[trigger] st.pairs[i]).0
            == st.pairs[i].1 && st.pairs[i].1.0 < st.next && (i < m + 1 ==> st.pairs[i].0.0
            < p.base()) && (i == m + 1 ==> st.pairs[i].0.0 == p.base()) && (i > m + 1
            ==> st.pairs[i] == arrays[i - m - 2]) by {
            if i < scalars.len() {
                assert(st.pairs[i] == scalars[i]);
            } else if i > m + 1 {
                assert(st.pairs[i] == arrays[i - m - 2]);
            }
        }
        assert forall|i: int, j: int| 0 <= i < j < st.pairs.len() implies (
        #[trigger] st.pairs[i]).0 != (#[trigger] st.pairs[j]).0 && st.pairs[i].1
            != st.pairs[j].1 by {
            if j < scalars.len() {
                assert(st.pairs[i] == scalars[i] && st.pairs[j] == scalars[j]);
                assert(p.scalars[i].0 != p.scalars[j].0);
            } else if j <= m {
                if i < scalars.len() {
                    assert(st.pairs[i] == scalars[i]);
                    assert(p.scalars[i].0 != p.sk.iv_dst.0);
                }
            } else if j > m + 1 {
                assert(st.pairs[j] == arrays[j - m - 2]);
                if i > m + 1 {
                    assert(st.pairs[i] == arrays[i - m - 2]);
                }
            }
        }
        assert(distinct_names(st));
    }
    assert(sound(st));
    lemma_blocks(p, n);
}

/// The place of a block is within the body.
proof fn lemma_place(p: BodyParts, b: BlockId)
    requires
        p.sk.blocks.len() < u32::MAX,
    ensures
        p.retarget(b).0 <= p.sk.blocks.len(),
{
    lemma_first_where(p.sk.blocks, is_block(b));
}

/// The terminators of the first `k` clones go to blocks of the body.
proof fn lemma_targets(p: BodyParts, k: nat, i: int, t: int)
    requires
        p.sk.blocks.len() < u32::MAX,
        k <= p.sk.blocks.len(),
        0 <= i < k,
        0 <= t < p.blocks(k).0[i].term.targets().len(),
    ensures
        p.blocks(k).0[i].term.targets()[t].0 <= p.sk.blocks.len(),
    decreases k,
{
    lemma_body_len(p, k);
    lemma_body_len(p, (k - 1) as nat);
    let before = p.blocks((k - 1) as nat);
    if i < k - 1 {
        assert(p.blocks(k).0[i] == before.0[i]);
        lemma_targets(p, (k - 1) as nat, i, t);
    } else {
        let b = p.sk.blocks[k - 1];
        match p.ir.at(b)@.term {
            TermV::Jump(x, _) => {
                lemma_place(p, x);
            },
            TermV::Branch { t, f, .. } => {
                lemma_place(p, t);
                lemma_place(p, f);
            },
            TermV::Return(_) => {},
        }
    }
}

/// The body is a function in its own right: its entry and every target of its
/// terminators are blocks of it. Its last block returns.
pub proof fn law_body_is_well_formed(p: BodyParts, f: FuncIr)
    requires
        p.sk.blocks.len() < u32::MAX,
        p.is_body(f),
    ensures
        f.wf(),
        f.blocks@.len() == p.sk.blocks.len() + 1,
        f.blocks@.last().term@ == TermV::Return(None),
{
    let n = p.sk.blocks.len();
    lemma_body_len(p, n);
    let views = block_views(f.blocks@);
    assert(views.len() == n + 1);
    assert(views[n as int] == f.blocks@[n as int]@);
    assert forall|a: BlockId, k: int|
        f.has_block(a) && 0 <= k < f.at(a).term.targets().len() implies f.has_block(
        #[trigger] f.at(a).term.targets()[k],
    ) by {
        assert(views[a.0 as int] == f.blocks@[a.0 as int]@);
        assert(f.at(a).term@.targets() =~= f.at(a).term.targets());
        if a.0 < n {
            assert(p.clones().0[a.0 as int] == views[a.0 as int]);
            lemma_targets(p, n, a.0 as int, k);
        }
    }
}

/// One call runs one iteration: the block that went back to the header returns.
pub proof fn law_latch_returns(p: BodyParts, k: int)
    requires
        0 <= k < p.sk.blocks.len(),
        p.sk.blocks[k] == p.sk.latch,
    ensures
        p.all_blocks()[k].term == TermV::Return(None),
{
    lemma_body_len(p, p.sk.blocks.len());
    lemma_clone_at(p, p.sk.blocks.len(), k);
}

/// The clone at a position is that of the block there.
pub proof fn lemma_clone_at(p: BodyParts, n: nat, k: int)
    requires
        0 <= k < n <= p.sk.blocks.len(),
    ensures
        p.blocks(n).0[k] == p.block(p.blocks(k as nat).1, k).0,
    decreases n,
{
    lemma_body_len(p, n);
    lemma_body_len(p, (n - 1) as nat);
    if k < n - 1 {
        lemma_clone_at(p, (n - 1) as nat, k);
    }
}

} // verus!
