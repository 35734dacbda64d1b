//! Lowering of one function to machine-level blocks.
//!
//! * Every block of the function becomes one block, in order; its phis become the
//!   parameters, and every edge into it supplies them in that order.
//! * Arrays are pairs of data and length.
//! * Division, remainder, loads and stores are guarded: a failed check goes to one
//!   block that reports the error to the host and returns zeros. The checks of loads
//!   and stores can be left out; those of divisions cannot.
//! * The header of a parallel region hands the loop to the host instead of entering
//!   it: it stashes what the loop captures, dispatches, reads the result back and goes
//!   on at the exit.
use std::collections::HashMap;

use vstd::prelude::*;

use crate::clif::{
    body_sig, body_signature, callee_views, params_below, clif_ty, elem_clif_ty, elem_size, element_bytes, element_ty,
    float_cc, float_cond, int_cc, int_cond, phi_ty, scalar_ty, sig_of, signature_of,
    BinaryOp, Callee, CalleeV, ClifBlock, ClifBlockV, ClifFunc, ClifInst, ClifInstV, ClifTy,
    ConvertOp, FloatCond, IntCond, Op, OpV, Sig, SigV, UnaryOp, Val, BOOL_TY,
};
use crate::graph::{is_header, natural_loop, natural_loop_of, successors};
use crate::ir::{
    block_defines, holds_def, BinOp, BlockId, Call, Constant, ElemTy, FuncIr, Inst, Load, LocalId,
    Phi, Term, Ty, UnOp, ValueId,
};
use crate::loops::has_member;
use crate::outline::RKind;
use crate::parallel::{HookV, RtHook, NTHREADS_HINT};
use crate::search::{
    any_where, first_where, lemma_first_where, lemma_first_where_is, lemma_first_where_none,
};
use crate::text::{is_text, natural_text, push_natural, push_text};
use crate::traps::{PanicCode, BOUNDS, DIV_BY_ZERO, DIV_OVERFLOW};

verus! {

broadcast use vstd::std_specs::hash::group_hash_axioms;

/// Data and length of an array.
#[derive(Clone, Copy, Debug, PartialEq, Eq, Structural)]
pub struct FatPtr {
    pub data: Val,
    pub len: Val,
}

/// A lowering under way.
struct Lowering<'a> {
    ir: &'a FuncIr,
    unchecked: bool,
    callees: &'a Vec<Callee>,
    tys: Vec<ClifTy>,
    blocks: Vec<ClifBlock>,
    cur: usize,
    imports: Vec<usize>,
    vals: HashMap<u32, Val>,
    arrays: HashMap<u32, FatPtr>,
    panic: Option<usize>,
    repairs: HashMap<u32, Val>,
    prebind: &'a Vec<(LocalId, ValueId, ValueId)>,
}

/// A lowering under way, as mathematical values.
#[verifier::ext_equal]
pub struct Low {
    pub ir: FuncIr,
    /// Loads and stores are not checked.
    pub unchecked: bool,
    pub callees: Seq<CalleeV>,
    /// Type of every machine value.
    pub tys: Seq<ClifTy>,
    pub blocks: Seq<ClifBlockV>,
    /// The block that instructions are appended to.
    pub cur: usize,
    pub imports: Seq<usize>,
    /// The machine value of every value that has one.
    pub vals: Map<u32, Val>,
    /// The pair of every array that has one.
    pub arrays: Map<u32, FatPtr>,
    /// The block that reports errors.
    pub panic: Option<usize>,
    /// The parameters that stand for values read by their own definitions.
    pub repairs: Map<u32, Val>,
    /// Arrays that are known by the values of their data and length.
    pub prebind: Seq<(LocalId, ValueId, ValueId)>,
}

/// Views of blocks.
pub open spec fn clif_views(s: Seq<ClifBlock>) -> Seq<ClifBlockV> {
    s.map_values(|b: ClifBlock| b@)
}

impl<'a> View for Lowering<'a> {
    type V = Low;

    closed spec fn view(&self) -> Low {
        Low {
            ir: *self.ir,
            unchecked: self.unchecked,
            callees: callee_views(self.callees@),
            tys: self.tys@,
            blocks: clif_views(self.blocks@),
            cur: self.cur,
            imports: self.imports@,
            vals: self.vals@,
            arrays: self.arrays@,
            panic: self.panic,
            repairs: self.repairs@,
            prebind: self.prebind@,
        }
    }
}

/// A callee of that name.
pub open spec fn named(name: Seq<char>) -> spec_fn(CalleeV) -> bool {
    |c: CalleeV| c.name == name
}

/// The import of a callee.
pub open spec fn imports_callee(k: usize) -> spec_fn(usize) -> bool {
    |i: usize| i == k
}

/// The entry of an array.
pub open spec fn is_local(l: LocalId) -> spec_fn((LocalId, ValueId, ValueId)) -> bool {
    |e: (LocalId, ValueId, ValueId)| e.0 == l
}

/// A floating-point type.
pub open spec fn is_float(ty: Ty) -> bool {
    ty == Ty::F32 || ty == Ty::F64
}

/// A floating-point type.
fn floating(ty: Ty) -> (r: bool)
    ensures
        r == is_float(ty),
{
    match ty {
        Ty::F32 => true,
        Ty::F64 => true,
        _ => false,
    }
}

/// The constant zero of a type.
pub open spec fn zero_op(t: ClifTy) -> OpV {
    match t {
        ClifTy::F32 => OpV::F32const(0),
        ClifTy::F64 => OpV::F64const(0),
        t => OpV::Iconst(t, 0),
    }
}

impl Low {
    /// The value that comes into being next.
    pub open spec fn next(self) -> Val {
        Val(self.tys.len() as usize)
    }

    /// An instruction at the end of the current block, with results of these types.
    pub open spec fn put(self, op: OpV, results: Seq<ClifTy>) -> Low {
        let b = self.blocks[self.cur as int];
        let inst = ClifInstV {
            op,
            first: self.tys.len() as usize,
            count: results.len() as usize,
        };
        Low {
            tys: self.tys + results,
            blocks: self.blocks.update(
                self.cur as int,
                ClifBlockV { insts: b.insts.push(inst), ..b },
            ),
            ..self
        }
    }

    /// An instruction with one result.
    pub open spec fn ins(self, op: OpV, t: ClifTy) -> Low {
        self.put(op, seq![t])
    }

    /// An instruction without results.
    pub open spec fn end(self, op: OpV) -> Low {
        self.put(op, seq![])
    }

    /// An empty block more.
    pub open spec fn with_block(self) -> Low {
        Low {
            blocks: self.blocks.push(ClifBlockV { params: seq![], insts: seq![] }),
            ..self
        }
    }

    /// A parameter more for a block.
    pub open spec fn with_param(self, b: usize, t: ClifTy) -> Low {
        let data = self.blocks[b as int];
        Low {
            tys: self.tys.push(t),
            blocks: self.blocks.update(
                b as int,
                ClifBlockV { params: data.params.push(self.next()), ..data },
            ),
            ..self
        }
    }

    /// Appends to block `b` from here on.
    pub open spec fn at(self, b: usize) -> Low {
        Low { cur: b, ..self }
    }

    /// The value is known as `x`.
    pub open spec fn bind(self, v: ValueId, x: Val) -> Low {
        Low { vals: self.vals.insert(v.0, x), ..self }
    }

    /// The value is known as `x`, if there is one.
    pub open spec fn bind_result(self, v: Option<ValueId>, x: Val) -> Low {
        match v {
            Some(v) => self.bind(v, x),
            None => self,
        }
    }

    /// The array is known as the pair.
    pub open spec fn bind_array(self, l: LocalId, p: FatPtr) -> Low {
        Low { arrays: self.arrays.insert(l.0, p), ..self }
    }

    /// `x` has come into being.
    pub open spec fn has(self, x: Val) -> bool {
        (x.0 as int) < self.tys.len()
    }

    /// The machine type of a machine value.
    pub open spec fn ty_of(self, x: Val) -> ClifTy {
        self.tys[x.0 as int]
    }

    /// The type of a value; `I64` where the table has none.
    pub open spec fn source_ty(self, v: ValueId) -> Ty {
        match self.ir.type_of(v) {
            Some(t) => t,
            None => Ty::I64,
        }
    }

    /// The machine value of a value that is read.
    pub open spec fn lookup(self, v: ValueId) -> Result<Val, Seq<char>> {
        if self.repairs.dom().contains(v.0) {
            Ok(self.repairs[v.0])
        } else if self.vals.dom().contains(v.0) {
            Ok(self.vals[v.0])
        } else {
            Err(
                "value v"@ + natural_text(v.0 as nat)
                    + " used before definition (IR not SSA?)"@,
            )
        }
    }

    /// The pair of an array that is read.
    pub open spec fn lookup_array(self, l: LocalId) -> Result<FatPtr, Seq<char>> {
        if self.arrays.dom().contains(l.0) {
            Ok(self.arrays[l.0])
        } else {
            match first_where(self.prebind, is_local(l)) {
                Some(k) => match self.lookup(self.prebind[k].1) {
                    Ok(data) => match self.lookup(self.prebind[k].2) {
                        Ok(len) => Ok(FatPtr { data, len }),
                        Err(m) => Err(m),
                    },
                    Err(m) => Err(m),
                },
                None => Err(
                    "array local l"@ + natural_text(l.0 as nat) + " referenced before allocation"@,
                ),
            }
        }
    }

    /// Blocks, values and references fit each other: the current block exists, bound
    /// values have types, imports name callees.
    pub open spec fn wf(self) -> bool {
        &&& (self.cur as int) < self.blocks.len()
        &&& forall|v: u32|
            #![trigger self.vals.dom().contains(v)]
            self.vals.dom().contains(v) ==> self.has(self.vals[v])
        &&& forall|v: u32|
            #![trigger self.repairs.dom().contains(v)]
            self.repairs.dom().contains(v) ==> self.has(self.repairs[v])
        &&& forall|v: u32|
            #![trigger self.arrays.dom().contains(v)]
            self.arrays.dom().contains(v) ==> self.has(self.arrays[v].data) && self.has(
                self.arrays[v].len,
            )
        &&& forall|k: int|
            0 <= k < self.imports.len() ==> (#[trigger] self.imports[k] as int)
                < self.callees.len()
        &&& forall|b: int, k: int|
            #![trigger self.blocks[b].params[k]]
            0 <= b < self.blocks.len() && 0 <= k < self.blocks[b].params.len() ==> self.has(
                self.blocks[b].params[k],
            )
        &&& self.panic matches Some(b) ==> (b as int) < self.blocks.len()
            && self.blocks[b as int].params.len() >= 3
    }

    /// An import of a callee by its name: the one there is, or a new one.
    pub open spec fn import(self, name: Seq<char>) -> Result<(Low, usize), Seq<char>> {
        match first_where(self.callees, named(name)) {
            Some(k) => match first_where(self.imports, imports_callee(k as usize)) {
                Some(i) => Ok((self, i as usize)),
                None => Ok(
                    (
                        Low { imports: self.imports.push(k as usize), ..self },
                        self.imports.len() as usize,
                    ),
                ),
            },
            None => Err("callee '"@ + name + "' was never declared"@),
        }
    }

    /// The signature of an import.
    pub open spec fn import_sig(self, f: usize) -> SigV {
        self.callees[self.imports[f as int] as int].sig
    }

    /// A call of an import.
    pub open spec fn call(self, f: usize, args: Seq<Val>) -> Low {
        self.put(OpV::Call(f, args), self.import_sig(f).returns)
    }
}

/// Whether the result of an executable step is the one that is stated: the same state,
/// or the same error.
pub open spec fn agrees(r: Result<(), String>, end: Low, want: Result<Low, Seq<char>>) -> bool {
    match want {
        Ok(low) => r is Ok && end == low,
        Err(m) => r matches Err(s) && s@ == m,
    }
}

/// The same for a step that gives a value.
pub open spec fn agrees_on<T>(
    r: Result<T, String>,
    end: Low,
    want: Result<(Low, T), Seq<char>>,
) -> bool {
    match want {
        Ok((low, x)) => r matches Ok(y) && y == x && end == low,
        Err(m) => r matches Err(s) && s@ == m,
    }
}

/// The same for a step that only reads.
pub open spec fn reads_as<T>(r: Result<T, String>, want: Result<T, Seq<char>>) -> bool {
    match want {
        Ok(x) => r matches Ok(y) && y == x,
        Err(m) => r matches Err(s) && s@ == m,
    }
}

/// What every step keeps: the function, the callees, and all that came into being.
pub open spec fn keeps(a: Low, b: Low) -> bool {
    &&& b.ir == a.ir
    &&& b.unchecked == a.unchecked
    &&& b.callees == a.callees
    &&& b.prebind == a.prebind
    &&& a.tys.len() <= b.tys.len()
    &&& forall|k: int| 0 <= k < a.tys.len() ==> #[trigger] b.tys[k] == a.tys[k]
    &&& a.blocks.len() <= b.blocks.len()
    &&& forall|i: int|
        #![trigger b.blocks[i]]
        0 <= i < a.blocks.len() ==> a.blocks[i].params.len() <= b.blocks[i].params.len()
    &&& a.imports.len() <= b.imports.len()
    &&& forall|k: int| 0 <= k < a.imports.len() ==> #[trigger] b.imports[k] == a.imports[k]
}

/// Whether two texts are the same.
fn text_is(a: &String, b: &String) -> (r: bool)
    ensures
        r == (a@ == b@),
{
    *a == *b
}

/// An error with a fixed text.
fn fail<T>(text: &str) -> (r: Result<T, String>)
    ensures
        r matches Err(s) && s@ == text@,
{
    Err(text.to_owned())
}

impl<'a> Lowering<'a> {
    /// Appends an instruction with results of the types of `results`.
    fn put(&mut self, op: Op, results: &Vec<ClifTy>)
        requires
            old(self)@.wf(),
        ensures
            final(self)@ == old(self)@.put(op@, results@),
            final(self)@.wf(),
            keeps(old(self)@, final(self)@),
    {
        let ghost start = self@;
        let first: usize = self.tys.len();
        let inst = ClifInst { op, first, count: results.len() };
        let ghost made = inst@;
        let ghost blocks_before = self.blocks@;
        let ghost cur = self.cur as int;
        let mut k: usize = 0;
        while k < results.len()
            invariant
                k <= results@.len(),
                self.tys@ == start.tys + results@.take(k as int),
                self@ == (Low { tys: self.tys@, ..start }),
                self.blocks@ == blocks_before,
                self.cur == cur,
            decreases results@.len() - k,
        {
            self.tys.push(results[k]);
            k = k + 1;
            assert(results@.take(k as int) =~= results@.take(k - 1).push(results@[k - 1]));
            assert(self.tys@ =~= start.tys + results@.take(k as int));
        }
        assert(results@.take(k as int) =~= results@);
        let mut block = ClifBlock { params: Vec::new(), insts: Vec::new() };
        let at: usize = self.cur;
        self.blocks.set_and_swap(at, &mut block);
        let ghost old_block = block@;
        let ghost old_insts = block.insts@;
        block.insts.push(inst);
        let ghost new_block = block@;
        self.blocks.set(at, block);
        proof {
            assert(new_block.insts =~= old_block.insts.push(made));
            assert(clif_views(self.blocks@) =~= start.blocks.update(cur, new_block));
            assert(self@ =~= start.put(op@, results@));
        }
    }

    /// Appends an instruction with one result.
    fn ins(&mut self, op: Op, t: ClifTy) -> (r: Val)
        requires
            old(self)@.wf(),
        ensures
            final(self)@ == old(self)@.ins(op@, t),
            final(self)@.wf(),
            r == old(self)@.next(),
            final(self)@.has(r),
            final(self)@.ty_of(r) == t,
            keeps(old(self)@, final(self)@),
    {
        let r = Val(self.tys.len());
        let results: Vec<ClifTy> = vec![t];
        assert(results@ =~= seq![t]);
        self.put(op, &results);
        r
    }

    /// Appends an instruction without results.
    fn end(&mut self, op: Op)
        requires
            old(self)@.wf(),
        ensures
            final(self)@ == old(self)@.end(op@),
            final(self)@.wf(),
            keeps(old(self)@, final(self)@),
    {
        let results: Vec<ClifTy> = Vec::new();
        assert(results@ =~= seq![]);
        self.put(op, &results);
    }

    /// Makes an empty block.
    fn create_block(&mut self) -> (r: usize)
        requires
            old(self)@.wf(),
        ensures
            final(self)@ == old(self)@.with_block(),
            final(self)@.wf(),
            r == old(self)@.blocks.len(),
            keeps(old(self)@, final(self)@),
    {
        let ghost start = self@;
        let r: usize = self.blocks.len();
        let block = ClifBlock { params: Vec::new(), insts: Vec::new() };
        let ghost made = block@;
        self.blocks.push(block);
        proof {
            assert(made =~= ClifBlockV { params: seq![], insts: seq![] });
            assert(clif_views(self.blocks@) =~= start.blocks.push(made));
            assert(self@ =~= start.with_block());
        }
        r
    }

    /// Appends a parameter to a block.
    fn append_param(&mut self, b: usize, t: ClifTy) -> (r: Val)
        requires
            old(self)@.wf(),
            (b as int) < old(self)@.blocks.len(),
        ensures
            final(self)@ == old(self)@.with_param(b, t),
            final(self)@.wf(),
            r == old(self)@.next(),
            final(self)@.has(r),
            final(self)@.ty_of(r) == t,
            keeps(old(self)@, final(self)@),
    {
        let ghost start = self@;
        let r = Val(self.tys.len());
        self.tys.push(t);
        let mut block = ClifBlock { params: Vec::new(), insts: Vec::new() };
        self.blocks.set_and_swap(b, &mut block);
        let ghost old_block = block@;
        block.params.push(r);
        let ghost new_block = block@;
        self.blocks.set(b, block);
        proof {
            assert(new_block.insts =~= old_block.insts);
            assert(clif_views(self.blocks@) =~= start.blocks.update(b as int, new_block));
            assert(self@ =~= start.with_param(b, t));
        }
        r
    }

    /// Appends to block `b` from here on.
    fn switch_to(&mut self, b: usize)
        requires
            old(self)@.wf(),
            (b as int) < old(self)@.blocks.len(),
        ensures
            final(self)@ == old(self)@.at(b),
            final(self)@.wf(),
            keeps(old(self)@, final(self)@),
    {
        self.cur = b;
    }

    /// Lets the value be known as `x`.
    fn bind(&mut self, v: ValueId, x: Val)
        requires
            old(self)@.wf(),
            old(self)@.has(x),
        ensures
            final(self)@ == old(self)@.bind(v, x),
            final(self)@.wf(),
            keeps(old(self)@, final(self)@),
    {
        self.vals.insert(v.0, x);
    }

    /// Lets the value, if there is one, be known as `x`.
    fn bind_result(&mut self, v: Option<ValueId>, x: Val)
        requires
            old(self)@.wf(),
            old(self)@.has(x),
        ensures
            final(self)@ == old(self)@.bind_result(v, x),
            final(self)@.wf(),
            keeps(old(self)@, final(self)@),
    {
        if let Some(v) = v {
            self.bind(v, x);
        }
    }

    /// Lets the array be known as the pair.
    fn bind_array(&mut self, l: LocalId, p: FatPtr)
        requires
            old(self)@.wf(),
            old(self)@.has(p.data),
            old(self)@.has(p.len),
        ensures
            final(self)@ == old(self)@.bind_array(l, p),
            final(self)@.wf(),
            keeps(old(self)@, final(self)@),
    {
        self.arrays.insert(l.0, p);
    }

    /// The machine type of a machine value.
    fn ty_of(&self, x: Val) -> (r: ClifTy)
        requires
            self@.has(x),
        ensures
            r == self@.ty_of(x),
    {
        self.tys[x.0]
    }

    /// The type of a value.
    fn source_ty(&self, v: ValueId) -> (r: Ty)
        ensures
            r == self@.source_ty(v),
    {
        match self.ir.val_ty(v) {
            Some(t) => t,
            None => Ty::I64,
        }
    }

    /// The machine value of a value that is read.
    fn lookup_scalar(&self, v: ValueId) -> (r: Result<Val, String>)
        requires
            self@.wf(),
        ensures
            reads_as(r, self@.lookup(v)),
            r matches Ok(x) ==> self@.has(x),
    {
        if let Some(x) = self.repairs.get(&v.0) {
            return Ok(*x);
        }
        match self.vals.get(&v.0) {
            Some(x) => Ok(*x),
            None => {
                let mut s = "value v".to_owned();
                push_natural(&mut s, v.0 as u128);
                push_text(&mut s, " used before definition (IR not SSA?)");
                Err(s)
            },
        }
    }

    /// The pair of an array that is read.
    fn lookup_array(&self, l: LocalId) -> (r: Result<FatPtr, String>)
        requires
            self@.wf(),
        ensures
            reads_as(r, self@.lookup_array(l)),
            r matches Ok(p) ==> self@.has(p.data) && self@.has(p.len),
    {
        if let Some(p) = self.arrays.get(&l.0) {
            return Ok(*p);
        }
        let ghost same = is_local(l);
        let mut k: usize = 0;
        while k < self.prebind.len()
            invariant
                self@.wf(),
                !self@.arrays.dom().contains(l.0),
                same == is_local(l),
                k <= self.prebind@.len(),
                forall|j: int| 0 <= j < k ==> !same(#[trigger] self.prebind@[j]),
            decreases self.prebind@.len() - k,
        {
            let (m, d, n) = self.prebind[k];
            if m == l {
                proof {
                    lemma_first_where_is(self.prebind@, same, k as int);
                }
                let data = match self.lookup_scalar(d) {
                    Ok(x) => x,
                    Err(e) => {
                        return Err(e);
                    },
                };
                return match self.lookup_scalar(n) {
                    Ok(len) => Ok(FatPtr { data, len }),
                    Err(e) => Err(e),
                };
            }
            k = k + 1;
        }
        proof {
            lemma_first_where_none(self.prebind@, same);
        }
        let mut s = "array local l".to_owned();
        push_natural(&mut s, l.0 as u128);
        push_text(&mut s, " referenced before allocation");
        Err(s)
    }

    /// Imports a callee by its name.
    #[verifier::rlimit(40)]
    fn import_in_func(&mut self, name: &str) -> (r: Result<usize, String>)
        requires
            old(self)@.wf(),
        ensures
            agrees_on(r, final(self)@, old(self)@.import(name@)),
            final(self)@.wf(),
            keeps(old(self)@, final(self)@),
            r matches Ok(f) ==> (f as int) < final(self)@.imports.len(),
            final(self)@.blocks == old(self)@.blocks,
            final(self)@.tys == old(self)@.tys,
    {
        let ghost start = self@;
        let ghost p = named(name@);
        let text = name.to_owned();
        let mut k: usize = 0;
        while k < self.callees.len()
            invariant
                self@ == start,
                start.wf(),
                p == named(name@),
                text@ == name@,
                k <= self.callees@.len(),
                start.callees == callee_views(self.callees@),
                forall|j: int| 0 <= j < k ==> !p(#[trigger] start.callees[j]),
                *old(self) == *self,
            decreases self.callees@.len() - k,
        {
            if text_is(&self.callees[k].name, &text) {
                proof {
                    assert(p(start.callees[k as int]));
                    lemma_first_where_is(start.callees, p, k as int);
                }
                let ghost q = imports_callee(k);
                let mut i: usize = 0;
                while i < self.imports.len()
                    invariant
                        self@ == start,
                        start.wf(),
                        *old(self) == *self,
                        p == named(name@),
                        q == imports_callee(k),
                        first_where(start.callees, p) == Some(k as int),
                        i <= self.imports@.len(),
                        forall|j: int| 0 <= j < i ==> !q(#[trigger] start.imports[j]),
                    decreases self.imports@.len() - i,
                {
                    if self.imports[i] == k {
                        proof {
                            lemma_first_where_is(start.imports, q, i as int);
                        }
                        return Ok(i);
                    }
                    i = i + 1;
                }
                proof {
                    lemma_first_where_none(start.imports, q);
                    lemma_first_where(start.callees, p);
                }
                self.imports.push(k);
                return Ok(i);
            }
            k = k + 1;
        }
        proof {
            lemma_first_where_none(start.callees, p);
        }
        let mut s = "callee '".to_owned();
        push_text(&mut s, name);
        push_text(&mut s, "' was never declared");
        Err(s)
    }

    /// Calls an import; the first result comes back where there is one.
    fn call(&mut self, f: usize, args: Vec<Val>) -> (r: Option<Val>)
        requires
            old(self)@.wf(),
            (f as int) < old(self)@.imports.len(),
        ensures
            final(self)@ == old(self)@.call(f, args@),
            final(self)@.wf(),
            keeps(old(self)@, final(self)@),
            r == (if old(self)@.import_sig(f).returns.len() > 0 {
                Some(old(self)@.next())
            } else {
                None
            }),
            r matches Some(x) ==> final(self)@.has(x),
    {
        let ghost start = self@;
        let callees: &'a Vec<Callee> = self.callees;
        let k: usize = self.imports[f];
        let rets = &callees[k].sig.returns;
        let first = Val(self.tys.len());
        proof {
            assert(start.callees[k as int] == callees@[k as int]@);
            assert(rets@ == start.import_sig(f).returns);
        }
        self.put(Op::Call(f, args), rets);
        if rets.len() > 0 {
            Some(first)
        } else {
            None
        }
    }
}

// ---------------------------------------------------------------------------
// Guards
// ---------------------------------------------------------------------------

impl Low {
    /// The block that reports errors: the one there is, or a new one with the code and
    /// two details as parameters.
    pub open spec fn panic_block(self) -> Result<(Low, usize), Seq<char>> {
        match self.panic {
            Some(b) => Ok((self, b)),
            None => match self.import("helix_panic"@) {
                Ok((s, _)) => {
                    let b = s.blocks.len() as usize;
                    let t = ClifTy::I64;
                    let made = s.with_block().with_param(b, t).with_param(b, t).with_param(b, t);
                    Ok((Low { panic: Some(b), ..made }, b))
                },
                Err(m) => Err(m),
            },
        }
    }

    /// Goes on in a new block where `ok` is not zero, else reports the error.
    pub open spec fn guard(self, ok: Val, code: Val, a: Val, b: Val) -> Result<Low, Seq<char>> {
        match self.panic_block() {
            Ok((s, pb)) => {
                let cont = s.blocks.len() as usize;
                Ok(
                    s.with_block().end(
                        OpV::Brif(ok, cont, seq![], pb, seq![code, a, b]),
                    ).at(cont),
                )
            },
            Err(m) => Err(m),
        }
    }

    /// `0 <= idx < len`
    pub open spec fn bounds(self, idx: Val, len: Val) -> (Low, Val) {
        let below = self.next();
        let s1 = self.ins(OpV::IntCompare(IntCond::LessThan, idx, len), ClifTy::I8);
        let zero = s1.next();
        let s2 = s1.ins(OpV::Iconst(ClifTy::I64, 0), ClifTy::I64);
        let above = s2.next();
        let s3 = s2.ins(OpV::IntCompare(IntCond::GreaterThanOrEqual, idx, zero), ClifTy::I8);
        (s3.ins(OpV::Binary(BinaryOp::Band, below, above), ClifTy::I8), s3.next())
    }

    /// Reports an error where the index is outside the array, unless checks are left
    /// out.
    pub open spec fn bounds_guard(self, idx: Val, len: Val) -> Result<Low, Seq<char>> {
        if self.unchecked {
            Ok(self)
        } else {
            let (s, ok) = self.bounds(idx, len);
            let code = s.next();
            s.ins(OpV::Iconst(ClifTy::I64, BOUNDS), ClifTy::I64).guard(ok, code, idx, len)
        }
    }

    /// The address of an element: `base + idx * size`.
    pub open spec fn address(self, base: Val, idx: Val, size: i64) -> (Low, Val) {
        let scale = self.next();
        let s1 = self.ins(OpV::Iconst(ClifTy::I64, size), ClifTy::I64);
        let off = s1.next();
        let s2 = s1.ins(OpV::Binary(BinaryOp::Imul, idx, scale), s1.ty_of(idx));
        (s2.ins(OpV::Binary(BinaryOp::Iadd, base, off), s2.ty_of(base)), s2.next())
    }

    /// An index at full width.
    pub open spec fn widened(self, x: Val, from: Ty) -> (Low, Val) {
        if from == Ty::I32 {
            (self.ins(OpV::Convert(ConvertOp::Sextend, ClifTy::I64, x), ClifTy::I64), self.next())
        } else {
            (self, x)
        }
    }

    /// The checks of a division of `x` by `y`, and the division: no divisor is zero, and
    /// the least integer is not divided by -1.
    pub open spec fn divrem(self, x: Val, y: Val, ty: Ty, rem: bool) -> Result<
        (Low, Val),
        Seq<char>,
    > {
        let t = self.ty_of(x);
        let zero = self.next();
        let s1 = self.ins(OpV::Iconst(t, 0), t);
        let minus_one = s1.next();
        let s2 = s1.ins(OpV::Iconst(t, (-1) as i64), t);
        let least = s2.next();
        let s3 = s2.ins(OpV::Iconst(t, least_of(ty)), t);
        let nonzero = s3.next();
        let s4 = s3.ins(OpV::IntCompare(IntCond::NotEqual, y, zero), ClifTy::I8);
        let not_least = s4.next();
        let s5 = s4.ins(OpV::IntCompare(IntCond::NotEqual, x, least), ClifTy::I8);
        let not_minus_one = s5.next();
        let s6 = s5.ins(OpV::IntCompare(IntCond::NotEqual, y, minus_one), ClifTy::I8);
        let fits = s6.next();
        let s7 = s6.ins(OpV::Binary(BinaryOp::Bor, not_least, not_minus_one), ClifTy::I8);
        let ok = s7.next();
        let s8 = s7.ins(OpV::Binary(BinaryOp::Band, nonzero, fits), ClifTy::I8);
        let overflow = s8.next();
        let s9 = s8.ins(OpV::Iconst(ClifTy::I64, DIV_OVERFLOW), ClifTy::I64);
        let by_zero = s9.next();
        let s10 = s9.ins(OpV::Iconst(ClifTy::I64, DIV_BY_ZERO), ClifTy::I64);
        let code = s10.next();
        let s11 = s10.ins(OpV::Select(nonzero, overflow, by_zero), ClifTy::I64);
        let none = s11.next();
        let s12 = s11.ins(OpV::Iconst(ClifTy::I64, 0), ClifTy::I64);
        match s12.guard(ok, code, none, none) {
            Ok(s) => {
                let op = if rem {
                    BinaryOp::Srem
                } else {
                    BinaryOp::Sdiv
                };
                Ok((s.ins(OpV::Binary(op, x, y), t), s.next()))
            },
            Err(m) => Err(m),
        }
    }
}

/// The least integer of a type.
pub open spec fn least_of(ty: Ty) -> i64 {
    if ty == Ty::I32 {
        i32::MIN as i64
    } else {
        i64::MIN
    }
}

impl<'a> Lowering<'a> {
    /// The block that reports errors, made where there is none.
    fn ensure_panic_block(&mut self) -> (r: Result<usize, String>)
        requires
            old(self)@.wf(),
        ensures
            agrees_on(r, final(self)@, old(self)@.panic_block()),
            final(self)@.wf(),
            keeps(old(self)@, final(self)@),
            r matches Ok(b) ==> (b as int) < final(self)@.blocks.len(),
    {
        if let Some(b) = self.panic {
            return Ok(b);
        }
        match self.import_in_func("helix_panic") {
            Ok(_) => {},
            Err(m) => {
                return Err(m);
            },
        }
        let b: usize = self.create_block();
        let _ = self.append_param(b, ClifTy::I64);
        let _ = self.append_param(b, ClifTy::I64);
        let _ = self.append_param(b, ClifTy::I64);
        self.panic = Some(b);
        Ok(b)
    }

    /// Goes on in a new block where `ok` is not zero, else reports the error.
    fn guard_split(&mut self, ok: Val, code: Val, a: Val, b: Val) -> (r: Result<(), String>)
        requires
            old(self)@.wf(),
        ensures
            agrees(r, final(self)@, old(self)@.guard(ok, code, a, b)),
            final(self)@.wf(),
            keeps(old(self)@, final(self)@),
    {
        let pb: usize = match self.ensure_panic_block() {
            Ok(pb) => pb,
            Err(m) => {
                return Err(m);
            },
        };
        let cont: usize = self.create_block();
        let none: Vec<Val> = Vec::new();
        let details: Vec<Val> = vec![code, a, b];
        assert(none@ =~= seq![]);
        assert(details@ =~= seq![code, a, b]);
        self.end(Op::Brif(ok, cont, none, pb, details));
        self.switch_to(cont);
        Ok(())
    }

    /// `0 <= idx < len`
    fn bounds_ok(&mut self, idx: Val, len: Val) -> (r: Val)
        requires
            old(self)@.wf(),
        ensures
            (final(self)@, r) == old(self)@.bounds(idx, len),
            final(self)@.wf(),
            keeps(old(self)@, final(self)@),
    {
        let below = self.ins(Op::IntCompare(IntCond::LessThan, idx, len), BOOL_TY);
        let zero = self.ins(Op::Iconst(ClifTy::I64, 0), ClifTy::I64);
        let above = self.ins(Op::IntCompare(IntCond::GreaterThanOrEqual, idx, zero), BOOL_TY);
        self.ins(Op::Binary(BinaryOp::Band, below, above), BOOL_TY)
    }

    /// Reports an error where the index is outside the array, unless checks are left
    /// out.
    fn bounds_guard(&mut self, idx: Val, len: Val) -> (r: Result<(), String>)
        requires
            old(self)@.wf(),
        ensures
            agrees(r, final(self)@, old(self)@.bounds_guard(idx, len)),
            final(self)@.wf(),
            keeps(old(self)@, final(self)@),
    {
        if self.unchecked {
            return Ok(());
        }
        let ok = self.bounds_ok(idx, len);
        let code = self.ins(Op::Iconst(ClifTy::I64, PanicCode::Bounds.code()), ClifTy::I64);
        self.guard_split(ok, code, idx, len)
    }

    /// The address of an element.
    fn elem_addr(&mut self, base: Val, idx: Val, size: i64) -> (r: Val)
        requires
            old(self)@.wf(),
            old(self)@.has(base),
            old(self)@.has(idx),
        ensures
            (final(self)@, r) == old(self)@.address(base, idx, size),
            final(self)@.wf(),
            keeps(old(self)@, final(self)@),
    {
        let scale = self.ins(Op::Iconst(ClifTy::I64, size), ClifTy::I64);
        let it = self.ty_of(idx);
        let off = self.ins(Op::Binary(BinaryOp::Imul, idx, scale), it);
        let bt = self.ty_of(base);
        self.ins(Op::Binary(BinaryOp::Iadd, base, off), bt)
    }

    /// An index at full width.
    fn widen_index(&mut self, x: Val, from: Ty) -> (r: Val)
        requires
            old(self)@.wf(),
            old(self)@.has(x),
        ensures
            (final(self)@, r) == old(self)@.widened(x, from),
            final(self)@.wf(),
            keeps(old(self)@, final(self)@),
            final(self)@.has(r),
    {
        if from == Ty::I32 {
            self.ins(Op::Convert(ConvertOp::Sextend, ClifTy::I64, x), ClifTy::I64)
        } else {
            x
        }
    }

    /// A checked division or remainder.
    #[verifier::rlimit(60)]
    fn guarded_divrem(&mut self, x: Val, y: Val, ty: Ty, rem: bool) -> (r: Result<Val, String>)
        requires
            old(self)@.wf(),
            old(self)@.has(x),
        ensures
            agrees_on(r, final(self)@, old(self)@.divrem(x, y, ty, rem)),
            final(self)@.wf(),
            keeps(old(self)@, final(self)@),
            r matches Ok(v) ==> final(self)@.has(v),
    {
        let t = self.ty_of(x);
        let zero = self.ins(Op::Iconst(t, 0), t);
        let minus_one = self.ins(Op::Iconst(t, -1), t);
        let least_value: i64 = if ty == Ty::I32 {
            i32::MIN as i64
        } else {
            i64::MIN
        };
        let least = self.ins(Op::Iconst(t, least_value), t);
        let nonzero = self.ins(Op::IntCompare(IntCond::NotEqual, y, zero), BOOL_TY);
        let not_least = self.ins(Op::IntCompare(IntCond::NotEqual, x, least), BOOL_TY);
        let not_minus_one = self.ins(Op::IntCompare(IntCond::NotEqual, y, minus_one), BOOL_TY);
        let fits = self.ins(Op::Binary(BinaryOp::Bor, not_least, not_minus_one), BOOL_TY);
        let ok = self.ins(Op::Binary(BinaryOp::Band, nonzero, fits), BOOL_TY);
        let overflow = self.ins(
            Op::Iconst(ClifTy::I64, PanicCode::IdivOverflow.code()),
            ClifTy::I64,
        );
        let by_zero = self.ins(
            Op::Iconst(ClifTy::I64, PanicCode::DivByZero.code()),
            ClifTy::I64,
        );
        let code = self.ins(Op::Select(nonzero, overflow, by_zero), ClifTy::I64);
        let none = self.ins(Op::Iconst(ClifTy::I64, 0), ClifTy::I64);
        match self.guard_split(ok, code, none, none) {
            Ok(_) => {},
            Err(m) => {
                return Err(m);
            },
        }
        let op = if rem {
            BinaryOp::Srem
        } else {
            BinaryOp::Sdiv
        };
        Ok(self.ins(Op::Binary(op, x, y), t))
    }
}

// ---------------------------------------------------------------------------
// Instructions
// ---------------------------------------------------------------------------

/// The name of an operator.
pub open spec fn op_name(op: BinOp) -> Seq<char> {
    match op {
        BinOp::Add => "Add"@,
        BinOp::Sub => "Sub"@,
        BinOp::Mul => "Mul"@,
        BinOp::Div => "Div"@,
        BinOp::Rem => "Rem"@,
        BinOp::Lt => "Lt"@,
        BinOp::Le => "Le"@,
        BinOp::Gt => "Gt"@,
        BinOp::Ge => "Ge"@,
        BinOp::Eq => "Eq"@,
        BinOp::Ne => "Ne"@,
        BinOp::And => "And"@,
        BinOp::Or => "Or"@,
    }
}

/// The name of an operator.
fn name_of_op(op: BinOp) -> (r: &'static str)
    ensures
        r@ == op_name(op),
{
    match op {
        BinOp::Add => "Add",
        BinOp::Sub => "Sub",
        BinOp::Mul => "Mul",
        BinOp::Div => "Div",
        BinOp::Rem => "Rem",
        BinOp::Lt => "Lt",
        BinOp::Le => "Le",
        BinOp::Gt => "Gt",
        BinOp::Ge => "Ge",
        BinOp::Eq => "Eq",
        BinOp::Ne => "Ne",
        BinOp::And => "And",
        BinOp::Or => "Or",
    }
}

/// The constant instruction of a literal, and its type.
pub open spec fn const_op(c: Constant) -> (OpV, ClifTy) {
    match c {
        Constant::I64(v) => (OpV::Iconst(ClifTy::I64, v), ClifTy::I64),
        Constant::I32(v) => (OpV::Iconst(ClifTy::I32, v as i64), ClifTy::I32),
        Constant::F32(b) => (OpV::F32const(b), ClifTy::F32),
        Constant::F64(b) => (OpV::F64const(b), ClifTy::F64),
        Constant::Bool(true) => (OpV::Iconst(ClifTy::I8, 1), ClifTy::I8),
        Constant::Bool(false) => (OpV::Iconst(ClifTy::I8, 0), ClifTy::I8),
    }
}

/// The floating-point instruction of an operator.
pub open spec fn float_op(op: BinOp) -> Option<BinaryOp> {
    match op {
        BinOp::Add => Some(BinaryOp::Fadd),
        BinOp::Sub => Some(BinaryOp::Fsub),
        BinOp::Mul => Some(BinaryOp::Fmul),
        BinOp::Div => Some(BinaryOp::Fdiv),
        _ => None,
    }
}

/// The integer instruction of an operator that cannot fail.
pub open spec fn int_op(op: BinOp) -> Option<BinaryOp> {
    match op {
        BinOp::Add => Some(BinaryOp::Iadd),
        BinOp::Sub => Some(BinaryOp::Isub),
        BinOp::Mul => Some(BinaryOp::Imul),
        _ => None,
    }
}

/// The conversion from one type to another; `None` where the value stays as it is.
pub open spec fn conversion(from: Ty, to: Ty) -> Option<(ConvertOp, ClifTy)> {
    match (from, to) {
        (Ty::I64, Ty::I32) => Some((ConvertOp::Ireduce, ClifTy::I32)),
        (Ty::I32, Ty::I64) => Some((ConvertOp::Sextend, ClifTy::I64)),
        (Ty::I32, Ty::F32) => Some((ConvertOp::FcvtFromSint, ClifTy::F32)),
        (Ty::I32, Ty::F64) => Some((ConvertOp::FcvtFromSint, ClifTy::F64)),
        (Ty::I64, Ty::F32) => Some((ConvertOp::FcvtFromSint, ClifTy::F32)),
        (Ty::I64, Ty::F64) => Some((ConvertOp::FcvtFromSint, ClifTy::F64)),
        (Ty::F32, Ty::I32) => Some((ConvertOp::FcvtToSintSat, ClifTy::I32)),
        (Ty::F32, Ty::I64) => Some((ConvertOp::FcvtToSintSat, ClifTy::I64)),
        (Ty::F64, Ty::I32) => Some((ConvertOp::FcvtToSintSat, ClifTy::I32)),
        (Ty::F64, Ty::I64) => Some((ConvertOp::FcvtToSintSat, ClifTy::I64)),
        (Ty::F32, Ty::F64) => Some((ConvertOp::Fpromote, ClifTy::F64)),
        (Ty::F64, Ty::F32) => Some((ConvertOp::Fdemote, ClifTy::F32)),
        _ => None,
    }
}

/// The conversion from one type to another; `None` where the value stays as it is.
fn conversion_of(from: Ty, to: Ty) -> (r: Option<(ConvertOp, ClifTy)>)
    ensures
        r == conversion(from, to),
{
    match (from, to) {
        (Ty::I64, Ty::I32) => Some((ConvertOp::Ireduce, ClifTy::I32)),
        (Ty::I32, Ty::I64) => Some((ConvertOp::Sextend, ClifTy::I64)),
        (Ty::I32, Ty::F32) => Some((ConvertOp::FcvtFromSint, ClifTy::F32)),
        (Ty::I32, Ty::F64) => Some((ConvertOp::FcvtFromSint, ClifTy::F64)),
        (Ty::I64, Ty::F32) => Some((ConvertOp::FcvtFromSint, ClifTy::F32)),
        (Ty::I64, Ty::F64) => Some((ConvertOp::FcvtFromSint, ClifTy::F64)),
        (Ty::F32, Ty::I32) => Some((ConvertOp::FcvtToSintSat, ClifTy::I32)),
        (Ty::F32, Ty::I64) => Some((ConvertOp::FcvtToSintSat, ClifTy::I64)),
        (Ty::F64, Ty::I32) => Some((ConvertOp::FcvtToSintSat, ClifTy::I32)),
        (Ty::F64, Ty::I64) => Some((ConvertOp::FcvtToSintSat, ClifTy::I64)),
        (Ty::F32, Ty::F64) => Some((ConvertOp::Fpromote, ClifTy::F64)),
        (Ty::F64, Ty::F32) => Some((ConvertOp::Fdemote, ClifTy::F32)),
        _ => None,
    }
}

impl Low {
    /// A binary operation on values of type `ty`.
    pub open spec fn bin(self, op: BinOp, ty: Ty, a: ValueId, b: ValueId) -> Result<
        (Low, Val),
        Seq<char>,
    > {
        match self.lookup(a) {
            Ok(x) => match self.lookup(b) {
                Ok(y) => self.bin_values(op, ty, is_float(self.source_ty(a)), x, y),
                Err(m) => Err(m),
            },
            Err(m) => Err(m),
        }
    }

    /// A binary operation on machine values; `float_operands` says how to compare them.
    pub open spec fn bin_values(self, op: BinOp, ty: Ty, float_operands: bool, x: Val, y: Val) -> Result<
        (Low, Val),
        Seq<char>,
    > {
        let t = self.ty_of(x);
        match int_cond(op) {
            Some(c) => if float_operands {
                Ok(
                    (
                        self.ins(OpV::FloatCompare(float_cond(op)->0, x, y), ClifTy::I8),
                        self.next(),
                    ),
                )
            } else {
                Ok((self.ins(OpV::IntCompare(c, x, y), ClifTy::I8), self.next()))
            },
            None => if is_float(ty) {
                match float_op(op) {
                    Some(o) => Ok((self.ins(OpV::Binary(o, x, y), t), self.next())),
                    None => if op == BinOp::Rem {
                        Err("float remainder is not a HELIX operator"@)
                    } else {
                        Err("unexpected binop "@ + op_name(op) + " over floats"@)
                    },
                }
            } else {
                match int_op(op) {
                    Some(o) => Ok((self.ins(OpV::Binary(o, x, y), t), self.next())),
                    None => if op == BinOp::Div {
                        self.divrem(x, y, ty, false)
                    } else if op == BinOp::Rem {
                        self.divrem(x, y, ty, true)
                    } else {
                        Err("unexpected binop "@ + op_name(op) + " over integers"@)
                    },
                }
            },
        }
    }

    /// Negation, or `x ^ 1` for a boolean.
    pub open spec fn unary(self, op: UnOp, ty: Ty, x: Val) -> (Low, Val) {
        let t = self.ty_of(x);
        match op {
            UnOp::Neg => {
                let o = if is_float(ty) {
                    UnaryOp::Fneg
                } else {
                    UnaryOp::Ineg
                };
                (self.ins(OpV::Unary(o, x), t), self.next())
            },
            UnOp::Not => {
                let one = self.next();
                let s = self.ins(OpV::Iconst(ClifTy::I8, 1), ClifTy::I8);
                (s.ins(OpV::Binary(BinaryOp::Bxor, x, one), t), s.next())
            },
        }
    }

    /// A conversion.
    pub open spec fn cast(self, from: Ty, to: Ty, x: Val) -> (Low, Val) {
        match conversion(from, to) {
            Some((o, t)) => (self.ins(OpV::Convert(o, t, x), t), self.next()),
            None => (self, x),
        }
    }

    /// A checked load.
    pub open spec fn load(self, load: Load) -> Result<Low, Seq<char>> {
        match self.lookup_array(load.arr) {
            Ok(p) => match self.ir.types.element_type(load.arr) {
                Some(e) => match self.lookup(load.idx) {
                    Ok(i) => {
                        let (s1, idx) = self.widened(i, self.source_ty(load.idx));
                        match s1.bounds_guard(idx, p.len) {
                            Ok(s2) => {
                                let (s3, addr) = s2.address(p.data, idx, element_bytes(e));
                                Ok(
                                    s3.ins(OpV::Load(element_ty(e), addr), element_ty(e)).bind(
                                        load.dst,
                                        s3.next(),
                                    ),
                                )
                            },
                            Err(m) => Err(m),
                        }
                    },
                    Err(m) => Err(m),
                },
                None => Err("load from non-array local"@),
            },
            Err(m) => Err(m),
        }
    }

    /// A checked store.
    pub open spec fn store(self, arr: LocalId, idx_id: ValueId, val_id: ValueId) -> Result<
        Low,
        Seq<char>,
    > {
        match self.lookup_array(arr) {
            Ok(p) => match self.ir.types.element_type(arr) {
                Some(e) => match self.lookup(idx_id) {
                    Ok(i) => {
                        let (s1, idx) = self.widened(i, self.source_ty(idx_id));
                        match s1.lookup(val_id) {
                            Ok(x) => match s1.bounds_guard(idx, p.len) {
                                Ok(s2) => {
                                    let (s3, addr) = s2.address(p.data, idx, element_bytes(e));
                                    Ok(s3.end(OpV::Store(x, addr)))
                                },
                                Err(m) => Err(m),
                            },
                            Err(m) => Err(m),
                        }
                    },
                    Err(m) => Err(m),
                },
                None => Err("store into non-array local"@),
            },
            Err(m) => Err(m),
        }
    }
}

impl<'a> Lowering<'a> {
    /// The constant instruction of a literal.
    fn const_value(&mut self, c: &Constant) -> (r: Val)
        requires
            old(self)@.wf(),
        ensures
            final(self)@ == old(self)@.ins(const_op(*c).0, const_op(*c).1),
            r == old(self)@.next(),
            final(self)@.wf(),
            final(self)@.has(r),
            keeps(old(self)@, final(self)@),
    {
        match *c {
            Constant::I64(v) => self.ins(Op::Iconst(ClifTy::I64, v), ClifTy::I64),
            Constant::I32(v) => self.ins(Op::Iconst(ClifTy::I32, v as i64), ClifTy::I32),
            Constant::F32(b) => self.ins(Op::F32const(b), ClifTy::F32),
            Constant::F64(b) => self.ins(Op::F64const(b), ClifTy::F64),
            Constant::Bool(b) => if b {
                self.ins(Op::Iconst(BOOL_TY, 1), BOOL_TY)
            } else {
                self.ins(Op::Iconst(BOOL_TY, 0), BOOL_TY)
            },
        }
    }

    /// A binary operation on values of type `ty`.
    #[verifier::rlimit(40)]
    fn translate_bin(&mut self, op: BinOp, ty: Ty, a: ValueId, b: ValueId) -> (r: Result<
        Val,
        String,
    >)
        requires
            old(self)@.wf(),
        ensures
            agrees_on(r, final(self)@, old(self)@.bin(op, ty, a, b)),
            final(self)@.wf(),
            keeps(old(self)@, final(self)@),
            r matches Ok(v) ==> final(self)@.has(v),
    {
        let float_operands = floating(self.source_ty(a));
        let x = match self.lookup_scalar(a) {
            Ok(x) => x,
            Err(m) => {
                return Err(m);
            },
        };
        let y = match self.lookup_scalar(b) {
            Ok(y) => y,
            Err(m) => {
                return Err(m);
            },
        };
        let t = self.ty_of(x);
        if let Some(c) = int_cc(op) {
            if float_operands {
                if let Some(fc) = float_cc(op) {
                    return Ok(self.ins(Op::FloatCompare(fc, x, y), BOOL_TY));
                }
            }
            return Ok(self.ins(Op::IntCompare(c, x, y), BOOL_TY));
        }
        if floating(ty) {
            match op {
                BinOp::Add => Ok(self.ins(Op::Binary(BinaryOp::Fadd, x, y), t)),
                BinOp::Sub => Ok(self.ins(Op::Binary(BinaryOp::Fsub, x, y), t)),
                BinOp::Mul => Ok(self.ins(Op::Binary(BinaryOp::Fmul, x, y), t)),
                BinOp::Div => Ok(self.ins(Op::Binary(BinaryOp::Fdiv, x, y), t)),
                BinOp::Rem => fail("float remainder is not a HELIX operator"),
                _ => {
                    let mut s = "unexpected binop ".to_owned();
                    push_text(&mut s, name_of_op(op));
                    push_text(&mut s, " over floats");
                    Err(s)
                },
            }
        } else {
            match op {
                BinOp::Add => Ok(self.ins(Op::Binary(BinaryOp::Iadd, x, y), t)),
                BinOp::Sub => Ok(self.ins(Op::Binary(BinaryOp::Isub, x, y), t)),
                BinOp::Mul => Ok(self.ins(Op::Binary(BinaryOp::Imul, x, y), t)),
                BinOp::Div => self.guarded_divrem(x, y, ty, false),
                BinOp::Rem => self.guarded_divrem(x, y, ty, true),
                _ => {
                    let mut s = "unexpected binop ".to_owned();
                    push_text(&mut s, name_of_op(op));
                    push_text(&mut s, " over integers");
                    Err(s)
                },
            }
        }
    }

    /// Negation and logical not.
    fn translate_unary(&mut self, op: UnOp, ty: Ty, x: Val) -> (r: Val)
        requires
            old(self)@.wf(),
            old(self)@.has(x),
        ensures
            (final(self)@, r) == old(self)@.unary(op, ty, x),
            final(self)@.wf(),
            final(self)@.has(r),
            keeps(old(self)@, final(self)@),
    {
        let t = self.ty_of(x);
        match op {
            UnOp::Neg => if floating(ty) {
                self.ins(Op::Unary(UnaryOp::Fneg, x), t)
            } else {
                self.ins(Op::Unary(UnaryOp::Ineg, x), t)
            },
            UnOp::Not => {
                let one = self.ins(Op::Iconst(BOOL_TY, 1), BOOL_TY);
                self.ins(Op::Binary(BinaryOp::Bxor, x, one), t)
            },
        }
    }

    /// A conversion.
    fn translate_cast(&mut self, from: Ty, to: Ty, x: Val) -> (r: Val)
        requires
            old(self)@.wf(),
            old(self)@.has(x),
        ensures
            (final(self)@, r) == old(self)@.cast(from, to, x),
            final(self)@.wf(),
            final(self)@.has(r),
            keeps(old(self)@, final(self)@),
    {
        match conversion_of(from, to) {
            Some(c) => self.ins(Op::Convert(c.0, c.1, x), c.1),
            None => x,
        }
    }

    /// A checked load.
    fn translate_load(&mut self, load: &Load) -> (r: Result<(), String>)
        requires
            old(self)@.wf(),
        ensures
            agrees(r, final(self)@, old(self)@.load(*load)),
            final(self)@.wf(),
            keeps(old(self)@, final(self)@),
    {
        let p = match self.lookup_array(load.arr) {
            Ok(p) => p,
            Err(m) => {
                return Err(m);
            },
        };
        let e: ElemTy = match self.ir.types.elem_ty(load.arr) {
            Some(e) => e,
            None => {
                return fail("load from non-array local");
            },
        };
        let i = match self.lookup_scalar(load.idx) {
            Ok(i) => i,
            Err(m) => {
                return Err(m);
            },
        };
        let from = self.source_ty(load.idx);
        let idx = self.widen_index(i, from);
        match self.bounds_guard(idx, p.len) {
            Ok(_) => {},
            Err(m) => {
                return Err(m);
            },
        }
        let addr = self.elem_addr(p.data, idx, elem_size(e));
        let t = elem_clif_ty(e);
        let v = self.ins(Op::Load(t, addr), t);
        self.bind(load.dst, v);
        Ok(())
    }

    /// A checked store.
    fn translate_store(&mut self, arr: LocalId, idx_id: ValueId, val_id: ValueId) -> (r: Result<
        (),
        String,
    >)
        requires
            old(self)@.wf(),
        ensures
            agrees(r, final(self)@, old(self)@.store(arr, idx_id, val_id)),
            final(self)@.wf(),
            keeps(old(self)@, final(self)@),
    {
        let p = match self.lookup_array(arr) {
            Ok(p) => p,
            Err(m) => {
                return Err(m);
            },
        };
        let e: ElemTy = match self.ir.types.elem_ty(arr) {
            Some(e) => e,
            None => {
                return fail("store into non-array local");
            },
        };
        let i = match self.lookup_scalar(idx_id) {
            Ok(i) => i,
            Err(m) => {
                return Err(m);
            },
        };
        let from = self.source_ty(idx_id);
        let idx = self.widen_index(i, from);
        let x = match self.lookup_scalar(val_id) {
            Ok(x) => x,
            Err(m) => {
                return Err(m);
            },
        };
        match self.bounds_guard(idx, p.len) {
            Ok(_) => {},
            Err(m) => {
                return Err(m);
            },
        }
        let addr = self.elem_addr(p.data, idx, elem_size(e));
        self.end(Op::Store(x, addr));
        Ok(())
    }
}

// ---------------------------------------------------------------------------
// Calls
// ---------------------------------------------------------------------------

/// The function of the host that prints a value of the type.
pub open spec fn print_symbol(ty: Ty) -> Seq<char> {
    match ty {
        Ty::F32 => "helix_print_f32"@,
        Ty::F64 => "helix_print_f64"@,
        Ty::Bool => "helix_print_bool"@,
        _ => "helix_print_i64"@,
    }
}

impl Low {
    /// The machine arguments of the first `k` arguments: data and length of an array,
    /// else the scalar.
    pub open spec fn marshal(self, args: Seq<ValueId>, k: nat) -> Result<Seq<Val>, Seq<char>>
        decreases k,
    {
        if k == 0 {
            Ok(seq![])
        } else {
            match self.marshal(args, (k - 1) as nat) {
                Ok(before) => match self.source_ty(args[k - 1]) {
                    Ty::Array(_) => match self.lookup_array(LocalId(args[k - 1].0)) {
                        Ok(p) => Ok(before.push(p.data).push(p.len)),
                        Err(m) => Err(m),
                    },
                    _ => match self.lookup(args[k - 1]) {
                        Ok(x) => Ok(before.push(x)),
                        Err(m) => Err(m),
                    },
                },
                Err(m) => Err(m),
            }
        }
    }

    /// `zeros(n)`: the host allocates; the length stays with the array.
    pub open spec fn zeros(self, c: Call, m: Seq<Val>) -> Result<Low, Seq<char>> {
        if c.arr_refs@.len() == 0 {
            Err("zeros without destination"@)
        } else {
            match self.ir.types.element_type(c.arr_refs@[0]) {
                Some(e) => match self.import("helix_zeros"@) {
                    Ok((s, f)) => {
                        let size = s.next();
                        let s1 = s.ins(OpV::Iconst(ClifTy::I64, element_bytes(e)), ClifTy::I64);
                        if m.len() == 0 {
                            Err(
                                "zeros(n) reached the backend without its length argument (IR builder gap)"@,
                            )
                        } else if s1.import_sig(f).returns.len() == 0 {
                            Err("helix_zeros returned no pointer"@)
                        } else {
                            Ok(
                                s1.call(f, seq![m[0], size]).bind_array(
                                    c.arr_refs@[0],
                                    FatPtr { data: s1.next(), len: m[0] },
                                ),
                            )
                        }
                    },
                    Err(m) => Err(m),
                },
                None => Err("zeros into non-array local"@),
            }
        }
    }

    /// `len(a)`: the length that the array carries.
    pub open spec fn len_call(self, c: Call) -> Result<Low, Seq<char>> {
        if c.args@.len() == 0 {
            Err("len without argument"@)
        } else {
            match self.source_ty(c.args@[0]) {
                Ty::Array(_) => match self.lookup_array(LocalId(c.args@[0].0)) {
                    Ok(p) => Ok(self.bind_result(c.dst, p.len)),
                    Err(m) => Err(m),
                },
                _ => Err("len() over a non-array"@),
            }
        }
    }

    /// `print(x)`: integers and booleans travel at full width.
    pub open spec fn print(self, c: Call, m: Seq<Val>) -> Result<Low, Seq<char>> {
        if c.args@.len() == 0 || m.len() == 0 {
            Err("print without argument"@)
        } else {
            let ty = self.source_ty(c.args@[0]);
            let (s, arg) = match ty {
                Ty::I32 => (
                    self.ins(OpV::Convert(ConvertOp::Sextend, ClifTy::I64, m[0]), ClifTy::I64),
                    self.next(),
                ),
                Ty::Bool => (
                    self.ins(OpV::Convert(ConvertOp::Uextend, ClifTy::I64, m[0]), ClifTy::I64),
                    self.next(),
                ),
                _ => (self, m[0]),
            };
            match s.import(print_symbol(ty)) {
                Ok((s1, f)) => Ok(s1.call(f, seq![arg])),
                Err(e) => Err(e),
            }
        }
    }

    /// `abs(x)`; of the least integer it is that integer.
    pub open spec fn abs(self, float: bool, x: Val) -> (Low, Val) {
        let t = self.ty_of(x);
        if float {
            (self.ins(OpV::Unary(UnaryOp::Fabs, x), t), self.next())
        } else {
            let neg = self.next();
            let s1 = self.ins(OpV::Unary(UnaryOp::Ineg, x), t);
            let zero = s1.next();
            let s2 = s1.ins(OpV::Iconst(t, 0), t);
            let below = s2.next();
            let s3 = s2.ins(OpV::IntCompare(IntCond::LessThan, x, zero), ClifTy::I8);
            (s3.ins(OpV::Select(below, neg, x), t), s3.next())
        }
    }

    /// The lesser or the greater of two values; of two floating-point numbers one that
    /// is not a number loses.
    pub open spec fn minmax(self, min: bool, float: bool, x: Val, y: Val) -> (Low, Val) {
        if float {
            let c = if min {
                FloatCond::LessThan
            } else {
                FloatCond::GreaterThan
            };
            let wins = self.next();
            let s1 = self.ins(OpV::FloatCompare(c, x, y), ClifTy::I8);
            let base = s1.next();
            let s2 = s1.ins(OpV::Select(wins, x, y), self.ty_of(x));
            let x_nan = s2.next();
            let s3 = s2.ins(OpV::FloatCompare(FloatCond::Unordered, x, x), ClifTy::I8);
            let y_nan = s3.next();
            let s4 = s3.ins(OpV::FloatCompare(FloatCond::Unordered, y, y), ClifTy::I8);
            let chosen = s4.next();
            let s5 = s4.ins(OpV::Select(x_nan, y, base), self.ty_of(y));
            (s5.ins(OpV::Select(y_nan, x, chosen), self.ty_of(x)), s5.next())
        } else {
            let c = if min {
                IntCond::LessThan
            } else {
                IntCond::GreaterThan
            };
            let wins = self.next();
            let s1 = self.ins(OpV::IntCompare(c, x, y), ClifTy::I8);
            (s1.ins(OpV::Select(wins, x, y), self.ty_of(x)), s1.next())
        }
    }

    /// A call of a function of the program or of the host.
    pub open spec fn user_call(self, c: Call, m: Seq<Val>) -> Result<Low, Seq<char>> {
        match self.import(c.callee@) {
            Ok((s, f)) => match c.dst {
                Some(d) => if s.import_sig(f).returns.len() > 0 {
                    Ok(s.call(f, m).bind(d, s.next()))
                } else {
                    Err(
                        "call to '"@ + c.callee@ + "' returned no value for dst v"@
                            + natural_text(d.0 as nat),
                    )
                },
                None => Ok(s.call(f, m)),
            },
            Err(e) => Err(e),
        }
    }

    /// One call.
    pub open spec fn call_inst(self, c: Call) -> Result<Low, Seq<char>> {
        match self.marshal(c.args@, c.args@.len()) {
            Ok(m) => if c.callee@ == "zeros"@ {
                self.zeros(c, m)
            } else if c.callee@ == "len"@ {
                self.len_call(c)
            } else if c.callee@ == "print"@ {
                self.print(c, m)
            } else if c.callee@ == "sqrt"@ {
                if m.len() == 0 {
                    Err("sqrt without argument"@)
                } else {
                    Ok(
                        self.ins(OpV::Unary(UnaryOp::Sqrt, m[0]), self.ty_of(m[0])).bind_result(
                            c.dst,
                            self.next(),
                        ),
                    )
                }
            } else if c.callee@ == "abs"@ {
                if c.args@.len() == 0 || m.len() == 0 {
                    Err("abs without argument"@)
                } else {
                    let (s, x) = self.abs(is_float(self.source_ty(c.args@[0])), m[0]);
                    Ok(s.bind_result(c.dst, x))
                }
            } else if c.callee@ == "min"@ || c.callee@ == "max"@ {
                if c.args@.len() == 0 || m.len() < 2 {
                    Err("min/max arity"@)
                } else {
                    let (s, x) = self.minmax(
                        c.callee@ == "min"@,
                        is_float(self.source_ty(c.args@[0])),
                        m[0],
                        m[1],
                    );
                    Ok(s.bind_result(c.dst, x))
                }
            } else {
                self.user_call(c, m)
            },
            Err(e) => Err(e),
        }
    }

    /// One instruction.
    pub open spec fn inst(self, i: Inst) -> Result<Low, Seq<char>> {
        match i {
            Inst::Const { dst, c } => Ok(
                self.ins(const_op(c).0, const_op(c).1).bind(dst, self.next()),
            ),
            Inst::Bin { op, dst, a, b } => match self.bin(op, self.source_ty(dst), a, b) {
                Ok((s, x)) => Ok(s.bind(dst, x)),
                Err(m) => Err(m),
            },
            Inst::Unary { op, dst, a } => match self.lookup(a) {
                Ok(x) => {
                    let (s, y) = self.unary(op, self.source_ty(dst), x);
                    Ok(s.bind(dst, y))
                },
                Err(m) => Err(m),
            },
            Inst::Cast { dst, val, to } => match self.lookup(val) {
                Ok(x) => {
                    let (s, y) = self.cast(self.source_ty(val), to, x);
                    Ok(s.bind(dst, y))
                },
                Err(m) => Err(m),
            },
            Inst::Load(l) => self.load(l),
            Inst::Store { arr, idx, val } => self.store(arr, idx, val),
            Inst::Call(c) => self.call_inst(c),
        }
    }

    /// The first `k` instructions of a list.
    pub open spec fn insts(self, s: Seq<Inst>, k: nat) -> Result<Low, Seq<char>>
        decreases k,
    {
        if k == 0 {
            Ok(self)
        } else {
            match self.insts(s, (k - 1) as nat) {
                Ok(low) => low.inst(s[k - 1]),
                Err(m) => Err(m),
            }
        }
    }
}

/// The list holds only values that have come into being.
pub open spec fn all_there(low: Low, m: Seq<Val>) -> bool {
    forall|k: int| 0 <= k < m.len() ==> low.has(#[trigger] m[k])
}

impl<'a> Lowering<'a> {
    /// The machine arguments of a call.
    fn marshal(&self, args: &Vec<ValueId>) -> (r: Result<Vec<Val>, String>)
        requires
            self@.wf(),
        ensures
            match self@.marshal(args@, args@.len()) {
                Ok(m) => r matches Ok(v) && v@ == m && all_there(self@, m),
                Err(e) => r matches Err(s) && s@ == e,
            },
    {
        let mut out: Vec<Val> = Vec::new();
        let mut k: usize = 0;
        while k < args.len()
            invariant
                self@.wf(),
                k <= args@.len(),
                self@.marshal(args@, k as nat) == Ok::<Seq<Val>, Seq<char>>(out@),
                all_there(self@, out@),
            decreases args@.len() - k,
        {
            let a = args[k];
            match self.source_ty(a) {
                Ty::Array(_) => match self.lookup_array(LocalId(a.0)) {
                    Ok(p) => {
                        out.push(p.data);
                        out.push(p.len);
                    },
                    Err(m) => {
                        proof {
                            lemma_marshal_stops(self@, args@, (k + 1) as nat, args@.len());
                        }
                        return Err(m);
                    },
                },
                _ => match self.lookup_scalar(a) {
                    Ok(x) => {
                        out.push(x);
                    },
                    Err(m) => {
                        proof {
                            lemma_marshal_stops(self@, args@, (k + 1) as nat, args@.len());
                        }
                        return Err(m);
                    },
                },
            }
            k = k + 1;
        }
        Ok(out)
    }

    /// `zeros(n)`
    fn call_zeros(&mut self, c: &Call, m: &Vec<Val>) -> (r: Result<(), String>)
        requires
            old(self)@.wf(),
            all_there(old(self)@, m@),
        ensures
            agrees(r, final(self)@, old(self)@.zeros(*c, m@)),
            final(self)@.wf(),
            keeps(old(self)@, final(self)@),
    {
        if c.arr_refs.len() == 0 {
            return fail("zeros without destination");
        }
        let local = c.arr_refs[0];
        let e: ElemTy = match self.ir.types.elem_ty(local) {
            Some(e) => e,
            None => {
                return fail("zeros into non-array local");
            },
        };
        let f: usize = match self.import_in_func("helix_zeros") {
            Ok(f) => f,
            Err(m) => {
                return Err(m);
            },
        };
        let size = self.ins(Op::Iconst(ClifTy::I64, elem_size(e)), ClifTy::I64);
        if m.len() == 0 {
            return fail(
                "zeros(n) reached the backend without its length argument (IR builder gap)",
            );
        }
        let n = m[0];
        let args: Vec<Val> = vec![n, size];
        assert(args@ =~= seq![m@[0], size]);
        match self.call(f, args) {
            Some(data) => {
                self.bind_array(local, FatPtr { data, len: n });
                Ok(())
            },
            None => fail("helix_zeros returned no pointer"),
        }
    }

    /// `len(a)`
    fn call_len(&mut self, c: &Call) -> (r: Result<(), String>)
        requires
            old(self)@.wf(),
        ensures
            agrees(r, final(self)@, old(self)@.len_call(*c)),
            final(self)@.wf(),
            keeps(old(self)@, final(self)@),
    {
        if c.args.len() == 0 {
            return fail("len without argument");
        }
        let src = c.args[0];
        match self.source_ty(src) {
            Ty::Array(_) => match self.lookup_array(LocalId(src.0)) {
                Ok(p) => {
                    self.bind_result(c.dst, p.len);
                    Ok(())
                },
                Err(m) => Err(m),
            },
            _ => fail("len() over a non-array"),
        }
    }

    /// `print(x)`
    fn call_print(&mut self, c: &Call, m: &Vec<Val>) -> (r: Result<(), String>)
        requires
            old(self)@.wf(),
            all_there(old(self)@, m@),
        ensures
            agrees(r, final(self)@, old(self)@.print(*c, m@)),
            final(self)@.wf(),
            keeps(old(self)@, final(self)@),
    {
        if c.args.len() == 0 || m.len() == 0 {
            return fail("print without argument");
        }
        let ty = self.source_ty(c.args[0]);
        let symbol = match ty {
            Ty::F32 => "helix_print_f32",
            Ty::F64 => "helix_print_f64",
            Ty::Bool => "helix_print_bool",
            _ => "helix_print_i64",
        };
        let v = m[0];
        let arg = match ty {
            Ty::I32 => self.ins(Op::Convert(ConvertOp::Sextend, ClifTy::I64, v), ClifTy::I64),
            Ty::Bool => self.ins(Op::Convert(ConvertOp::Uextend, ClifTy::I64, v), ClifTy::I64),
            _ => v,
        };
        match self.import_in_func(symbol) {
            Ok(f) => {
                let args: Vec<Val> = vec![arg];
                assert(args@ =~= seq![arg]);
                let _ = self.call(f, args);
                Ok(())
            },
            Err(m) => Err(m),
        }
    }

    /// `abs(x)`
    fn emit_abs(&mut self, float: bool, x: Val) -> (r: Val)
        requires
            old(self)@.wf(),
            old(self)@.has(x),
        ensures
            (final(self)@, r) == old(self)@.abs(float, x),
            final(self)@.wf(),
            final(self)@.has(r),
            keeps(old(self)@, final(self)@),
    {
        let t = self.ty_of(x);
        if float {
            return self.ins(Op::Unary(UnaryOp::Fabs, x), t);
        }
        let neg = self.ins(Op::Unary(UnaryOp::Ineg, x), t);
        let zero = self.ins(Op::Iconst(t, 0), t);
        let below = self.ins(Op::IntCompare(IntCond::LessThan, x, zero), BOOL_TY);
        self.ins(Op::Select(below, neg, x), t)
    }

    /// The lesser or the greater of two values.
    fn translate_minmax(&mut self, min: bool, float: bool, x: Val, y: Val) -> (r: Val)
        requires
            old(self)@.wf(),
            old(self)@.has(x),
            old(self)@.has(y),
        ensures
            (final(self)@, r) == old(self)@.minmax(min, float, x, y),
            final(self)@.wf(),
            final(self)@.has(r),
            keeps(old(self)@, final(self)@),
    {
        let xt = self.ty_of(x);
        let yt = self.ty_of(y);
        if float {
            let c = if min {
                FloatCond::LessThan
            } else {
                FloatCond::GreaterThan
            };
            let wins = self.ins(Op::FloatCompare(c, x, y), BOOL_TY);
            let base = self.ins(Op::Select(wins, x, y), xt);
            let x_nan = self.ins(Op::FloatCompare(FloatCond::Unordered, x, x), BOOL_TY);
            let y_nan = self.ins(Op::FloatCompare(FloatCond::Unordered, y, y), BOOL_TY);
            let chosen = self.ins(Op::Select(x_nan, y, base), yt);
            self.ins(Op::Select(y_nan, x, chosen), xt)
        } else {
            let c = if min {
                IntCond::LessThan
            } else {
                IntCond::GreaterThan
            };
            let wins = self.ins(Op::IntCompare(c, x, y), BOOL_TY);
            self.ins(Op::Select(wins, x, y), xt)
        }
    }

    /// A call of a function of the program or of the host.
    fn call_user(&mut self, c: &Call, m: Vec<Val>) -> (r: Result<(), String>)
        requires
            old(self)@.wf(),
        ensures
            agrees(r, final(self)@, old(self)@.user_call(*c, m@)),
            final(self)@.wf(),
            keeps(old(self)@, final(self)@),
    {
        let f: usize = match self.import_in_func(c.callee.as_str()) {
            Ok(f) => f,
            Err(e) => {
                return Err(e);
            },
        };
        let result = self.call(f, m);
        if let Some(d) = c.dst {
            match result {
                Some(x) => {
                    self.bind(d, x);
                },
                None => {
                    let mut s = "call to '".to_owned();
                    push_text(&mut s, c.callee.as_str());
                    push_text(&mut s, "' returned no value for dst v");
                    push_natural(&mut s, d.0 as u128);
                    return Err(s);
                },
            }
        }
        Ok(())
    }

    /// One call.
    fn translate_call(&mut self, c: &Call) -> (r: Result<(), String>)
        requires
            old(self)@.wf(),
        ensures
            agrees(r, final(self)@, old(self)@.call_inst(*c)),
            final(self)@.wf(),
            keeps(old(self)@, final(self)@),
    {
        let m = match self.marshal(&c.args) {
            Ok(m) => m,
            Err(e) => {
                return Err(e);
            },
        };
        if is_text(&c.callee, "zeros") {
            return self.call_zeros(c, &m);
        }
        if is_text(&c.callee, "len") {
            return self.call_len(c);
        }
        if is_text(&c.callee, "print") {
            return self.call_print(c, &m);
        }
        if is_text(&c.callee, "sqrt") {
            if m.len() == 0 {
                return fail("sqrt without argument");
            }
            let t = self.ty_of(m[0]);
            let x = self.ins(Op::Unary(UnaryOp::Sqrt, m[0]), t);
            self.bind_result(c.dst, x);
            return Ok(());
        }
        if is_text(&c.callee, "abs") {
            if c.args.len() == 0 || m.len() == 0 {
                return fail("abs without argument");
            }
            let float = floating(self.source_ty(c.args[0]));
            let x = self.emit_abs(float, m[0]);
            self.bind_result(c.dst, x);
            return Ok(());
        }
        let min = is_text(&c.callee, "min");
        if min || is_text(&c.callee, "max") {
            if c.args.len() == 0 || m.len() < 2 {
                return fail("min/max arity");
            }
            let float = floating(self.source_ty(c.args[0]));
            let x = self.translate_minmax(min, float, m[0], m[1]);
            self.bind_result(c.dst, x);
            return Ok(());
        }
        self.call_user(c, m)
    }

    /// One instruction.
    fn translate_inst(&mut self, i: &Inst) -> (r: Result<(), String>)
        requires
            old(self)@.wf(),
        ensures
            agrees(r, final(self)@, old(self)@.inst(*i)),
            final(self)@.wf(),
            keeps(old(self)@, final(self)@),
    {
        match i {
            Inst::Const { dst, c } => {
                let x = self.const_value(c);
                self.bind(*dst, x);
                Ok(())
            },
            Inst::Bin { op, dst, a, b } => {
                let ty = self.source_ty(*dst);
                match self.translate_bin(*op, ty, *a, *b) {
                    Ok(x) => {
                        self.bind(*dst, x);
                        Ok(())
                    },
                    Err(m) => Err(m),
                }
            },
            Inst::Unary { op, dst, a } => match self.lookup_scalar(*a) {
                Ok(x) => {
                    let ty = self.source_ty(*dst);
                    let y = self.translate_unary(*op, ty, x);
                    self.bind(*dst, y);
                    Ok(())
                },
                Err(m) => Err(m),
            },
            Inst::Cast { dst, val, to } => match self.lookup_scalar(*val) {
                Ok(x) => {
                    let from = self.source_ty(*val);
                    let y = self.translate_cast(from, *to, x);
                    self.bind(*dst, y);
                    Ok(())
                },
                Err(m) => Err(m),
            },
            Inst::Load(l) => self.translate_load(l),
            Inst::Store { arr, idx, val } => self.translate_store(*arr, *idx, *val),
            Inst::Call(c) => self.translate_call(c),
        }
    }

    /// All instructions of a list.
    fn translate_insts(&mut self, s: &Vec<Inst>) -> (r: Result<(), String>)
        requires
            old(self)@.wf(),
        ensures
            agrees(r, final(self)@, old(self)@.insts(s@, s@.len())),
            final(self)@.wf(),
            keeps(old(self)@, final(self)@),
    {
        let ghost start = self@;
        let mut k: usize = 0;
        while k < s.len()
            invariant
                start.wf(),
                self@.wf(),
                start == old(self)@,
                keeps(start, self@),
                k <= s@.len(),
                start.insts(s@, k as nat) == Ok::<Low, Seq<char>>(self@),
            decreases s@.len() - k,
        {
            match self.translate_inst(&s[k]) {
                Ok(_) => {},
                Err(m) => {
                    proof {
                        lemma_insts_stop(start, s@, (k + 1) as nat, s@.len());
                    }
                    return Err(m);
                },
            }
            k = k + 1;
        }
        Ok(())
    }
}

/// An argument that cannot be read ends the list.
proof fn lemma_marshal_stops(low: Low, args: Seq<ValueId>, k: nat, n: nat)
    requires
        k <= n,
        low.marshal(args, k) is Err,
    ensures
        low.marshal(args, n) == low.marshal(args, k),
    decreases n,
{
    if k < n {
        lemma_marshal_stops(low, args, k, (n - 1) as nat);
    }
}

/// An instruction that fails ends the list.
proof fn lemma_insts_stop(low: Low, s: Seq<Inst>, k: nat, n: nat)
    requires
        k <= n,
        low.insts(s, k) is Err,
    ensures
        low.insts(s, n) == low.insts(s, k),
    decreases n,
{
    if k < n {
        lemma_insts_stop(low, s, k, (n - 1) as nat);
    }
}

// ---------------------------------------------------------------------------
// Values read by their own definitions
// ---------------------------------------------------------------------------

/// A value whose definition reads it: its block carries it in an extra parameter.
#[derive(Clone, Copy, Debug, PartialEq, Eq, Structural)]
pub struct SelfUse {
    pub value: ValueId,
    pub block: usize,
    pub ty: ClifTy,
}

/// The entry of a value.
pub open spec fn repairs_value(v: ValueId) -> spec_fn(SelfUse) -> bool {
    |u: SelfUse| u.value == v
}

/// The values read by their own definitions, among the blocks before `b` and the first
/// `k` instructions of block `b`, in order; each once.
pub open spec fn self_uses_below(ir: FuncIr, b: nat, k: nat) -> Seq<SelfUse>
    decreases b, k,
{
    if k > 0 {
        let before = self_uses_below(ir, b, (k - 1) as nat);
        let i = ir.blocks@[b as int].insts@[k - 1];
        match i.def() {
            Some(d) => if i.reads().contains(d) && !any_where(before, repairs_value(d)) {
                before.push(
                    SelfUse {
                        value: d,
                        block: b as usize,
                        ty: match ir.type_of(d) {
                            Some(t) => scalar_ty(t),
                            None => ClifTy::I64,
                        },
                    },
                )
            } else {
                before
            },
            None => before,
        }
    } else if b > 0 {
        self_uses_below(ir, (b - 1) as nat, ir.blocks@[b - 1].insts@.len())
    } else {
        seq![]
    }
}

/// All values read by their own definitions.
pub open spec fn self_uses(ir: FuncIr) -> Seq<SelfUse> {
    self_uses_below(ir, ir.blocks@.len(), 0)
}

/// Whether the instruction reads `v`.
fn inst_reads(i: &Inst, v: ValueId) -> (r: bool)
    ensures
        r == i.reads().contains(v),
{
    let uses = i.uses();
    let mut k: usize = 0;
    while k < uses.len()
        invariant
            uses@ == i.reads(),
            k <= uses@.len(),
            forall|j: int| 0 <= j < k ==> uses@[j] != v,
        decreases uses@.len() - k,
    {
        if uses[k] == v {
            assert(i.reads()[k as int] == v);
            return true;
        }
        k = k + 1;
    }
    false
}

/// Whether the list holds the value.
fn repairs_have(list: &Vec<SelfUse>, v: ValueId) -> (r: bool)
    ensures
        r == any_where(list@, repairs_value(v)),
{
    let ghost p = repairs_value(v);
    let mut k: usize = 0;
    while k < list.len()
        invariant
            p == repairs_value(v),
            k <= list@.len(),
            forall|j: int| 0 <= j < k ==> !p(#[trigger] list@[j]),
        decreases list@.len() - k,
    {
        if list[k].value == v {
            assert(p(list@[k as int]));
            return true;
        }
        k = k + 1;
    }
    false
}

/// Finds the values read by their own definitions.
pub fn collect_self_uses(ir: &FuncIr) -> (r: Vec<SelfUse>)
    ensures
        r@ == self_uses(*ir),
{
    let mut out: Vec<SelfUse> = Vec::new();
    let mut b: usize = 0;
    while b < ir.blocks.len()
        invariant
            b <= ir.blocks@.len(),
            out@ == self_uses_below(*ir, b as nat, 0),
        decreases ir.blocks@.len() - b,
    {
        let insts = &ir.blocks[b].insts;
        let mut k: usize = 0;
        while k < insts.len()
            invariant
                b < ir.blocks@.len(),
                *insts == ir.blocks@[b as int].insts,
                k <= insts@.len(),
                out@ == self_uses_below(*ir, b as nat, k as nat),
            decreases insts@.len() - k,
        {
            if let Some(d) = insts[k].dst() {
                if inst_reads(&insts[k], d) && !repairs_have(&out, d) {
                    let ty = match ir.val_ty(d) {
                        Some(t) => clif_ty(t),
                        None => ClifTy::I64,
                    };
                    out.push(SelfUse { value: d, block: b, ty });
                }
            }
            k = k + 1;
        }
        b = b + 1;
    }
    out
}

// ---------------------------------------------------------------------------
// Edges
// ---------------------------------------------------------------------------

/// An argument that comes from the block.
pub open spec fn comes_from(b: BlockId) -> spec_fn((BlockId, ValueId)) -> bool {
    |a: (BlockId, ValueId)| a.0 == b
}

/// A phi of the variable.
pub open spec fn phi_of(l: LocalId) -> spec_fn(Phi) -> bool {
    |p: Phi| p.var == l
}

/// The value that the edge from `a` to `b` supplies for phi `k` of `b`: the argument
/// that the phi keeps for the edge, else the one at its position in the jump.
pub open spec fn edge_arg(ir: FuncIr, a: BlockId, b: BlockId, k: int) -> Option<ValueId> {
    let p = ir.at(b).phis@[k];
    let args = ir.at(a).term.forwarded();
    match first_where(p.args@, comes_from(a)) {
        Some(j) => Some(p.args@[j].1),
        None => match first_where(ir.at(b).phis@, phi_of(p.var)) {
            Some(j) => if j < args.len() {
                Some(args[j])
            } else {
                None
            },
            None => None,
        },
    }
}

/// Every edge supplies a value for every phi.
pub open spec fn edges_fed(ir: FuncIr) -> bool {
    forall|a: BlockId, b: BlockId, k: int|
        ir.edge(a, b) && 0 <= k < ir.at(b).phis@.len() ==> #[trigger] edge_arg(ir, a, b, k) is Some
}

/// The value that an edge supplies.
#[verifier::rlimit(40)]
fn find_edge_arg(ir: &FuncIr, a: BlockId, b: BlockId, k: usize) -> (r: Option<ValueId>)
    requires
        ir.has_block(a),
        ir.has_block(b),
        k < ir.at(b).phis@.len(),
    ensures
        r == edge_arg(*ir, a, b, k as int),
{
    let phis = &ir.block(b).phis;
    let p = &phis[k];
    let ghost from = comes_from(a);
    let mut j: usize = 0;
    while j < p.args.len()
        invariant
            from == comes_from(a),
            *phis == ir.at(b).phis,
            k < phis@.len(),
            *p == phis@[k as int],
            j <= p.args@.len(),
            forall|i: int| 0 <= i < j ==> !from(#[trigger] p.args@[i]),
        decreases p.args@.len() - j,
    {
        if p.args[j].0 == a {
            proof {
                lemma_first_where_is(p.args@, from, j as int);
            }
            return Some(p.args[j].1);
        }
        j = j + 1;
    }
    let ghost same = phi_of(p.var);
    proof {
        lemma_first_where_none(p.args@, from);
    }
    let args = ir.block(a).term.forwarded_args();
    let mut i: usize = 0;
    while i < phis.len()
        invariant
            from == comes_from(a),
            same == phi_of(p.var),
            *phis == ir.at(b).phis,
            k < phis@.len(),
            *p == phis@[k as int],
            args@ == ir.at(a).term.forwarded(),
            first_where(p.args@, from) is None,
            i <= phis@.len(),
            forall|j: int| 0 <= j < i ==> !same(#[trigger] phis@[j]),
        decreases phis@.len() - i,
    {
        if phis[i].var == p.var {
            proof {
                lemma_first_where_is(phis@, same, i as int);
            }
            return if i < args.len() {
                Some(args[i])
            } else {
                None
            };
        }
        i = i + 1;
    }
    proof {
        lemma_first_where_none(phis@, same);
    }
    None
}

impl Low {
    /// The machine value of a value that an edge carries. One that has none is never
    /// observed: a zero stands for it.
    pub open spec fn edge_value(self, v: ValueId, t: ClifTy) -> (Low, Val) {
        if self.vals.dom().contains(v.0) {
            (self, self.vals[v.0])
        } else if self.repairs.dom().contains(v.0) {
            (self, self.repairs[v.0])
        } else {
            (self.ins(zero_op(t), t), self.next())
        }
    }

    /// The arguments for the first `k` phis on the edge from `a` to `b`.
    pub open spec fn edge(self, a: BlockId, b: BlockId, k: nat) -> (Low, Seq<Val>)
        decreases k,
    {
        if k == 0 {
            (self, seq![])
        } else {
            let (s, before) = self.edge(a, b, (k - 1) as nat);
            let p = self.ir.at(b).phis@[k - 1];
            let v = edge_arg(self.ir, a, b, k - 1)->0;
            let (s1, x) = s.edge_value(v, scalar_ty(self.source_ty(p.dst)));
            (s1, before.push(x))
        }
    }

    /// The arguments for all phis on the edge from `a` to `b`.
    pub open spec fn whole_edge(self, a: BlockId, b: BlockId) -> (Low, Seq<Val>) {
        self.edge(a, b, self.ir.at(b).phis@.len())
    }

    /// What block `b` hands on for its own extra parameters, for the first `k` entries:
    /// the values as it defines them.
    pub open spec fn extras(self, su: Seq<SelfUse>, b: usize, k: nat) -> Result<
        Seq<Val>,
        Seq<char>,
    >
        decreases k,
    {
        if k == 0 {
            Ok(seq![])
        } else {
            match self.extras(su, b, (k - 1) as nat) {
                Ok(before) => {
                    let u = su[k - 1];
                    if u.block != b {
                        Ok(before)
                    } else if self.vals.dom().contains(u.value.0) {
                        Ok(before.push(self.vals[u.value.0]))
                    } else {
                        Err("self-use v"@ + natural_text(u.value.0 as nat) + " never bound"@)
                    }
                },
                Err(m) => Err(m),
            }
        }
    }

    /// The end of block `b`.
    pub open spec fn term(self, su: Seq<SelfUse>, b: usize) -> Result<Low, Seq<char>> {
        let me = BlockId(b as u32);
        match self.extras(su, b, su.len()) {
            Ok(extra) => match self.ir.at(me).term {
                Term::Jump(t, _) => {
                    let (s, args) = self.whole_edge(me, t);
                    Ok(s.end(OpV::Jump(t.0 as usize, args + extra)))
                },
                Term::Branch { cond, t, f } => match self.lookup(cond) {
                    Ok(c) => {
                        let (s1, targs) = self.whole_edge(me, t);
                        let (s2, fargs) = s1.whole_edge(me, f);
                        Ok(
                            s2.end(
                                OpV::Brif(
                                    c,
                                    t.0 as usize,
                                    targs + extra,
                                    f.0 as usize,
                                    fargs + extra,
                                ),
                            ),
                        )
                    },
                    Err(m) => Err(m),
                },
                Term::Return(v) => match v {
                    Some(v) => match self.lookup(v) {
                        Ok(x) => Ok(self.end(OpV::Return(seq![x]))),
                        Err(m) => Err(m),
                    },
                    None => Ok(self.end(OpV::Return(seq![]))),
                },
            },
            Err(m) => Err(m),
        }
    }
}

impl<'a> Lowering<'a> {
    /// The constant zero of a type.
    fn zero(&mut self, t: ClifTy) -> (r: Val)
        requires
            old(self)@.wf(),
        ensures
            final(self)@ == old(self)@.ins(zero_op(t), t),
            r == old(self)@.next(),
            final(self)@.wf(),
            final(self)@.has(r),
            keeps(old(self)@, final(self)@),
    {
        match t {
            ClifTy::F32 => self.ins(Op::F32const(0), t),
            ClifTy::F64 => self.ins(Op::F64const(0), t),
            _ => self.ins(Op::Iconst(t, 0), t),
        }
    }

    /// The machine value of a value that an edge carries.
    fn edge_value(&mut self, v: ValueId, t: ClifTy) -> (r: Val)
        requires
            old(self)@.wf(),
        ensures
            (final(self)@, r) == old(self)@.edge_value(v, t),
            final(self)@.wf(),
            final(self)@.has(r),
            keeps(old(self)@, final(self)@),
    {
        if let Some(x) = self.vals.get(&v.0) {
            return *x;
        }
        if let Some(x) = self.repairs.get(&v.0) {
            return *x;
        }
        self.zero(t)
    }

    /// The arguments for the phis on the edge from `a` to `b`.
    fn edge_args(&mut self, a: BlockId, b: BlockId) -> (r: Vec<Val>)
        requires
            old(self)@.wf(),
            old(self)@.ir.wf(),
            edges_fed(old(self)@.ir),
            old(self)@.ir.edge(a, b),
        ensures
            (final(self)@, r@) == old(self)@.whole_edge(a, b),
            final(self)@.wf(),
            keeps(old(self)@, final(self)@),
    {
        let ghost start = self@;
        proof {
            let i = choose|i: int|
                0 <= i < start.ir.at(a).term.targets().len() && start.ir.at(a).term.targets()[i]
                    == b;
            assert(start.ir.has_block(start.ir.at(a).term.targets()[i]));
        }
        let ir: &'a FuncIr = self.ir;
        let phis = &ir.block(b).phis;
        let mut out: Vec<Val> = Vec::new();
        let mut k: usize = 0;
        while k < phis.len()
            invariant
                start.wf(),
                *ir == start.ir,
                self@.wf(),
                keeps(start, self@),
                ir.has_block(a),
                ir.has_block(b),
                ir.edge(a, b),
                edges_fed(*ir),
                *phis == ir.at(b).phis,
                k <= phis@.len(),
                start.edge(a, b, k as nat) == (self@, out@),
            decreases phis@.len() - k,
        {
            let v = match find_edge_arg(ir, a, b, k) {
                Some(v) => v,
                None => ValueId(0),
            };
            assert(edge_arg(*ir, a, b, k as int) is Some);
            let t = clif_ty(self.source_ty(phis[k].dst));
            let x = self.edge_value(v, t);
            out.push(x);
            k = k + 1;
        }
        out
    }

    /// What block `b` hands on for its own extra parameters.
    fn extra_args(&self, su: &Vec<SelfUse>, b: usize) -> (r: Result<Vec<Val>, String>)
        ensures
            match self@.extras(su@, b, su@.len()) {
                Ok(m) => r matches Ok(v) && v@ == m,
                Err(e) => r matches Err(s) && s@ == e,
            },
    {
        let mut out: Vec<Val> = Vec::new();
        let mut k: usize = 0;
        while k < su.len()
            invariant
                k <= su@.len(),
                self@.extras(su@, b, k as nat) == Ok::<Seq<Val>, Seq<char>>(out@),
            decreases su@.len() - k,
        {
            if su[k].block == b {
                let v = su[k].value;
                match self.vals.get(&v.0) {
                    Some(x) => {
                        out.push(*x);
                    },
                    None => {
                        proof {
                            lemma_extras_stop(self@, su@, b, (k + 1) as nat, su@.len());
                        }
                        let mut s = "self-use v".to_owned();
                        push_natural(&mut s, v.0 as u128);
                        push_text(&mut s, " never bound");
                        return Err(s);
                    },
                }
            }
            k = k + 1;
        }
        Ok(out)
    }

    /// The end of block `b`.
    #[verifier::rlimit(40)]
    fn translate_term(&mut self, su: &Vec<SelfUse>, b: usize) -> (r: Result<(), String>)
        requires
            old(self)@.wf(),
            old(self)@.ir.wf(),
            edges_fed(old(self)@.ir),
            b < old(self)@.ir.blocks@.len(),
        ensures
            agrees(r, final(self)@, old(self)@.term(su@, b)),
            final(self)@.wf(),
            keeps(old(self)@, final(self)@),
    {
        let me = BlockId(b as u32);
        let extra = match self.extra_args(su, b) {
            Ok(e) => e,
            Err(m) => {
                return Err(m);
            },
        };
        let ir: &'a FuncIr = self.ir;
        match &ir.block(me).term {
            Term::Jump(t, _) => {
                proof {
                    assert(ir.at(me).term.targets()[0] == *t);
                }
                let args = self.edge_args(me, *t);
                let all = joined_args(args, &extra);
                self.end(Op::Jump(t.0 as usize, all));
                Ok(())
            },
            Term::Branch { cond, t, f } => {
                proof {
                    assert(ir.at(me).term.targets()[0] == *t);
                    assert(ir.at(me).term.targets()[1] == *f);
                }
                let c = match self.lookup_scalar(*cond) {
                    Ok(c) => c,
                    Err(m) => {
                        return Err(m);
                    },
                };
                let targs = self.edge_args(me, *t);
                let fargs = self.edge_args(me, *f);
                let tall = joined_args(targs, &extra);
                let fall = joined_args(fargs, &extra);
                self.end(Op::Brif(c, t.0 as usize, tall, f.0 as usize, fall));
                Ok(())
            },
            Term::Return(v) => match v {
                Some(v) => match self.lookup_scalar(*v) {
                    Ok(x) => {
                        let out: Vec<Val> = vec![x];
                        assert(out@ =~= seq![x]);
                        self.end(Op::Return(out));
                        Ok(())
                    },
                    Err(m) => Err(m),
                },
                None => {
                    let out: Vec<Val> = Vec::new();
                    assert(out@ =~= seq![]);
                    self.end(Op::Return(out));
                    Ok(())
                },
            },
        }
    }
}

/// One list after the other.
fn joined_args(a: Vec<Val>, b: &Vec<Val>) -> (r: Vec<Val>)
    ensures
        r@ == a@ + b@,
{
    let mut out = a;
    let mut k: usize = 0;
    while k < b.len()
        invariant
            k <= b@.len(),
            out@ == a@ + b@.take(k as int),
        decreases b@.len() - k,
    {
        out.push(b[k]);
        k = k + 1;
        assert(b@.take(k as int) =~= b@.take(k - 1).push(b@[k - 1]));
        assert(out@ =~= a@ + b@.take(k as int));
    }
    assert(b@.take(k as int) =~= b@);
    out
}

/// An entry without a value ends the list.
proof fn lemma_extras_stop(low: Low, su: Seq<SelfUse>, b: usize, k: nat, n: nat)
    requires
        k <= n,
        low.extras(su, b, k) is Err,
    ensures
        low.extras(su, b, n) == low.extras(su, b, k),
    decreases n,
{
    if k < n {
        lemma_extras_stop(low, su, b, k, (n - 1) as nat);
    }
}

// ---------------------------------------------------------------------------
// Dispatch of a region
// ---------------------------------------------------------------------------

/// The function of the host that reads back the result of a reduction.
pub open spec fn read_symbol(width: u64, float: bool) -> Seq<char> {
    if width == 8 && !float {
        "helix_read_i64"@
    } else if width == 4 && !float {
        "helix_read_i32"@
    } else if width == 8 && float {
        "helix_read_f64"@
    } else {
        "helix_read_f32"@
    }
}

/// The function of the host that reads back the result of a reduction.
fn name_of_read(width: u64, float: bool) -> (r: &'static str)
    ensures
        r@ == read_symbol(width, float),
{
    if width == 8 && !float {
        "helix_read_i64"
    } else if width == 4 && !float {
        "helix_read_i32"
    } else if width == 8 && float {
        "helix_read_f64"
    } else {
        "helix_read_f32"
    }
}

/// The hook fits the function: its exit follows its header, and its offsets are not
/// negative.
pub open spec fn hook_fits(ir: FuncIr, h: HookV) -> bool {
    &&& ir.has_block(h.header)
    &&& ir.edge(h.header, h.exit)
    &&& forall|k: int| 0 <= k < h.scalars.len() ==> (#[trigger] h.scalars[k]).3 >= 0
}

impl Low {
    /// Hands one captured scalar to the host: integers at full width, floating-point
    /// numbers at double precision.
    pub open spec fn stash_scalar(self, s: (u32, u64, bool, i64)) -> Result<Low, Seq<char>> {
        match self.lookup(ValueId(s.0)) {
            Ok(x) => {
                let word = self.next();
                let s1 = self.ins(OpV::Iconst(ClifTy::I64, (s.3 / 8) as i64), ClifTy::I64);
                let t = s1.ty_of(x);
                let (s2, y) = if s.2 && t == ClifTy::F32 {
                    (
                        s1.ins(OpV::Convert(ConvertOp::Fpromote, ClifTy::F64, x), ClifTy::F64),
                        s1.next(),
                    )
                } else if !s.2 && t == ClifTy::I32 {
                    (
                        s1.ins(OpV::Convert(ConvertOp::Sextend, ClifTy::I64, x), ClifTy::I64),
                        s1.next(),
                    )
                } else {
                    (s1, x)
                };
                let symbol = if s.2 {
                    "helix_stash_f"@
                } else {
                    "helix_stash_i"@
                };
                match s2.import(symbol) {
                    Ok((s3, f)) => Ok(s3.call(f, seq![word, y])),
                    Err(m) => Err(m),
                }
            },
            Err(m) => Err(m),
        }
    }

    /// Hands the first `k` captured scalars to the host.
    pub open spec fn stash_scalars(self, s: Seq<(u32, u64, bool, i64)>, k: nat) -> Result<
        Low,
        Seq<char>,
    >
        decreases k,
    {
        if k == 0 {
            Ok(self)
        } else {
            match self.stash_scalars(s, (k - 1) as nat) {
                Ok(low) => low.stash_scalar(s[k - 1]),
                Err(m) => Err(m),
            }
        }
    }

    /// Hands the array of a slot to the host.
    pub open spec fn stash_array(self, l: LocalId, slot: i64) -> Result<Low, Seq<char>> {
        match self.lookup_array(l) {
            Ok(p) => {
                let number = self.next();
                let s1 = self.ins(OpV::Iconst(ClifTy::I64, slot), ClifTy::I64);
                match s1.import("helix_stash_arr"@) {
                    Ok((s2, f)) => Ok(s2.call(f, seq![number, p.data, p.len])),
                    Err(m) => Err(m),
                }
            },
            Err(m) => Err(m),
        }
    }

    /// Hands the first `k` arrays to the host.
    pub open spec fn stash_arrays(self, s: Seq<(LocalId, i64, i64)>, k: nat) -> Result<
        Low,
        Seq<char>,
    >
        decreases k,
    {
        if k == 0 {
            Ok(self)
        } else {
            match self.stash_arrays(s, (k - 1) as nat) {
                Ok(low) => low.stash_array(s[k - 1].0, (k - 1) as i64),
                Err(m) => Err(m),
            }
        }
    }

    /// A bound of the loop at full width: the value, or the constant.
    pub open spec fn bound(self, ssa: Option<u32>, c: i64) -> Result<(Low, Val), Seq<char>> {
        match ssa {
            Some(v) => match self.lookup(ValueId(v)) {
                Ok(x) => Ok(self.widened(x, self.source_ty(ValueId(v)))),
                Err(m) => Err(m),
            },
            None => Ok((self.ins(OpV::Iconst(ClifTy::I64, c), ClifTy::I64), self.next())),
        }
    }

    /// Reads the result of a reduction back into the accumulator.
    pub open spec fn read_back(self, h: HookV, handle: Val) -> Result<Low, Seq<char>> {
        match h.kind {
            RKind::Reduction(s) => match self.import(read_symbol(s.width, s.float)) {
                Ok((s1, f)) => if s1.import_sig(f).returns.len() == 0 {
                    Err("dispatch result without a value"@)
                } else {
                    let s2 = s1.call(f, seq![handle]);
                    Ok(
                        match h.acc_dst {
                            Some(d) => s2.bind(ValueId(d), s1.next()),
                            None => s2,
                        },
                    )
                },
                Err(m) => Err(m),
            },
            RKind::DoAll => Ok(self),
        }
    }

    /// Stashes, dispatches the iterations, reads the result back and goes on at the
    /// exit.
    pub open spec fn dispatch(self, h: HookV) -> Result<Low, Seq<char>> {
        match self.stash_scalars(h.scalars, h.scalars.len()) {
            Ok(s1) => match s1.stash_arrays(h.arrays, h.arrays.len()) {
                Ok(s2) => match s2.bound(h.start_ssa, h.start_const) {
                    Ok((s3, first)) => match s3.bound(h.end_ssa, h.end_const) {
                        Ok((s4, last)) => s4.dispatch_call(h, first, last),
                        Err(m) => Err(m),
                    },
                    Err(m) => Err(m),
                },
                Err(m) => Err(m),
            },
            Err(m) => Err(m),
        }
    }

    /// Dispatches the iterations between the bounds.
    pub open spec fn dispatch_call(self, h: HookV, first: Val, last: Val) -> Result<
        Low,
        Seq<char>,
    > {
        let region = self.next();
        let s1 = self.ins(OpV::Iconst(ClifTy::I64, h.region_id), ClifTy::I64);
        let threads = s1.next();
        let s2 = s1.ins(OpV::Iconst(ClifTy::I64, NTHREADS_HINT), ClifTy::I64);
        match s2.import("helix_dispatch"@) {
            Ok((s3, f)) => if s3.import_sig(f).returns.len() == 0 {
                Err("dispatch without a handle"@)
            } else {
                let handle = s3.next();
                match s3.call(f, seq![first, last, region, threads]).read_back(h, handle) {
                    Ok(s4) => {
                        let (s5, args) = s4.whole_edge(h.header, h.exit);
                        Ok(s5.end(OpV::Jump(h.exit.0 as usize, args)))
                    },
                    Err(m) => Err(m),
                }
            },
            Err(m) => Err(m),
        }
    }
}

impl<'a> Lowering<'a> {
    /// Hands one captured scalar to the host.
    fn stash_scalar(&mut self, s: &(u32, u64, bool, i64)) -> (r: Result<(), String>)
        requires
            old(self)@.wf(),
            s.3 >= 0,
        ensures
            agrees(r, final(self)@, old(self)@.stash_scalar(*s)),
            final(self)@.wf(),
            keeps(old(self)@, final(self)@),
    {
        let (id, _, float, off) = *s;
        let x = match self.lookup_scalar(ValueId(id)) {
            Ok(x) => x,
            Err(m) => {
                return Err(m);
            },
        };
        let position: i64 = off / 8;
        let word = self.ins(Op::Iconst(ClifTy::I64, position), ClifTy::I64);
        let t = self.ty_of(x);
        let y = if float && t == ClifTy::F32 {
            self.ins(Op::Convert(ConvertOp::Fpromote, ClifTy::F64, x), ClifTy::F64)
        } else if !float && t == ClifTy::I32 {
            self.ins(Op::Convert(ConvertOp::Sextend, ClifTy::I64, x), ClifTy::I64)
        } else {
            x
        };
        let symbol = if float {
            "helix_stash_f"
        } else {
            "helix_stash_i"
        };
        match self.import_in_func(symbol) {
            Ok(f) => {
                let args: Vec<Val> = vec![word, y];
                assert(args@ =~= seq![word, y]);
                let _ = self.call(f, args);
                Ok(())
            },
            Err(m) => Err(m),
        }
    }

    /// Hands all captured scalars to the host.
    fn stash_scalars(&mut self, s: &Vec<(u32, u64, bool, i64)>) -> (r: Result<(), String>)
        requires
            old(self)@.wf(),
            forall|k: int| 0 <= k < s@.len() ==> (#[trigger] s@[k]).3 >= 0,
        ensures
            agrees(r, final(self)@, old(self)@.stash_scalars(s@, s@.len())),
            final(self)@.wf(),
            keeps(old(self)@, final(self)@),
    {
        let ghost start = self@;
        let mut k: usize = 0;
        while k < s.len()
            invariant
                start == old(self)@,
                self@.wf(),
                keeps(start, self@),
                k <= s@.len(),
                forall|k: int| 0 <= k < s@.len() ==> (#[trigger] s@[k]).3 >= 0,
                start.stash_scalars(s@, k as nat) == Ok::<Low, Seq<char>>(self@),
            decreases s@.len() - k,
        {
            match self.stash_scalar(&s[k]) {
                Ok(_) => {},
                Err(m) => {
                    proof {
                        lemma_scalars_stop(start, s@, (k + 1) as nat, s@.len());
                    }
                    return Err(m);
                },
            }
            k = k + 1;
        }
        Ok(())
    }

    /// Hands the array of a slot to the host.
    fn stash_array(&mut self, l: LocalId, slot: i64) -> (r: Result<(), String>)
        requires
            old(self)@.wf(),
        ensures
            agrees(r, final(self)@, old(self)@.stash_array(l, slot)),
            final(self)@.wf(),
            keeps(old(self)@, final(self)@),
    {
        let p = match self.lookup_array(l) {
            Ok(p) => p,
            Err(m) => {
                return Err(m);
            },
        };
        let number = self.ins(Op::Iconst(ClifTy::I64, slot), ClifTy::I64);
        match self.import_in_func("helix_stash_arr") {
            Ok(f) => {
                let args: Vec<Val> = vec![number, p.data, p.len];
                assert(args@ =~= seq![number, p.data, p.len]);
                let _ = self.call(f, args);
                Ok(())
            },
            Err(m) => Err(m),
        }
    }

    /// Hands all arrays to the host.
    fn stash_arrays(&mut self, s: &Vec<(LocalId, i64, i64)>) -> (r: Result<(), String>)
        requires
            old(self)@.wf(),
            s@.len() <= i64::MAX,
        ensures
            agrees(r, final(self)@, old(self)@.stash_arrays(s@, s@.len())),
            final(self)@.wf(),
            keeps(old(self)@, final(self)@),
    {
        let ghost start = self@;
        let mut k: usize = 0;
        while k < s.len()
            invariant
                start == old(self)@,
                self@.wf(),
                keeps(start, self@),
                s@.len() <= i64::MAX,
                k <= s@.len(),
                start.stash_arrays(s@, k as nat) == Ok::<Low, Seq<char>>(self@),
            decreases s@.len() - k,
        {
            match self.stash_array(s[k].0, k as i64) {
                Ok(_) => {},
                Err(m) => {
                    proof {
                        lemma_arrays_stop(start, s@, (k + 1) as nat, s@.len());
                    }
                    return Err(m);
                },
            }
            k = k + 1;
        }
        Ok(())
    }

    /// A bound of the loop at full width.
    fn bound_value(&mut self, ssa: Option<u32>, c: i64) -> (r: Result<Val, String>)
        requires
            old(self)@.wf(),
        ensures
            agrees_on(r, final(self)@, old(self)@.bound(ssa, c)),
            final(self)@.wf(),
            keeps(old(self)@, final(self)@),
    {
        match ssa {
            Some(v) => match self.lookup_scalar(ValueId(v)) {
                Ok(x) => {
                    let ty = self.source_ty(ValueId(v));
                    Ok(self.widen_index(x, ty))
                },
                Err(m) => Err(m),
            },
            None => Ok(self.ins(Op::Iconst(ClifTy::I64, c), ClifTy::I64)),
        }
    }

    /// Reads the result of a reduction back into the accumulator.
    fn read_back(&mut self, h: &RtHook, handle: Val) -> (r: Result<(), String>)
        requires
            old(self)@.wf(),
        ensures
            agrees(r, final(self)@, old(self)@.read_back(h@, handle)),
            final(self)@.wf(),
            keeps(old(self)@, final(self)@),
    {
        match h.kind {
            RKind::Reduction(s) => match self.import_in_func(name_of_read(s.width, s.float)) {
                Ok(f) => {
                    let args: Vec<Val> = vec![handle];
                    assert(args@ =~= seq![handle]);
                    match self.call(f, args) {
                        Some(x) => {
                            if let Some(d) = h.acc_dst {
                                self.bind(ValueId(d), x);
                            }
                            Ok(())
                        },
                        None => fail("dispatch result without a value"),
                    }
                },
                Err(m) => Err(m),
            },
            RKind::DoAll => Ok(()),
        }
    }

    /// Dispatches the iterations between the bounds.
    fn dispatch_call(&mut self, h: &RtHook, first: Val, last: Val) -> (r: Result<(), String>)
        requires
            old(self)@.wf(),
            old(self)@.ir.wf(),
            edges_fed(old(self)@.ir),
            hook_fits(old(self)@.ir, h@),
        ensures
            agrees(r, final(self)@, old(self)@.dispatch_call(h@, first, last)),
            final(self)@.wf(),
            keeps(old(self)@, final(self)@),
    {
        let region = self.ins(Op::Iconst(ClifTy::I64, h.region_id), ClifTy::I64);
        let threads = self.ins(Op::Iconst(ClifTy::I64, NTHREADS_HINT), ClifTy::I64);
        let f: usize = match self.import_in_func("helix_dispatch") {
            Ok(f) => f,
            Err(m) => {
                return Err(m);
            },
        };
        let args: Vec<Val> = vec![first, last, region, threads];
        assert(args@ =~= seq![first, last, region, threads]);
        let handle = match self.call(f, args) {
            Some(x) => x,
            None => {
                return fail("dispatch without a handle");
            },
        };
        match self.read_back(h, handle) {
            Ok(_) => {},
            Err(m) => {
                return Err(m);
            },
        }
        let outs = self.edge_args(h.header, h.exit);
        self.end(Op::Jump(h.exit.0 as usize, outs));
        Ok(())
    }

    /// Stashes, dispatches the iterations, reads the result back and goes on at the
    /// exit.
    fn translate_dispatch(&mut self, h: &RtHook) -> (r: Result<(), String>)
        requires
            old(self)@.wf(),
            old(self)@.ir.wf(),
            edges_fed(old(self)@.ir),
            hook_fits(old(self)@.ir, h@),
            h.arrays@.len() <= i64::MAX,
        ensures
            agrees(r, final(self)@, old(self)@.dispatch(h@)),
            final(self)@.wf(),
            keeps(old(self)@, final(self)@),
    {
        match self.stash_scalars(&h.scalars) {
            Ok(_) => {},
            Err(m) => {
                return Err(m);
            },
        }
        match self.stash_arrays(&h.arrays) {
            Ok(_) => {},
            Err(m) => {
                return Err(m);
            },
        }
        let first = match self.bound_value(h.start_ssa, h.start_const) {
            Ok(x) => x,
            Err(m) => {
                return Err(m);
            },
        };
        let last = match self.bound_value(h.end_ssa, h.end_const) {
            Ok(x) => x,
            Err(m) => {
                return Err(m);
            },
        };
        self.dispatch_call(h, first, last)
    }
}

/// A scalar that cannot be stashed ends the list.
proof fn lemma_scalars_stop(low: Low, s: Seq<(u32, u64, bool, i64)>, k: nat, n: nat)
    requires
        k <= n,
        low.stash_scalars(s, k) is Err,
    ensures
        low.stash_scalars(s, n) == low.stash_scalars(s, k),
    decreases n,
{
    if k < n {
        lemma_scalars_stop(low, s, k, (n - 1) as nat);
    }
}

/// An array that cannot be stashed ends the list.
proof fn lemma_arrays_stop(low: Low, s: Seq<(LocalId, i64, i64)>, k: nat, n: nat)
    requires
        k <= n,
        low.stash_arrays(s, k) is Err,
    ensures
        low.stash_arrays(s, n) == low.stash_arrays(s, k),
    decreases n,
{
    if k < n {
        lemma_arrays_stop(low, s, k, (n - 1) as nat);
    }
}

// ---------------------------------------------------------------------------
// Blocks and functions
// ---------------------------------------------------------------------------

/// What a lowering needs besides the function: the values read by their own
/// definitions, the region that is handed to the host, and the types of the results.
#[verifier::ext_equal]
pub struct Setting {
    pub self_uses: Seq<SelfUse>,
    pub hook: Option<HookV>,
    pub results: Seq<ClifTy>,
}

/// The block is a part of the loop that is handed to the host.
pub open spec fn orphaned(ir: FuncIr, hook: Option<HookV>, b: BlockId) -> bool {
    match hook {
        Some(h) => b != h.header && is_header(ir, h.header) && natural_loop(
            ir,
            h.header,
        ).contains(b),
        None => false,
    }
}

/// A phi or an instruction defines the value.
pub open spec fn has_def(ir: FuncIr, v: ValueId) -> bool {
    any_where(ir.blocks@, holds_def(v))
}

impl Low {
    /// The extra parameters of block `b`, for the first `k` entries.
    pub open spec fn open_repairs(self, su: Seq<SelfUse>, b: usize, k: nat) -> Low
        decreases k,
    {
        if k == 0 {
            self
        } else {
            let s = self.open_repairs(su, b, (k - 1) as nat);
            let u = su[k - 1];
            if u.block == b {
                Low { repairs: s.repairs.insert(u.value.0, s.next()), ..s.with_param(b, u.ty) }
            } else {
                s
            }
        }
    }

    /// The first `k` phis of block `b` are its first parameters.
    pub open spec fn bind_phis(self, b: usize, k: nat) -> Low
        decreases k,
    {
        if k == 0 {
            self
        } else {
            let s = self.bind_phis(b, (k - 1) as nat);
            s.bind(
                self.ir.blocks@[b as int].phis@[k - 1].dst,
                self.blocks[b as int].params[k - 1],
            )
        }
    }

    /// Zeros of the first `k` types.
    pub open spec fn zero_list(self, tys: Seq<ClifTy>, k: nat) -> (Low, Seq<Val>)
        decreases k,
    {
        if k == 0 {
            (self, seq![])
        } else {
            let (s, before) = self.zero_list(tys, (k - 1) as nat);
            (s.ins(zero_op(tys[k - 1]), tys[k - 1]), before.push(s.next()))
        }
    }

    /// Returns zeros.
    pub open spec fn return_zeros(self, tys: Seq<ClifTy>) -> Low {
        let (s, zeros) = self.zero_list(tys, tys.len());
        s.end(OpV::Return(zeros))
    }

    /// The instructions and the end of block `b`.
    pub open spec fn filled(
        self,
        su: Seq<SelfUse>,
        hook: Option<HookV>,
        b: usize,
    ) -> Result<Low, Seq<char>> {
        let me = BlockId(b as u32);
        let data = self.ir.blocks@[b as int];
        match self.insts(data.insts@, data.insts@.len()) {
            Ok(s3) => match hook {
                Some(h) => if h.header == me {
                    s3.dispatch(h)
                } else {
                    s3.term(su, b)
                },
                None => s3.term(su, b),
            },
            Err(m) => Err(m),
        }
    }

    /// Block `b`.
    #[verifier::opaque]
    pub open spec fn block(self, st: Setting, b: usize) -> Result<Low, Seq<char>> {
        let me = BlockId(b as u32);
        let entry = me == self.ir.entry;
        let data = self.ir.blocks@[b as int];
        let s0 = if entry {
            self
        } else {
            self.at(b)
        };
        if orphaned(self.ir, st.hook, me) {
            Ok(s0.return_zeros(st.results))
        } else {
            let s1 = s0.open_repairs(st.self_uses, b, st.self_uses.len());
            let s2 = if entry {
                s1
            } else {
                s1.bind_phis(b, data.phis@.len())
            };
            s2.filled(st.self_uses, st.hook, b)
        }
    }

    /// The first `k` blocks.
    pub open spec fn all_blocks(self, st: Setting, k: nat) -> Result<Low, Seq<char>>
        decreases k,
    {
        if k == 0 {
            Ok(self)
        } else {
            match self.all_blocks(st, (k - 1) as nat) {
                Ok(s) => s.block(st, (k - 1) as usize),
                Err(m) => Err(m),
            }
        }
    }

    /// Parameters of block `b` for its first `k` phis.
    pub open spec fn phi_params(self, b: usize, k: nat) -> Low
        decreases k,
    {
        if k == 0 {
            self
        } else {
            let p = self.ir.blocks@[b as int].phis@[k - 1];
            self.phi_params(b, (k - 1) as nat).with_param(b, scalar_ty(self.ir.phi_type(p)))
        }
    }

    /// Parameters of the first `n` blocks, but for the entry.
    pub open spec fn all_phi_params(self, n: nat) -> Low
        decreases n,
    {
        if n == 0 {
            self
        } else {
            let s = self.all_phi_params((n - 1) as nat);
            if self.ir.entry.0 == n - 1 {
                s
            } else {
                s.phi_params((n - 1) as usize, self.ir.blocks@[n - 1].phis@.len())
            }
        }
    }

    /// Parameters of the entry for the first `k` parameters of the function.
    pub open spec fn entry_params(self, tys: Seq<ClifTy>, k: nat) -> Low
        decreases k,
    {
        if k == 0 {
            self
        } else {
            self.entry_params(tys, (k - 1) as nat).with_param(self.ir.entry.0 as usize, tys[k - 1])
        }
    }

    /// The first `k` phis of the entry are parameters of the function.
    pub open spec fn bind_params(self, k: nat) -> Low
        decreases k,
    {
        if k == 0 {
            self
        } else {
            let s = self.bind_params((k - 1) as nat);
            let p = self.ir.at(self.ir.entry).phis@[k - 1];
            let params = self.blocks[self.ir.entry.0 as int].params;
            let c = params_below(self.ir, (k - 1) as nat).len() as int;
            match self.ir.phi_type(p) {
                Ty::Array(_) => s.bind_array(
                    p.var,
                    FatPtr { data: params[c], len: params[c + 1] },
                ),
                _ => s.bind(p.dst, params[c]),
            }
        }
    }

    /// Values of the first `n` locals that nothing defines are zero.
    pub open spec fn zero_locals(self, n: nat) -> Low
        decreases n,
    {
        if n == 0 {
            self
        } else {
            let s = self.zero_locals((n - 1) as nat);
            let v = ValueId((n - 1) as u32);
            if n - 1 < self.ir.types.val_tys@.len() && !has_def(self.ir, v) {
                let t = scalar_ty(self.ir.types.val_tys@[n - 1]);
                s.ins(zero_op(t), t).bind(v, s.next())
            } else {
                s
            }
        }
    }

    /// The block that reports errors, where there is one: it calls the host and returns
    /// zeros.
    pub open spec fn finish(self, results: Seq<ClifTy>) -> Result<Low, Seq<char>> {
        match self.panic {
            Some(b) => match self.at(b).import("helix_panic"@) {
                Ok((s, f)) => {
                    let p = s.blocks[b as int].params;
                    Ok(s.call(f, seq![p[0], p[1], p[2]]).return_zeros(results))
                },
                Err(m) => Err(m),
            },
            None => Ok(self),
        }
    }
}

/// A lowering with its blocks and nothing in them.
pub open spec fn blank(
    ir: FuncIr,
    unchecked: bool,
    callees: Seq<CalleeV>,
    prebind: Seq<(LocalId, ValueId, ValueId)>,
) -> Low {
    Low {
        ir,
        unchecked,
        callees,
        tys: seq![],
        blocks: Seq::new(
            ir.blocks@.len(),
            |i: int| ClifBlockV { params: seq![], insts: seq![] },
        ),
        cur: 0,
        imports: seq![],
        vals: Map::empty(),
        arrays: Map::empty(),
        panic: None,
        repairs: Map::empty(),
        prebind,
    }
}

/// A lowering that is ready for the first block: blocks have their parameters, those of
/// the function are bound, and locals that nothing defines are zero.
pub open spec fn opened(
    ir: FuncIr,
    unchecked: bool,
    callees: Seq<CalleeV>,
    prebind: Seq<(LocalId, ValueId, ValueId)>,
    params: Seq<ClifTy>,
) -> Result<Low, Seq<char>> {
    match blank(ir, unchecked, callees, prebind).all_phi_params(ir.blocks@.len()).import("helix_panic"@) {
        Ok((s1, _)) => {
            let s2 = s1.at(ir.entry.0 as usize).entry_params(params, params.len());
            let s3 = s2.bind_params(ir.at(ir.entry).phis@.len());
            Ok(s3.zero_locals(ir.n_locals as nat))
        },
        Err(m) => Err(m),
    }
}

/// The whole function, with parameters and results of the signature.
pub open spec fn lowered(
    ir: FuncIr,
    unchecked: bool,
    callees: Seq<CalleeV>,
    prebind: Seq<(LocalId, ValueId, ValueId)>,
    sig: SigV,
    st: Setting,
) -> Result<Low, Seq<char>> {
    match opened(ir, unchecked, callees, prebind, sig.params) {
        Ok(s) => match s.all_blocks(st, ir.blocks@.len()) {
            Ok(s1) => s1.finish(st.results),
            Err(m) => Err(m),
        },
        Err(m) => Err(m),
    }
}

/// Whether a phi or an instruction defines the value.
fn is_defined(ir: &FuncIr, v: ValueId) -> (r: bool)
    ensures
        r == has_def(*ir, v),
{
    let ghost p = holds_def(v);
    let mut b: usize = 0;
    while b < ir.blocks.len()
        invariant
            p == holds_def(v),
            b <= ir.blocks@.len(),
            forall|j: int| 0 <= j < b ==> !p(#[trigger] ir.blocks@[j]),
        decreases ir.blocks@.len() - b,
    {
        if block_defines(&ir.blocks[b], v) {
            assert(p(ir.blocks@[b as int]));
            return true;
        }
        b = b + 1;
    }
    false
}

/// The loop that is handed to the host, where there is one.
fn region_blocks(ir: &FuncIr, hook: Option<&RtHook>) -> (r: Vec<BlockId>)
    requires
        ir.wf(),
        hook matches Some(h) ==> ir.has_block(h.header),
    ensures
        forall|b: BlockId|
            #![trigger orphaned(*ir, plain(hook), b)]
            orphaned(*ir, plain(hook), b) <==> (hook matches Some(h) && b != h.header
                && r@.contains(b)),
{
    match hook {
        Some(h) => match natural_loop_of(ir, h.header) {
            Some(blocks) => blocks,
            None => Vec::new(),
        },
        None => Vec::new(),
    }
}

/// The hook itself.
pub open spec fn plain(hook: Option<&RtHook>) -> Option<HookV> {
    match hook {
        Some(h) => Some(h@),
        None => None,
    }
}

impl<'a> Lowering<'a> {
    /// Appends the extra parameters of block `b`.
    fn open_repairs(&mut self, su: &Vec<SelfUse>, b: usize)
        requires
            old(self)@.wf(),
            (b as int) < old(self)@.blocks.len(),
        ensures
            final(self)@ == old(self)@.open_repairs(su@, b, su@.len()),
            final(self)@.wf(),
            keeps(old(self)@, final(self)@),
            final(self)@.cur == old(self)@.cur,
    {
        let ghost start = self@;
        let mut k: usize = 0;
        while k < su.len()
            invariant
                start == old(self)@,
                self@.wf(),
                keeps(start, self@),
                self@.cur == start.cur,
                (b as int) < start.blocks.len(),
                k <= su@.len(),
                self@ == start.open_repairs(su@, b, k as nat),
            decreases su@.len() - k,
        {
            if su[k].block == b {
                let x = self.append_param(b, su[k].ty);
                self.repairs.insert(su[k].value.0, x);
            }
            k = k + 1;
        }
    }

    /// Lets the phis of block `b` be its first parameters.
    fn bind_phis(&mut self, b: usize)
        requires
            old(self)@.wf(),
            (b as int) < old(self)@.blocks.len(),
            b < old(self)@.ir.blocks@.len(),
            old(self)@.ir.blocks@[b as int].phis@.len() <= old(
                self,
            )@.blocks[b as int].params.len(),
        ensures
            final(self)@ == old(self)@.bind_phis(b, old(self)@.ir.blocks@[b as int].phis@.len()),
            final(self)@.wf(),
            keeps(old(self)@, final(self)@),
    {
        let ghost start = self@;
        let ir: &'a FuncIr = self.ir;
        let phis = &ir.blocks[b].phis;
        let mut k: usize = 0;
        while k < phis.len()
            invariant
                start == old(self)@,
                *ir == start.ir,
                self@.wf(),
                keeps(start, self@),
                self@.blocks == start.blocks,
                (b as int) < start.blocks.len(),
                b < ir.blocks@.len(),
                *phis == ir.blocks@[b as int].phis,
                phis@.len() <= start.blocks[b as int].params.len(),
                k <= phis@.len(),
                self@ == start.bind_phis(b, k as nat),
            decreases phis@.len() - k,
        {
            proof {
                assert(self@.blocks[b as int] == self.blocks@[b as int]@);
                assert(self@.has(self@.blocks[b as int].params[k as int]));
            }
            let x = self.blocks[b].params[k];
            self.bind(phis[k].dst, x);
            k = k + 1;
        }
    }

    /// Returns zeros.
    fn return_zeros(&mut self, tys: &Vec<ClifTy>)
        requires
            old(self)@.wf(),
        ensures
            final(self)@ == old(self)@.return_zeros(tys@),
            final(self)@.wf(),
            keeps(old(self)@, final(self)@),
    {
        let ghost start = self@;
        let mut zeros: Vec<Val> = Vec::new();
        let mut k: usize = 0;
        while k < tys.len()
            invariant
                start == old(self)@,
                self@.wf(),
                keeps(start, self@),
                k <= tys@.len(),
                (self@, zeros@) == start.zero_list(tys@, k as nat),
            decreases tys@.len() - k,
        {
            let x = self.zero(tys[k]);
            zeros.push(x);
            k = k + 1;
        }
        self.end(Op::Return(zeros));
    }

    /// The instructions and the end of a block.
    fn fill_block(
        &mut self,
        su: &Vec<SelfUse>,
        hook: Option<&RtHook>,
        b: usize,
    ) -> (r: Result<(), String>)
        requires
            old(self)@.wf(),
            old(self)@.ir.wf(),
            edges_fed(old(self)@.ir),
            b < old(self)@.ir.blocks@.len(),
            hook matches Some(h) ==> hook_fits(old(self)@.ir, h@) && h.arrays@.len() <= i64::MAX,
        ensures
            agrees(r, final(self)@, old(self)@.filled(su@, plain(hook), b)),
            final(self)@.wf(),
            keeps(old(self)@, final(self)@),
    {
        let me = BlockId(b as u32);
        let ir: &'a FuncIr = self.ir;
        match self.translate_insts(&ir.blocks[b].insts) {
            Ok(_) => {},
            Err(m) => {
                return Err(m);
            },
        }
        if let Some(h) = hook {
            if h.header == me {
                return self.translate_dispatch(h);
            }
        }
        self.translate_term(su, b)
    }

    /// Block `b`.
    fn translate_block(
        &mut self,
        su: &Vec<SelfUse>,
        hook: Option<&RtHook>,
        region: &Vec<BlockId>,
        results: &Vec<ClifTy>,
        b: usize,
    ) -> (r: Result<(), String>)
        requires
            old(self)@.wf(),
            old(self)@.ir.wf(),
            edges_fed(old(self)@.ir),
            b < old(self)@.ir.blocks@.len(),
            (b as int) < old(self)@.blocks.len(),
            b != old(self)@.ir.entry.0 ==> old(self)@.ir.blocks@[b as int].phis@.len() <= old(
                self,
            )@.blocks[b as int].params.len(),
            hook matches Some(h) ==> hook_fits(old(self)@.ir, h@) && h.arrays@.len() <= i64::MAX,
            forall|b: BlockId|
                #![trigger orphaned(old(self)@.ir, plain(hook), b)]
                orphaned(old(self)@.ir, plain(hook), b) <==> (hook matches Some(h) && b != h.header
                    && region@.contains(b)),
        ensures
            agrees(
                r,
                final(self)@,
                old(self)@.block(
                    (Setting {
                        self_uses: su@,
                        hook: plain(hook),
                        results: results@,
                    }),
                    b,
                ),
            ),
            final(self)@.wf(),
            keeps(old(self)@, final(self)@),
    {
        proof {
            reveal(Low::block);
        }
        let me = BlockId(b as u32);
        let entry = self.ir.entry;
        if me != entry {
            self.switch_to(b);
        }
        let orphan = match hook {
            Some(h) => me != h.header && has_member(region, me),
            None => false,
        };
        assert(orphan == orphaned(old(self)@.ir, plain(hook), me));
        if orphan {
            self.return_zeros(results);
            return Ok(());
        }
        self.open_repairs(su, b);
        if me != entry {
            self.bind_phis(b);
        }
        self.fill_block(su, hook, b)
    }

    /// Appends the parameters of block `b`.
    fn phi_params(&mut self, b: usize)
        requires
            old(self)@.wf(),
            (b as int) < old(self)@.blocks.len(),
            b < old(self)@.ir.blocks@.len(),
        ensures
            final(self)@ == old(self)@.phi_params(b, old(self)@.ir.blocks@[b as int].phis@.len()),
            final(self)@.wf(),
            keeps(old(self)@, final(self)@),
            final(self)@.blocks.len() == old(self)@.blocks.len(),
            final(self)@.blocks[b as int].params.len() == old(self)@.blocks[b as int].params.len()
                + old(self)@.ir.blocks@[b as int].phis@.len(),
    {
        let ghost start = self@;
        let ir: &'a FuncIr = self.ir;
        let phis = &ir.blocks[b].phis;
        let mut k: usize = 0;
        while k < phis.len()
            invariant
                start == old(self)@,
                *ir == start.ir,
                self@.wf(),
                keeps(start, self@),
                (b as int) < start.blocks.len(),
                b < ir.blocks@.len(),
                *phis == ir.blocks@[b as int].phis,
                k <= phis@.len(),
                self@.blocks.len() == start.blocks.len(),
                self@.blocks[b as int].params.len() == start.blocks[b as int].params.len() + k,
                self@ == start.phi_params(b, k as nat),
            decreases phis@.len() - k,
        {
            let t = clif_ty(phi_ty(ir, &phis[k]));
            let _ = self.append_param(b, t);
            k = k + 1;
        }
    }

    /// Appends the parameters of the entry.
    fn entry_params(&mut self, tys: &Vec<ClifTy>)
        requires
            old(self)@.wf(),
            (old(self)@.ir.entry.0 as int) < old(self)@.blocks.len(),
        ensures
            final(self)@ == old(self)@.entry_params(tys@, tys@.len()),
            final(self)@.wf(),
            keeps(old(self)@, final(self)@),
            final(self)@.blocks.len() == old(self)@.blocks.len(),
            final(self)@.blocks[old(self)@.ir.entry.0 as int].params.len() >= tys@.len(),
    {
        let ghost start = self@;
        let entry: usize = self.ir.entry.0 as usize;
        let mut k: usize = 0;
        while k < tys.len()
            invariant
                start == old(self)@,
                entry == start.ir.entry.0,
                self@.wf(),
                keeps(start, self@),
                (entry as int) < start.blocks.len(),
                k <= tys@.len(),
                self@.blocks.len() == start.blocks.len(),
                self@.blocks[entry as int].params.len() >= k,
                self@ == start.entry_params(tys@, k as nat),
            decreases tys@.len() - k,
        {
            let _ = self.append_param(entry, tys[k]);
            k = k + 1;
        }
    }

    /// Lets the phis of the entry be parameters of the function.
    #[verifier::rlimit(40)]
    fn bind_params(&mut self)
        requires
            old(self)@.wf(),
            old(self)@.ir.has_block(old(self)@.ir.entry),
            (old(self)@.ir.entry.0 as int) < old(self)@.blocks.len(),
            params_below(
                old(self)@.ir,
                old(self)@.ir.at(old(self)@.ir.entry).phis@.len(),
            ).len() <= old(self)@.blocks[old(self)@.ir.entry.0 as int].params.len(),
        ensures
            final(self)@ == old(self)@.bind_params(
                old(self)@.ir.at(old(self)@.ir.entry).phis@.len(),
            ),
            final(self)@.wf(),
            keeps(old(self)@, final(self)@),
    {
        let ghost start = self@;
        let ir: &'a FuncIr = self.ir;
        let entry: usize = ir.entry.0 as usize;
        let phis = &ir.blocks[entry].phis;
        let ghost n = phis@.len();
        let mut c: usize = 0;
        let mut k: usize = 0;
        while k < phis.len()
            invariant
                start == old(self)@,
                *ir == start.ir,
                entry == ir.entry.0,
                n == phis@.len(),
                self@.wf(),
                keeps(start, self@),
                self@.blocks == start.blocks,
                (entry as int) < start.blocks.len(),
                entry < ir.blocks@.len(),
                *phis == ir.at(ir.entry).phis,
                params_below(*ir, n).len() <= start.blocks[entry as int].params.len(),
                k <= phis@.len(),
                c == params_below(*ir, k as nat).len(),
                self@ == start.bind_params(k as nat),
            decreases phis@.len() - k,
        {
            proof {
                lemma_params_grow(*ir, (k + 1) as nat, n);
                assert(self@.blocks[entry as int] == self.blocks@[entry as int]@);
                assert(self@.blocks[entry as int].params == self.blocks@[entry as int].params@);
            }
            let ghost total = self.blocks@[entry as int].params@.len();
            let room: usize = self.blocks[entry].params.len();
            let ty = phi_ty(ir, &phis[k]);
            match ty {
                Ty::Array(_) => {
                    proof {
                        assert(self@.has(self@.blocks[entry as int].params[c as int]));
                        assert(self@.has(self@.blocks[entry as int].params[c + 1]));
                    }
                    let data = self.blocks[entry].params[c];
                    let len = self.blocks[entry].params[c + 1];
                    self.bind_array(phis[k].var, FatPtr { data, len });
                    c = c + 2;
                },
                _ => {
                    proof {
                        assert(self@.has(self@.blocks[entry as int].params[c as int]));
                    }
                    let x = self.blocks[entry].params[c];
                    self.bind(phis[k].dst, x);
                    c = c + 1;
                },
            }
            k = k + 1;
        }
    }

    /// Gives every local that nothing defines a zero.
    fn zero_locals(&mut self)
        requires
            old(self)@.wf(),
            old(self)@.ir.n_locals <= u32::MAX,
        ensures
            final(self)@ == old(self)@.zero_locals(old(self)@.ir.n_locals as nat),
            final(self)@.wf(),
            keeps(old(self)@, final(self)@),
            final(self)@.blocks.len() == old(self)@.blocks.len(),
    {
        let ghost start = self@;
        let ir: &'a FuncIr = self.ir;
        let mut l: usize = 0;
        while l < ir.n_locals
            invariant
                start == old(self)@,
                *ir == start.ir,
                self@.wf(),
                keeps(start, self@),
                self@.blocks.len() == start.blocks.len(),
                l <= ir.n_locals,
                ir.n_locals <= u32::MAX,
                self@ == start.zero_locals(l as nat),
            decreases ir.n_locals - l,
        {
            let v = ValueId(l as u32);
            if l < ir.types.val_tys.len() && !is_defined(ir, v) {
                let t = clif_ty(ir.types.val_tys[l]);
                let z = self.zero(t);
                self.bind(v, z);
            }
            l = l + 1;
        }
    }

    /// Ends the block that reports errors, where there is one.
    fn finish(&mut self, results: &Vec<ClifTy>) -> (r: Result<(), String>)
        requires
            old(self)@.wf(),
        ensures
            agrees(r, final(self)@, old(self)@.finish(results@)),
            final(self)@.wf(),
    {
        if let Some(b) = self.panic {
            self.switch_to(b);
            let f: usize = match self.import_in_func("helix_panic") {
                Ok(f) => f,
                Err(m) => {
                    return Err(m);
                },
            };
            proof {
                assert(self@.blocks[b as int] == self.blocks@[b as int]@);
                assert(self@.blocks[b as int].params == self.blocks@[b as int].params@);
            }
            let p = &self.blocks[b].params;
            let args: Vec<Val> = vec![p[0], p[1], p[2]];
            proof {
                let q = self@.blocks[b as int].params;
                assert(args@ =~= seq![q[0], q[1], q[2]]);
            }
            let _ = self.call(f, args);
            self.return_zeros(results);
        }
        Ok(())
    }
}

/// More parameters take more room.
proof fn lemma_params_grow(ir: FuncIr, k: nat, n: nat)
    requires
        k <= n,
    ensures
        params_below(ir, k).len() <= params_below(ir, n).len(),
    decreases n,
{
    if k < n {
        lemma_params_grow(ir, k, (n - 1) as nat);
    }
}

/// The function is what the lowering came to.
pub open spec fn is_clif(f: ClifFunc, entry: BlockId, sig: SigV, low: Low) -> bool {
    &&& f.sig@ == sig
    &&& f.tys@ == low.tys
    &&& clif_views(f.blocks@) == low.blocks
    &&& f.imports@ == low.imports
    &&& f.entry == entry.0
}

/// The result is the function that is stated, or the error that is stated.
pub open spec fn is_lowered(
    r: Result<ClifFunc, String>,
    entry: BlockId,
    sig: SigV,
    want: Result<Low, Seq<char>>,
) -> bool {
    match want {
        Ok(low) => r matches Ok(f) && is_clif(f, entry, sig, low),
        Err(m) => r matches Err(s) && s@ == m,
    }
}

/// The function can be lowered: its entry comes first, every edge supplies every phi,
/// and locals are numbered.
pub open spec fn lowerable(ir: FuncIr) -> bool {
    &&& ir.wf()
    &&& ir.entry == BlockId(0)
    &&& edges_fed(ir)
    &&& ir.n_locals <= u32::MAX
}

/// Whether every edge from `a` supplies every phi of its target, and targets exist.
fn edges_from_fed(ir: &FuncIr, a: BlockId) -> (r: bool)
    requires
        ir.has_block(a),
    ensures
        r == fed_from(*ir, a),
{
    let targets = successors(&ir.block(a).term);
    let n: usize = ir.blocks.len();
    let mut i: usize = 0;
    while i < targets.len()
        invariant
            ir.has_block(a),
            n == ir.blocks@.len(),
            targets@ == ir.at(a).term.targets(),
            i <= targets@.len(),
            forall|j: int| 0 <= j < i ==> #[trigger] edge_fed(*ir, a, targets@[j]),
        decreases targets@.len() - i,
    {
        let b = targets[i];
        if b.0 as usize >= n {
            assert(!edge_fed(*ir, a, targets@[i as int]));
            return false;
        }
        let count: usize = ir.block(b).phis.len();
        let mut k: usize = 0;
        while k < count
            invariant
                ir.has_block(a),
                ir.has_block(b),
                targets@ == ir.at(a).term.targets(),
                i < targets@.len(),
                b == targets@[i as int],
                count == ir.at(b).phis@.len(),
                k <= count,
                forall|j: int| 0 <= j < k ==> #[trigger] edge_arg(*ir, a, b, j) is Some,
            decreases count - k,
        {
            if find_edge_arg(ir, a, b, k).is_none() {
                assert(edge_arg(*ir, a, b, k as int) is None);
                assert(!edge_fed(*ir, a, targets@[i as int]));
                return false;
            }
            k = k + 1;
        }
        i = i + 1;
    }
    true
}

/// The edge from `a` goes to a block and supplies every phi of it.
spec fn edge_fed(ir: FuncIr, a: BlockId, b: BlockId) -> bool {
    ir.has_block(b) && forall|k: int|
        0 <= k < ir.at(b).phis@.len() ==> #[trigger] edge_arg(ir, a, b, k) is Some
}

/// Every edge from `a` goes to a block and supplies every phi of it.
spec fn fed_from(ir: FuncIr, a: BlockId) -> bool {
    forall|i: int|
        0 <= i < ir.at(a).term.targets().len() ==> #[trigger] edge_fed(
            ir,
            a,
            ir.at(a).term.targets()[i],
        )
}

/// Whether a function can be lowered.
#[verifier::rlimit(40)]
pub fn can_lower(ir: &FuncIr) -> (r: bool)
    ensures
        r == lowerable(*ir),
{
    let n: usize = ir.blocks.len();
    if n > 0xffff_ffff || ir.entry.0 as usize >= n || ir.entry.0 != 0 || ir.n_locals
        > 0xffff_ffff {
        return false;
    }
    let mut a: usize = 0;
    while a < n
        invariant
            n == ir.blocks@.len(),
            n <= u32::MAX,
            a <= n,
            forall|c: BlockId| c.0 < a ==> #[trigger] fed_from(*ir, c),
        decreases n - a,
    {
        let me = BlockId(a as u32);
        if !edges_from_fed(ir, me) {
            proof {
                let i = choose|i: int|
                    0 <= i < ir.at(me).term.targets().len() && !edge_fed(
                        *ir,
                        me,
                        #[trigger] ir.at(me).term.targets()[i],
                    );
                let b = ir.at(me).term.targets()[i];
                if lowerable(*ir) {
                    assert(ir.has_block(b));
                    assert(ir.edge(me, b));
                    assert(edge_fed(*ir, me, b));
                }
            }
            return false;
        }
        a = a + 1;
    }
    proof {
        assert forall|c: BlockId, k: int|
            ir.has_block(c) && 0 <= k < ir.at(c).term.targets().len() implies ir.has_block(
            #[trigger] ir.at(c).term.targets()[k],
        ) by {
            assert(fed_from(*ir, c));
            assert(edge_fed(*ir, c, ir.at(c).term.targets()[k]));
        }
        assert forall|c: BlockId, b: BlockId, k: int|
            ir.edge(c, b) && 0 <= k < ir.at(b).phis@.len() implies #[trigger] edge_arg(
            *ir,
            c,
            b,
            k,
        ) is Some by {
            assert(fed_from(*ir, c));
            let i = choose|i: int|
                0 <= i < ir.at(c).term.targets().len() && ir.at(c).term.targets()[i] == b;
            assert(edge_fed(*ir, c, ir.at(c).term.targets()[i]));
        }
    }
    true
}

/// A copy of a list of types.
fn copy_tys(v: &Vec<ClifTy>) -> (r: Vec<ClifTy>)
    ensures
        r@ == v@,
{
    let mut out: Vec<ClifTy> = Vec::new();
    let mut k: usize = 0;
    while k < v.len()
        invariant
            k <= v@.len(),
            out@ == v@.take(k as int),
        decreases v@.len() - k,
    {
        out.push(v[k]);
        k = k + 1;
        assert(v@.take(k as int) =~= v@.take(k - 1).push(v@[k - 1]));
    }
    assert(v@.take(k as int) =~= v@);
    out
}

/// Blocks with nothing in them.
fn blank_blocks(n: usize) -> (r: Vec<ClifBlock>)
    ensures
        clif_views(r@) == Seq::new(
            n as nat,
            |i: int| ClifBlockV { params: seq![], insts: seq![] },
        ),
{
    let ghost one = ClifBlockV { params: Seq::<Val>::empty(), insts: Seq::<ClifInstV>::empty() };
    let mut out: Vec<ClifBlock> = Vec::new();
    let mut k: usize = 0;
    while k < n
        invariant
            k <= n,
            out@.len() == k,
            one == (ClifBlockV { params: seq![], insts: seq![] }),
            forall|i: int| 0 <= i < k ==> (#[trigger] out@[i])@ == one,
        decreases n - k,
    {
        let block = ClifBlock { params: Vec::new(), insts: Vec::new() };
        assert(block@ =~= one);
        out.push(block);
        k = k + 1;
    }
    proof {
        assert(clif_views(out@) =~= Seq::new(
            n as nat,
            |i: int| ClifBlockV { params: seq![], insts: seq![] },
        ));
    }
    out
}

/// Every block but the entry has a parameter for every phi.
spec fn params_cover(low: Low) -> bool {
    &&& low.ir.blocks@.len() <= low.blocks.len()
    &&& forall|i: int|
        #![trigger low.blocks[i]]
        0 < i < low.ir.blocks@.len() ==> low.blocks[i].params.len()
            >= low.ir.blocks@[i].phis@.len()
}

/// What covers the phis goes on to do so.
proof fn lemma_still_covered(a: Low, b: Low)
    requires
        keeps(a, b),
        params_cover(a),
    ensures
        params_cover(b),
{
    assert forall|i: int|
        #![trigger b.blocks[i]]
        0 < i < b.ir.blocks@.len() implies b.blocks[i].params.len()
            >= b.ir.blocks@[i].phis@.len() by {
        assert(a.blocks[i].params.len() >= a.ir.blocks@[i].phis@.len());
    }
}

/// A lowering with the parameters of all blocks.
#[verifier::rlimit(40)]
fn with_phi_params<'a>(
    ir: &'a FuncIr,
    unchecked: bool,
    callees: &'a Vec<Callee>,
    prebind: &'a Vec<(LocalId, ValueId, ValueId)>,
) -> (r: Lowering<'a>)
    requires
        lowerable(*ir),
    ensures
        r@ == blank(*ir, unchecked, callee_views(callees@), prebind@).all_phi_params(ir.blocks@.len()),
        r@.wf(),
        r@.ir == *ir,
        params_cover(r@),
{
    let n: usize = ir.blocks.len();
    let mut low = Lowering {
        ir,
        unchecked,
        callees,
        tys: Vec::new(),
        blocks: blank_blocks(n),
        cur: 0,
        imports: Vec::new(),
        vals: HashMap::new(),
        arrays: HashMap::new(),
        panic: None,
        repairs: HashMap::new(),
        prebind,
    };
    let ghost start = low@;
    proof {
        assert(start =~= blank(*ir, unchecked, callee_views(callees@), prebind@));
    }
    let mut b: usize = 0;
    while b < n
        invariant
            lowerable(*ir),
            n == ir.blocks@.len(),
            b <= n,
            low@.wf(),
            low@.ir == *ir,
            low@.blocks.len() == n,
            forall|i: int|
                #![trigger low@.blocks[i]]
                0 < i < b ==> low@.blocks[i].params.len() >= ir.blocks@[i].phis@.len(),
            low@ == start.all_phi_params(b as nat),
            start.ir == *ir,
        decreases n - b,
    {
        let ghost before = low@;
        if b != ir.entry.0 as usize {
            low.phi_params(b);
            proof {
                assert forall|i: int|
                    #![trigger low@.blocks[i]]
                    0 < i < b + 1 implies low@.blocks[i].params.len()
                        >= ir.blocks@[i].phis@.len() by {
                    assert(before.blocks[i].params.len() <= low@.blocks[i].params.len());
                }
            }
        }
        b = b + 1;
    }
    low
}

/// A lowering that is ready for the first block.
fn open_function<'a>(
    ir: &'a FuncIr,
    unchecked: bool,
    callees: &'a Vec<Callee>,
    prebind: &'a Vec<(LocalId, ValueId, ValueId)>,
    params: &Vec<ClifTy>,
) -> (r: Result<Lowering<'a>, String>)
    requires
        lowerable(*ir),
        params_below(*ir, ir.at(ir.entry).phis@.len()).len() <= params@.len(),
    ensures
        match opened(*ir, unchecked, callee_views(callees@), prebind@, params@) {
            Ok(low) => r matches Ok(l) && l@ == low && l@.wf() && l@.ir == *ir && params_cover(l@),
            Err(m) => r matches Err(s) && s@ == m,
        },
{
    let mut low = with_phi_params(ir, unchecked, callees, prebind);
    let ghost s0 = low@;
    match low.import_in_func("helix_panic") {
        Ok(_) => {},
        Err(m) => {
            return Err(m);
        },
    }
    low.switch_to(ir.entry.0 as usize);
    let ghost s1 = low@;
    low.entry_params(params);
    let ghost s2 = low@;
    low.bind_params();
    let ghost s3 = low@;
    low.zero_locals();
    proof {
        lemma_still_covered(s0, s1);
        lemma_still_covered(s1, s2);
        lemma_still_covered(s2, s3);
        lemma_still_covered(s3, low@);
    }
    Ok(low)
}

/// Lowers a function.
#[verifier::rlimit(40)]
fn lower_with(
    ir: &FuncIr,
    unchecked: bool,
    callees: &Vec<Callee>,
    sig: Sig,
    hook: Option<&RtHook>,
    pre: &Vec<(LocalId, ValueId, ValueId)>,
) -> (r: Result<ClifFunc, String>)
    requires
        lowerable(*ir),
        params_below(*ir, ir.at(ir.entry).phis@.len()).len() <= sig@.params.len(),
        hook matches Some(h) ==> hook_fits(*ir, h@) && h.arrays@.len() <= i64::MAX,
    ensures
        is_lowered(
            r,
            ir.entry,
            sig@,
            lowered(
                *ir,
                unchecked,
                callee_views(callees@),
                pre@,
                sig@,
                setting(*ir, plain(hook), sig@.returns),
            ),
        ),
{
    let su = collect_self_uses(ir);
    let region = region_blocks(ir, hook);
    let results = copy_tys(&sig.returns);
    let ghost st = setting(*ir, plain(hook), sig@.returns);
    let n: usize = ir.blocks.len();
    let mut low = match open_function(ir, unchecked, callees, pre, &sig.params) {
        Ok(low) => low,
        Err(m) => {
            return Err(m);
        },
    };
    let ghost start = low@;
    let mut b: usize = 0;
    while b < n
        invariant
            lowerable(*ir),
            n == ir.blocks@.len(),
            b <= n,
            low@.wf(),
            low@.ir == *ir,
            start.ir == *ir,
            params_cover(low@),
            hook matches Some(h) ==> hook_fits(*ir, h@) && h.arrays@.len() <= i64::MAX,
            forall|b: BlockId|
                #![trigger orphaned(*ir, plain(hook), b)]
                orphaned(*ir, plain(hook), b) <==> (hook matches Some(h) && b != h.header
                    && region@.contains(b)),
            st == setting(*ir, plain(hook), sig@.returns),
            su@ == self_uses(*ir),
            results@ == sig@.returns,
            start.all_blocks(st, b as nat) == Ok::<Low, Seq<char>>(low@),
            opened(*ir, unchecked, callee_views(callees@), pre@, sig@.params) == Ok::<Low, Seq<char>>(
                start,
            ),
        decreases n - b,
    {
        let ghost before = low@;
        proof {
            assert(b > 0 ==> low@.blocks[b as int].params.len() >= ir.blocks@[b as int].phis@.len());
        }
        match low.translate_block(&su, hook, &region, &results, b) {
            Ok(_) => {},
            Err(m) => {
                proof {
                    lemma_blocks_stop(start, st, (b + 1) as nat, n as nat);
                }
                return Err(m);
            },
        }
        proof {
            lemma_still_covered(before, low@);
        }
        b = b + 1;
    }
    match low.finish(&results) {
        Ok(_) => {},
        Err(m) => {
            return Err(m);
        },
    }
    Ok(
        ClifFunc {
            sig,
            tys: low.tys,
            blocks: low.blocks,
            imports: low.imports,
            entry: ir.entry.0 as usize,
        },
    )
}

/// A block that fails ends the list.
proof fn lemma_blocks_stop(low: Low, st: Setting, k: nat, n: nat)
    requires
        k <= n,
        low.all_blocks(st, k) is Err,
    ensures
        low.all_blocks(st, n) == low.all_blocks(st, k),
    decreases n,
{
    if k < n {
        lemma_blocks_stop(low, st, k, (n - 1) as nat);
    }
}

/// What a function is lowered with.
pub open spec fn setting(ir: FuncIr, hook: Option<HookV>, results: Seq<ClifTy>) -> Setting {
    Setting { self_uses: self_uses(ir), hook, results }
}

/// Lowers a function whose loops all run sequentially.
pub fn translate_fn(ir: &FuncIr, unchecked: bool, callees: &Vec<Callee>) -> (r: Result<
    ClifFunc,
    String,
>)
    requires
        lowerable(*ir),
    ensures
        is_lowered(
            r,
            ir.entry,
            sig_of(*ir),
            lowered(
                *ir,
                unchecked,
                callee_views(callees@),
                seq![],
                sig_of(*ir),
                setting(*ir, None, sig_of(*ir).returns),
            ),
        ),
{
    let pre: Vec<(LocalId, ValueId, ValueId)> = Vec::new();
    assert(pre@ =~= seq![]);
    lower_with(ir, unchecked, callees, signature_of(ir), None, &pre)
}

/// Lowers a function, one of whose loops may be handed to the host.
pub fn translate_fn_rt(
    ir: &FuncIr,
    unchecked: bool,
    callees: &Vec<Callee>,
    hook: Option<&RtHook>,
) -> (r: Result<ClifFunc, String>)
    requires
        lowerable(*ir),
        hook matches Some(h) ==> hook_fits(*ir, h@) && h.arrays@.len() <= i64::MAX,
    ensures
        is_lowered(
            r,
            ir.entry,
            sig_of(*ir),
            lowered(
                *ir,
                unchecked,
                callee_views(callees@),
                seq![],
                sig_of(*ir),
                setting(*ir, plain(hook), sig_of(*ir).returns),
            ),
        ),
{
    let pre: Vec<(LocalId, ValueId, ValueId)> = Vec::new();
    assert(pre@ =~= seq![]);
    lower_with(ir, unchecked, callees, signature_of(ir), hook, &pre)
}

/// Lowers the body of a region: its arrays are the pairs that its entry loads.
pub fn translate_body_fn(
    ir: &FuncIr,
    unchecked: bool,
    callees: &Vec<Callee>,
    prebind: &Vec<(LocalId, ValueId, ValueId)>,
) -> (r: Result<ClifFunc, String>)
    requires
        lowerable(*ir),
        params_below(*ir, ir.at(ir.entry).phis@.len()).len() <= 2,
    ensures
        is_lowered(
            r,
            ir.entry,
            body_sig(),
            lowered(
                *ir,
                unchecked,
                callee_views(callees@),
                prebind@,
                body_sig(),
                setting(*ir, None, seq![]),
            ),
        ),
{
    let sig = body_signature();
    lower_with(ir, unchecked, callees, sig, None, prebind)
}

} // verus!
