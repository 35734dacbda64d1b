//! The SSA intermediate representation that analysis and lowering read.
//!
//! A function is a list of basic blocks. Every block starts with its phis, runs
//! its instructions and ends in a terminator. Values, blocks and locals are
//! numbered; side tables hold their types and source names.
use vstd::prelude::*;

use crate::search::{any_where, first_where, lemma_first_where_is, lemma_first_where_none};

verus! {

/// A basic block, by its position in the function.
#[derive(Clone, Copy, Debug, PartialEq, Eq, PartialOrd, Ord, Hash, Structural)]
pub struct BlockId(pub u32);

/// An SSA value.
#[derive(Clone, Copy, Debug, PartialEq, Eq, PartialOrd, Ord, Hash, Structural)]
pub struct ValueId(pub u32);

/// A source-level local or a compiler temporary.
#[derive(Clone, Copy, Debug, PartialEq, Eq, PartialOrd, Ord, Hash, Structural)]
pub struct LocalId(pub u32);

/// Element type of an array.
#[derive(Clone, Copy, Debug, PartialEq, Eq, Structural)]
pub enum ElemTy {
    I32,
    I64,
    F32,
    F64,
    Bool,
}

/// Type of a value or a local.
#[derive(Clone, Copy, Debug, PartialEq, Eq, Structural)]
pub enum Ty {
    I32,
    I64,
    F32,
    F64,
    Bool,
    Unit,
    Array(ElemTy),
}

/// Binary operators.
#[derive(Clone, Copy, Debug, PartialEq, Eq, Structural)]
pub enum BinOp {
    Add,
    Sub,
    Mul,
    Div,
    Rem,
    Lt,
    Le,
    Gt,
    Ge,
    Eq,
    Ne,
    And,
    Or,
}

/// Unary operators.
#[derive(Clone, Copy, Debug, PartialEq, Eq, Structural)]
pub enum UnOp {
    Neg,
    Not,
}

/// A literal. Floating-point literals are held as their bit patterns.
#[derive(Clone, Copy, Debug, PartialEq, Eq, Structural)]
pub enum Constant {
    I64(i64),
    I32(i32),
    F32(u32),
    F64(u64),
    Bool(bool),
}

/// `dst = arr[idx]`
#[derive(Clone, Copy, Debug, PartialEq, Eq, Structural)]
pub struct Load {
    pub dst: ValueId,
    pub arr: LocalId,
    pub idx: ValueId,
}

/// `dst = callee(args)`; arrays travel by local.
#[derive(Debug)]
pub struct Call {
    pub dst: Option<ValueId>,
    pub callee: String,
    pub args: Vec<ValueId>,
    pub arr_refs: Vec<LocalId>,
}

/// One instruction.
#[allow(inconsistent_fields)]
#[derive(Debug)]
pub enum Inst {
    Const { dst: ValueId, c: Constant },
    Bin { op: BinOp, dst: ValueId, a: ValueId, b: ValueId },
    Unary { op: UnOp, dst: ValueId, a: ValueId },
    Cast { dst: ValueId, val: ValueId, to: Ty },
    Load(Load),
    Store { arr: LocalId, idx: ValueId, val: ValueId },
    Call(Call),
}

/// How a block ends.
#[derive(Debug)]
pub enum Term {
    /// Continue at the block; the values feed its phis in order.
    Jump(BlockId, Vec<ValueId>),
    Branch { cond: ValueId, t: BlockId, f: BlockId },
    Return(Option<ValueId>),
}

/// `dst = phi(..)`: one value per incoming edge. A phi of the entry block has no
/// arguments and binds a parameter.
#[derive(Debug)]
pub struct Phi {
    pub dst: ValueId,
    pub var: LocalId,
    pub args: Vec<(BlockId, ValueId)>,
}

/// One basic block.
#[derive(Debug)]
pub struct BlockData {
    pub phis: Vec<Phi>,
    pub insts: Vec<Inst>,
    pub term: Term,
    /// Blocks with an edge into this one, in ascending order.
    pub preds: Vec<BlockId>,
}

/// Types and names of values and locals.
#[derive(Debug)]
pub struct TypeTables {
    pub val_tys: Vec<Ty>,
    pub local_tys: Vec<Ty>,
    pub local_names: Vec<String>,
}

/// One function.
#[derive(Debug)]
pub struct FuncIr {
    pub name: String,
    pub ret: Ty,
    pub blocks: Vec<BlockData>,
    pub entry: BlockId,
    /// Every value id is below this number.
    pub next_value: u32,
    pub n_locals: usize,
    pub n_source_locals: usize,
    pub types: TypeTables,
}

impl Constant {
    /// The integer that the literal denotes, if it is one.
    pub open spec fn int_value(self) -> Option<i64> {
        match self {
            Constant::I64(x) => Some(x),
            Constant::I32(x) => Some(x as i64),
            _ => None,
        }
    }

    /// The integer that the literal denotes, if it is one.
    pub fn as_i64(&self) -> (r: Option<i64>)
        ensures
            r == self.int_value(),
    {
        match *self {
            Constant::I64(x) => Some(x),
            Constant::I32(x) => Some(x as i64),
            _ => None,
        }
    }
}

impl Inst {
    /// The value that the instruction defines.
    pub open spec fn def(self) -> Option<ValueId> {
        match self {
            Inst::Const { dst, .. } => Some(dst),
            Inst::Bin { dst, .. } => Some(dst),
            Inst::Unary { dst, .. } => Some(dst),
            Inst::Cast { dst, .. } => Some(dst),
            Inst::Load(l) => Some(l.dst),
            Inst::Store { .. } => None,
            Inst::Call(c) => c.dst,
        }
    }

    /// The values that the instruction reads, in operand order.
    pub open spec fn reads(self) -> Seq<ValueId> {
        match self {
            Inst::Const { .. } => seq![],
            Inst::Bin { a, b, .. } => seq![a, b],
            Inst::Unary { a, .. } => seq![a],
            Inst::Cast { val, .. } => seq![val],
            Inst::Load(l) => seq![l.idx],
            Inst::Store { idx, val, .. } => seq![idx, val],
            Inst::Call(c) => c.args@,
        }
    }

    /// The value that the instruction defines.
    pub fn dst(&self) -> (r: Option<ValueId>)
        ensures
            r == self.def(),
    {
        match self {
            Inst::Const { dst, .. } => Some(*dst),
            Inst::Bin { dst, .. } => Some(*dst),
            Inst::Unary { dst, .. } => Some(*dst),
            Inst::Cast { dst, .. } => Some(*dst),
            Inst::Load(l) => Some(l.dst),
            Inst::Store { .. } => None,
            Inst::Call(c) => c.dst,
        }
    }

    /// The values that the instruction reads, in operand order.
    pub fn uses(&self) -> (r: Vec<ValueId>)
        ensures
            r@ == self.reads(),
    {
        match self {
            Inst::Const { .. } => Vec::new(),
            Inst::Bin { a, b, .. } => vec![*a, *b],
            Inst::Unary { a, .. } => vec![*a],
            Inst::Cast { val, .. } => vec![*val],
            Inst::Load(l) => vec![l.idx],
            Inst::Store { idx, val, .. } => vec![*idx, *val],
            Inst::Call(c) => copy_values(&c.args),
        }
    }
}

/// A copy of a list of values.
pub fn copy_values(v: &Vec<ValueId>) -> (r: Vec<ValueId>)
    ensures
        r@ == v@,
{
    let mut out: Vec<ValueId> = Vec::new();
    let mut k: usize = 0;
    while k < v.len()
        invariant
            k <= v@.len(),
            out@ == v@.take(k as int),
        decreases v@.len() - k,
    {
        out.push(v[k]);
        k = k + 1;
        assert(v@.take(k as int) =~= v@.take(k - 1).push(v@[k - 1]));
    }
    assert(v@.take(k as int) =~= v@);
    out
}

impl Term {
    /// The blocks that control may go to.
    pub open spec fn targets(self) -> Seq<BlockId> {
        match self {
            Term::Jump(t, _) => seq![t],
            Term::Branch { t, f, .. } => seq![t, f],
            Term::Return(_) => seq![],
        }
    }

    /// The values that the terminator hands to the phis of its target.
    pub open spec fn forwarded(self) -> Seq<ValueId> {
        match self {
            Term::Jump(_, args) => args@,
            _ => seq![],
        }
    }

    /// The values that the terminator hands to the phis of its target.
    pub fn forwarded_args(&self) -> (r: Vec<ValueId>)
        ensures
            r@ == self.forwarded(),
    {
        match self {
            Term::Jump(_, args) => copy_values(args),
            _ => Vec::new(),
        }
    }

    /// Whether control may go to `b`.
    pub fn goes_to(&self, b: BlockId) -> (r: bool)
        ensures
            r == self.targets().contains(b),
    {
        match self {
            Term::Jump(t, _) => {
                assert(self.targets()[0] == *t);
                *t == b
            },
            Term::Branch { t, f, .. } => {
                assert(self.targets()[0] == *t);
                assert(self.targets()[1] == *f);
                *t == b || *f == b
            },
            Term::Return(_) => false,
        }
    }
}

/// The instruction defines `v`.
pub open spec fn defines(v: ValueId) -> spec_fn(Inst) -> bool {
    |i: Inst| i.def() == Some(v)
}

/// The phi defines `v`.
pub open spec fn phi_defines(v: ValueId) -> spec_fn(Phi) -> bool {
    |p: Phi| p.dst == v
}

impl BlockData {
    /// An instruction of the block defines `v`.
    pub open spec fn inst_defines(self, v: ValueId) -> bool {
        any_where(self.insts@, defines(v))
    }

    /// A phi or an instruction of the block defines `v`.
    pub open spec fn defines_value(self, v: ValueId) -> bool {
        any_where(self.phis@, phi_defines(v)) || self.inst_defines(v)
    }
}

/// The block holds an instruction that defines `v`.
pub open spec fn holds_inst(v: ValueId) -> spec_fn(BlockData) -> bool {
    |b: BlockData| b.inst_defines(v)
}

/// The block defines `v`.
pub open spec fn holds_def(v: ValueId) -> spec_fn(BlockData) -> bool {
    |b: BlockData| b.defines_value(v)
}

impl FuncIr {
    /// `b` names a block of the function.
    pub open spec fn has_block(self, b: BlockId) -> bool {
        (b.0 as int) < self.blocks@.len()
    }

    /// The block that `b` names.
    pub open spec fn at(self, b: BlockId) -> BlockData {
        self.blocks@[b.0 as int]
    }

    /// Control may go from `a` to `b` directly.
    pub open spec fn edge(self, a: BlockId, b: BlockId) -> bool {
        self.has_block(a) && self.at(a).term.targets().contains(b)
    }

    /// The entry and every target of a terminator name blocks of the function, and
    /// block numbers fit their type.
    pub open spec fn wf(self) -> bool {
        &&& self.blocks@.len() <= u32::MAX
        &&& self.has_block(self.entry)
        &&& forall|a: BlockId, k: int|
            self.has_block(a) && 0 <= k < self.at(a).term.targets().len() ==> self.has_block(
                #[trigger] self.at(a).term.targets()[k],
            )
    }

    /// The instruction that defines `v`: the first one in block order.
    pub open spec fn def_inst(self, v: ValueId) -> Option<Inst> {
        match first_where(self.blocks@, holds_inst(v)) {
            Some(b) => match first_where(self.blocks@[b].insts@, defines(v)) {
                Some(k) => Some(self.blocks@[b].insts@[k]),
                None => None,
            },
            None => None,
        }
    }

    /// The block that defines `v`: the first one in block order, and the entry for a
    /// value that no block defines.
    pub open spec fn home(self, v: ValueId) -> BlockId {
        match first_where(self.blocks@, holds_def(v)) {
            Some(b) => BlockId(b as u32),
            None => self.entry,
        }
    }

    /// The integer constant that `v` is defined as.
    pub open spec fn literal(self, v: ValueId) -> Option<i64> {
        match self.def_inst(v) {
            Some(Inst::Const { c, .. }) => c.int_value(),
            _ => None,
        }
    }

    /// The type of `v`, where the table has one.
    pub open spec fn type_of(self, v: ValueId) -> Option<Ty> {
        if (v.0 as int) < self.types.val_tys@.len() {
            Some(self.types.val_tys@[v.0 as int])
        } else {
            None
        }
    }

    /// The block that `b` names.
    pub fn block(&self, b: BlockId) -> (r: &BlockData)
        requires
            self.has_block(b),
        ensures
            *r == self.at(b),
    {
        &self.blocks[b.0 as usize]
    }

    /// The blocks with an edge into `b`.
    pub fn preds(&self, b: BlockId) -> (r: &Vec<BlockId>)
        requires
            self.has_block(b),
        ensures
            *r == self.at(b).preds,
    {
        &self.blocks[b.0 as usize].preds
    }

    /// The instruction that defines `v`.
    pub fn inst_defining(&self, v: ValueId) -> (r: Option<&Inst>)
        ensures
            r == (match self.def_inst(v) {
                Some(i) => Some(&i),
                None => None,
            }),
    {
        let mut b: usize = 0;
        while b < self.blocks.len()
            invariant
                b <= self.blocks@.len(),
                forall|j: int| 0 <= j < b ==> !holds_inst(v)(#[trigger] self.blocks@[j]),
            decreases self.blocks@.len() - b,
        {
            let data = &self.blocks[b];
            let mut k: usize = 0;
            while k < data.insts.len()
                invariant
                    b < self.blocks@.len(),
                    *data == self.blocks@[b as int],
                    k <= data.insts@.len(),
                    forall|j: int| 0 <= j < b ==> !holds_inst(v)(#[trigger] self.blocks@[j]),
                    forall|j: int| 0 <= j < k ==> !defines(v)(#[trigger] data.insts@[j]),
                decreases data.insts@.len() - k,
            {
                let found = match data.insts[k].dst() {
                    Some(d) => d == v,
                    None => false,
                };
                if found {
                    proof {
                        lemma_first_where_is(data.insts@, defines(v), k as int);
                        assert(defines(v)(data.insts@[k as int]));
                        assert(holds_inst(v)(self.blocks@[b as int]));
                        lemma_first_where_is(self.blocks@, holds_inst(v), b as int);
                    }
                    return Some(&data.insts[k]);
                }
                k = k + 1;
            }
            b = b + 1;
        }
        proof {
            lemma_first_where_none(self.blocks@, holds_inst(v));
        }
        None
    }

    /// The block that defines `v`; the entry for a value that no block defines.
    pub fn def_block(&self, v: ValueId) -> (r: BlockId)
        requires
            self.wf(),
        ensures
            r == self.home(v),
            self.has_block(r),
    {
        let mut b: usize = 0;
        while b < self.blocks.len()
            invariant
                self.wf(),
                b <= self.blocks@.len(),
                forall|j: int| 0 <= j < b ==> !holds_def(v)(#[trigger] self.blocks@[j]),
            decreases self.blocks@.len() - b,
        {
            if block_defines(&self.blocks[b], v) {
                proof {
                    assert(holds_def(v)(self.blocks@[b as int]));
                    lemma_first_where_is(self.blocks@, holds_def(v), b as int);
                }
                return BlockId(b as u32);
            }
            b = b + 1;
        }
        proof {
            lemma_first_where_none(self.blocks@, holds_def(v));
        }
        self.entry
    }

    /// The integer constant that `v` is defined as.
    pub fn const_of(&self, v: ValueId) -> (r: Option<i64>)
        ensures
            r == self.literal(v),
    {
        match self.inst_defining(v) {
            Some(Inst::Const { c, .. }) => c.as_i64(),
            _ => None,
        }
    }

    /// The type of `v`, where the table has one.
    pub fn val_ty(&self, v: ValueId) -> (r: Option<Ty>)
        ensures
            r == self.type_of(v),
    {
        if (v.0 as usize) < self.types.val_tys.len() {
            Some(self.types.val_tys[v.0 as usize])
        } else {
            None
        }
    }
}

/// Whether a phi or an instruction of the block defines `v`.
pub fn block_defines(data: &BlockData, v: ValueId) -> (r: bool)
    ensures
        r == data.defines_value(v),
{
    let mut k: usize = 0;
    while k < data.phis.len()
        invariant
            k <= data.phis@.len(),
            forall|j: int| 0 <= j < k ==> !phi_defines(v)(#[trigger] data.phis@[j]),
        decreases data.phis@.len() - k,
    {
        if data.phis[k].dst == v {
            assert(phi_defines(v)(data.phis@[k as int]));
            return true;
        }
        k = k + 1;
    }
    k = 0;
    while k < data.insts.len()
        invariant
            k <= data.insts@.len(),
            forall|j: int| 0 <= j < k ==> !defines(v)(#[trigger] data.insts@[j]),
        decreases data.insts@.len() - k,
    {
        let found = match data.insts[k].dst() {
            Some(d) => d == v,
            None => false,
        };
        if found {
            assert(defines(v)(data.insts@[k as int]));
            return true;
        }
        k = k + 1;
    }
    false
}

// ---------------------------------------------------------------------------
// Views
// ---------------------------------------------------------------------------

/// An instruction as mathematical values.
#[allow(inconsistent_fields)]
pub enum InstV {
    Const { dst: ValueId, c: Constant },
    Bin { op: BinOp, dst: ValueId, a: ValueId, b: ValueId },
    Unary { op: UnOp, dst: ValueId, a: ValueId },
    Cast { dst: ValueId, val: ValueId, to: Ty },
    Load(Load),
    Store { arr: LocalId, idx: ValueId, val: ValueId },
    Call { dst: Option<ValueId>, callee: Seq<char>, args: Seq<ValueId>, arr_refs: Seq<LocalId> },
}

/// A terminator as mathematical values.
pub enum TermV {
    Jump(BlockId, Seq<ValueId>),
    Branch { cond: ValueId, t: BlockId, f: BlockId },
    Return(Option<ValueId>),
}

/// A phi as mathematical values.
pub struct PhiV {
    pub dst: ValueId,
    pub var: LocalId,
    pub args: Seq<(BlockId, ValueId)>,
}

/// A block as mathematical values.
#[verifier::ext_equal]
pub struct BlockV {
    pub phis: Seq<PhiV>,
    pub insts: Seq<InstV>,
    pub term: TermV,
}

impl View for Inst {
    type V = InstV;

    open spec fn view(&self) -> InstV {
        match *self {
            Inst::Const { dst, c } => InstV::Const { dst, c },
            Inst::Bin { op, dst, a, b } => InstV::Bin { op, dst, a, b },
            Inst::Unary { op, dst, a } => InstV::Unary { op, dst, a },
            Inst::Cast { dst, val, to } => InstV::Cast { dst, val, to },
            Inst::Load(l) => InstV::Load(l),
            Inst::Store { arr, idx, val } => InstV::Store { arr, idx, val },
            Inst::Call(c) => InstV::Call {
                dst: c.dst,
                callee: c.callee@,
                args: c.args@,
                arr_refs: c.arr_refs@,
            },
        }
    }
}

impl View for Term {
    type V = TermV;

    open spec fn view(&self) -> TermV {
        match *self {
            Term::Jump(t, args) => TermV::Jump(t, args@),
            Term::Branch { cond, t, f } => TermV::Branch { cond, t, f },
            Term::Return(v) => TermV::Return(v),
        }
    }
}

impl TermV {
    /// The blocks that control may go to.
    pub open spec fn targets(self) -> Seq<BlockId> {
        match self {
            TermV::Jump(t, _) => seq![t],
            TermV::Branch { t, f, .. } => seq![t, f],
            TermV::Return(_) => seq![],
        }
    }
}

impl View for Phi {
    type V = PhiV;

    open spec fn view(&self) -> PhiV {
        PhiV { dst: self.dst, var: self.var, args: self.args@ }
    }
}

/// Views of phis.
pub open spec fn phi_views(s: Seq<Phi>) -> Seq<PhiV> {
    s.map_values(|p: Phi| p@)
}

/// Views of instructions.
pub open spec fn inst_views(s: Seq<Inst>) -> Seq<InstV> {
    s.map_values(|i: Inst| i@)
}

impl View for BlockData {
    type V = BlockV;

    open spec fn view(&self) -> BlockV {
        BlockV { phis: phi_views(self.phis@), insts: inst_views(self.insts@), term: self.term@ }
    }
}

/// Views of blocks.
pub open spec fn block_views(s: Seq<BlockData>) -> Seq<BlockV> {
    s.map_values(|b: BlockData| b@)
}

// ---------------------------------------------------------------------------
// Building
// ---------------------------------------------------------------------------

/// The lists of predecessors hold exactly the sources of edges, ascending.
pub open spec fn preds_below(f: FuncIr, b: BlockId, k: nat) -> Seq<BlockId>
    decreases k,
{
    if k == 0 {
        seq![]
    } else {
        let a = BlockId((k - 1) as u32);
        let before = preds_below(f, b, (k - 1) as nat);
        if f.at(a).term.targets().contains(b) {
            before.push(a)
        } else {
            before
        }
    }
}

impl FuncIr {
    /// The lists of predecessors are up to date.
    pub open spec fn edges_current(self) -> bool {
        forall|b: BlockId| #[trigger]
            self.has_block(b) ==> self.at(b).preds@ == preds_below(self, b, self.blocks@.len())
    }

    /// A function with an empty entry block that returns.
    pub fn new(name: &str, ret: Ty, n_source_locals: usize) -> (r: FuncIr)
        ensures
            r.name@ == name@,
            r.ret == ret,
            block_views(r.blocks@) == seq![
                BlockV { phis: seq![], insts: seq![], term: TermV::Return(None) },
            ],
            r.blocks@[0].preds@.len() == 0,
            r.entry == BlockId(0),
            r.next_value == 0,
            r.n_locals == n_source_locals,
            r.n_source_locals == n_source_locals,
            r.types.val_tys@.len() == 0,
            r.types.local_tys@.len() == 0,
            r.types.local_names@.len() == 0,
            r.wf(),
    {
        let entry = BlockData {
            phis: Vec::new(),
            insts: Vec::new(),
            term: Term::Return(None),
            preds: Vec::new(),
        };
        let f = FuncIr {
            name: name.to_owned(),
            ret,
            blocks: vec![entry],
            entry: BlockId(0),
            next_value: 0,
            n_locals: n_source_locals,
            n_source_locals,
            types: TypeTables {
                val_tys: Vec::new(),
                local_tys: Vec::new(),
                local_names: Vec::new(),
            },
        };
        proof {
            assert(f.blocks@[0].phis@ =~= seq![]);
            assert(f.blocks@[0].insts@ =~= seq![]);
            assert(phi_views(f.blocks@[0].phis@) =~= seq![]);
            assert(inst_views(f.blocks@[0].insts@) =~= seq![]);
            assert(block_views(f.blocks@) =~= seq![
                BlockV { phis: seq![], insts: seq![], term: TermV::Return(None) },
            ]);
        }
        f
    }

    /// Gives a local its type and name; locals are declared in order.
    pub fn declare_local(&mut self, l: LocalId, ty: Ty, name: &str)
        requires
            old(self).types.local_tys@.len() == l.0,
            old(self).types.local_names@.len() == l.0,
        ensures
            final(self).types.local_tys@ == old(self).types.local_tys@.push(ty),
            final(self).types.local_names@.len() == l.0 + 1,
            final(self).types.local_names@[l.0 as int]@ == name@,
            forall|i: int|
                0 <= i < l.0 ==> #[trigger] final(self).types.local_names@[i] == old(
                    self,
                ).types.local_names@[i],
            final(self).types.val_tys == old(self).types.val_tys,
            final(self).blocks == old(self).blocks,
            final(self).entry == old(self).entry,
            final(self).name == old(self).name,
            final(self).ret == old(self).ret,
            final(self).next_value == old(self).next_value,
            final(self).n_locals == old(self).n_locals,
            final(self).n_source_locals == old(self).n_source_locals,
    {
        self.types.local_tys.push(ty);
        self.types.local_names.push(name.to_owned());
    }

    /// Appends an empty block that returns.
    pub fn new_block(&mut self) -> (r: BlockId)
        requires
            old(self).blocks@.len() < u32::MAX,
        ensures
            r.0 == old(self).blocks@.len(),
            final(self).blocks@.len() == old(self).blocks@.len() + 1,
            final(self).blocks@[r.0 as int]@ == (BlockV {
                phis: seq![],
                insts: seq![],
                term: TermV::Return(None),
            }),
            final(self).blocks@[r.0 as int].preds@.len() == 0,
            forall|i: int|
                0 <= i < old(self).blocks@.len() ==> #[trigger] final(self).blocks@[i] == old(
                    self,
                ).blocks@[i],
            final(self).entry == old(self).entry,
            final(self).types == old(self).types,
            final(self).name == old(self).name,
            final(self).ret == old(self).ret,
            final(self).next_value == old(self).next_value,
            final(self).n_locals == old(self).n_locals,
            final(self).n_source_locals == old(self).n_source_locals,
    {
        let id: u32 = self.blocks.len() as u32;
        let data = BlockData {
            phis: Vec::new(),
            insts: Vec::new(),
            term: Term::Return(None),
            preds: Vec::new(),
        };
        proof {
            assert(phi_views(data.phis@) =~= seq![]);
            assert(inst_views(data.insts@) =~= seq![]);
        }
        self.blocks.push(data);
        BlockId(id)
    }

    /// The block that `b` names, to be changed.
    pub fn block_mut(&mut self, b: BlockId) -> (r: &mut BlockData)
        requires
            old(self).has_block(b),
        ensures
            *r == old(self).at(b),
            final(self).blocks@ == old(self).blocks@.update(b.0 as int, *final(r)),
            final(self).entry == old(self).entry,
            final(self).types == old(self).types,
            final(self).name == old(self).name,
            final(self).ret == old(self).ret,
            final(self).next_value == old(self).next_value,
            final(self).n_locals == old(self).n_locals,
            final(self).n_source_locals == old(self).n_source_locals,
    {
        &mut self.blocks[b.0 as usize]
    }

    /// Replaces the terminator of a block.
    pub fn set_term(&mut self, b: BlockId, term: Term)
        requires
            old(self).has_block(b),
        ensures
            final(self).blocks@.len() == old(self).blocks@.len(),
            final(self).at(b).term == term,
            final(self).at(b).phis == old(self).at(b).phis,
            final(self).at(b).insts == old(self).at(b).insts,
            final(self).at(b).preds == old(self).at(b).preds,
            forall|i: int|
                0 <= i < old(self).blocks@.len() && i != b.0 ==> #[trigger] final(self).blocks@[i]
                    == old(self).blocks@[i],
            final(self).entry == old(self).entry,
            final(self).types == old(self).types,
            final(self).name == old(self).name,
            final(self).ret == old(self).ret,
            final(self).next_value == old(self).next_value,
            final(self).n_locals == old(self).n_locals,
            final(self).n_source_locals == old(self).n_source_locals,
    {
        self.blocks[b.0 as usize].term = term;
    }

    /// The blocks with an edge into `b`, ascending.
    fn compute_preds(&self, b: BlockId) -> (r: Vec<BlockId>)
        requires
            self.blocks@.len() <= u32::MAX,
        ensures
            r@ == preds_below(*self, b, self.blocks@.len()),
    {
        let mut out: Vec<BlockId> = Vec::new();
        let mut k: usize = 0;
        while k < self.blocks.len()
            invariant
                self.blocks@.len() <= u32::MAX,
                k <= self.blocks@.len(),
                out@ == preds_below(*self, b, k as nat),
            decreases self.blocks@.len() - k,
        {
            if self.blocks[k].term.goes_to(b) {
                out.push(BlockId(k as u32));
            }
            k = k + 1;
        }
        out
    }

    /// Brings the lists of predecessors up to date.
    pub fn recompute_edges(&mut self)
        requires
            old(self).blocks@.len() <= u32::MAX,
        ensures
            final(self).edges_current(),
            block_views(final(self).blocks@) == block_views(old(self).blocks@),
            final(self).entry == old(self).entry,
            final(self).types == old(self).types,
            final(self).name == old(self).name,
            final(self).ret == old(self).ret,
            final(self).next_value == old(self).next_value,
            final(self).n_locals == old(self).n_locals,
            final(self).n_source_locals == old(self).n_source_locals,
    {
        let ghost start = *self;
        let mut k: usize = 0;
        while k < self.blocks.len()
            invariant
                start.blocks@.len() == self.blocks@.len(),
                start.blocks@.len() <= u32::MAX,
                k <= self.blocks@.len(),
                forall|i: int|
                    0 <= i < self.blocks@.len() ==> (#[trigger] self.blocks@[i]).phis
                        == start.blocks@[i].phis && self.blocks@[i].insts == start.blocks@[i].insts
                        && self.blocks@[i].term == start.blocks@[i].term,
                forall|i: int|
                    0 <= i < k ==> (#[trigger] self.blocks@[i]).preds@ == preds_below(
                        start,
                        BlockId(i as u32),
                        start.blocks@.len(),
                    ),
                self.entry == start.entry,
                self.types == start.types,
                self.name == start.name,
                self.ret == start.ret,
                self.next_value == start.next_value,
                self.n_locals == start.n_locals,
                self.n_source_locals == start.n_source_locals,
            decreases self.blocks@.len() - k,
        {
            let b = BlockId(k as u32);
            let preds = self.compute_preds(b);
            proof {
                lemma_preds_same(*self, start, b, start.blocks@.len());
            }
            self.blocks[k].preds = preds;
            k = k + 1;
        }
        proof {
            assert forall|b: BlockId| #[trigger] self.has_block(b) implies self.at(b).preds@
                == preds_below(*self, b, self.blocks@.len()) by {
                lemma_preds_same(*self, start, b, start.blocks@.len());
                assert(BlockId(b.0 as int as u32) == b);
                assert(self.blocks@[b.0 as int].preds@ == preds_below(
                    start,
                    BlockId(b.0 as int as u32),
                    start.blocks@.len(),
                ));
            }
            assert(block_views(self.blocks@) =~= block_views(start.blocks@)) by {
                assert forall|i: int| 0 <= i < self.blocks@.len() implies (
                #[trigger] self.blocks@[i])@ == start.blocks@[i]@ by {}
            }
        }
    }
}

/// Predecessors depend on terminators alone.
proof fn lemma_preds_same(f: FuncIr, g: FuncIr, b: BlockId, k: nat)
    requires
        f.blocks@.len() == g.blocks@.len(),
        k <= f.blocks@.len() <= u32::MAX,
        forall|i: int|
            0 <= i < f.blocks@.len() ==> (#[trigger] f.blocks@[i]).term == g.blocks@[i].term,
    ensures
        preds_below(f, b, k) == preds_below(g, b, k),
    decreases k,
{
    if k > 0 {
        lemma_preds_same(f, g, b, (k - 1) as nat);
        let a = BlockId((k - 1) as u32);
        assert(f.at(a).term == f.blocks@[k - 1].term);
        assert(g.at(a).term == g.blocks@[k - 1].term);
    }
}

impl TypeTables {
    /// The type of a local.
    pub open spec fn local_type(self, l: LocalId) -> Option<Ty> {
        if (l.0 as int) < self.local_tys@.len() {
            Some(self.local_tys@[l.0 as int])
        } else {
            None
        }
    }

    /// The element type of an array local.
    pub open spec fn element_type(self, l: LocalId) -> Option<ElemTy> {
        match self.local_type(l) {
            Some(Ty::Array(e)) => Some(e),
            _ => None,
        }
    }

    /// The type of a local.
    pub fn local_ty(&self, l: LocalId) -> (r: Option<Ty>)
        ensures
            r == self.local_type(l),
    {
        if (l.0 as usize) < self.local_tys.len() {
            Some(self.local_tys[l.0 as usize])
        } else {
            None
        }
    }

    /// The element type of an array local.
    pub fn elem_ty(&self, l: LocalId) -> (r: Option<ElemTy>)
        ensures
            r == self.element_type(l),
    {
        match self.local_ty(l) {
            Some(Ty::Array(e)) => Some(e),
            _ => None,
        }
    }
}

// ---------------------------------------------------------------------------
// Value numbers in use
// ---------------------------------------------------------------------------

/// The bound, raised above `v`.
pub open spec fn above(m: nat, v: ValueId) -> nat {
    if v.0 >= m {
        (v.0 + 1) as nat
    } else {
        m
    }
}

/// The bound, raised above the first `k` values.
pub open spec fn above_all(m: nat, vs: Seq<ValueId>, k: nat) -> nat
    decreases k,
{
    if k == 0 {
        m
    } else {
        above(above_all(m, vs, (k - 1) as nat), vs[k - 1])
    }
}

/// The bound, raised above everything that an instruction defines or reads.
pub open spec fn above_inst(m: nat, i: Inst) -> nat {
    let defined = match i.def() {
        Some(d) => above(m, d),
        None => m,
    };
    above_all(defined, i.reads(), i.reads().len())
}

/// The bound, raised above the first `k` instructions.
pub open spec fn above_insts(m: nat, insts: Seq<Inst>, k: nat) -> nat
    decreases k,
{
    if k == 0 {
        m
    } else {
        above_inst(above_insts(m, insts, (k - 1) as nat), insts[k - 1])
    }
}

/// The bound, raised above the first `k` arguments of a phi.
pub open spec fn above_args(m: nat, args: Seq<(BlockId, ValueId)>, k: nat) -> nat
    decreases k,
{
    if k == 0 {
        m
    } else {
        above(above_args(m, args, (k - 1) as nat), args[k - 1].1)
    }
}

/// The bound, raised above the first `k` phis.
pub open spec fn above_phis(m: nat, phis: Seq<Phi>, k: nat) -> nat
    decreases k,
{
    if k == 0 {
        m
    } else {
        let p = phis[k - 1];
        above_args(above(above_phis(m, phis, (k - 1) as nat), p.dst), p.args@, p.args@.len())
    }
}

/// The bound, raised above what a terminator reads.
pub open spec fn above_term(m: nat, t: Term) -> nat {
    match t {
        Term::Jump(_, args) => above_all(m, args@, args@.len()),
        Term::Branch { cond, .. } => above(m, cond),
        Term::Return(v) => match v {
            Some(x) => above(m, x),
            None => m,
        },
    }
}

/// The bound, raised above the first `n` blocks.
pub open spec fn above_blocks(m: nat, blocks: Seq<BlockData>, n: nat) -> nat
    decreases n,
{
    if n == 0 {
        m
    } else {
        let d = blocks[n - 1];
        let before = above_blocks(m, blocks, (n - 1) as nat);
        above_term(
            above_insts(above_phis(before, d.phis@, d.phis@.len()), d.insts@, d.insts@.len()),
            d.term,
        )
    }
}

/// Raises a bound above `v`.
fn raise(m: u64, v: ValueId) -> (r: u64)
    requires
        m <= 0x1_0000_0000,
    ensures
        r == above(m as nat, v),
        r <= 0x1_0000_0000,
{
    if v.0 as u64 >= m {
        v.0 as u64 + 1
    } else {
        m
    }
}

/// Raises a bound above values.
fn raise_all(m: u64, vs: &Vec<ValueId>) -> (r: u64)
    requires
        m <= 0x1_0000_0000,
    ensures
        r == above_all(m as nat, vs@, vs@.len()),
        r <= 0x1_0000_0000,
{
    let mut top: u64 = m;
    let mut k: usize = 0;
    while k < vs.len()
        invariant
            k <= vs@.len(),
            top <= 0x1_0000_0000,
            top == above_all(m as nat, vs@, k as nat),
        decreases vs@.len() - k,
    {
        top = raise(top, vs[k]);
        k = k + 1;
    }
    top
}

/// Raises a bound above everything that a block mentions.
fn raise_block(m: u64, d: &BlockData) -> (r: u64)
    requires
        m <= 0x1_0000_0000,
    ensures
        r == above_term(
            above_insts(above_phis(m as nat, d.phis@, d.phis@.len()), d.insts@, d.insts@.len()),
            d.term,
        ),
        r <= 0x1_0000_0000,
{
    let mut top: u64 = m;
    let mut k: usize = 0;
    while k < d.phis.len()
        invariant
            k <= d.phis@.len(),
            top <= 0x1_0000_0000,
            top == above_phis(m as nat, d.phis@, k as nat),
        decreases d.phis@.len() - k,
    {
        let args = &d.phis[k].args;
        top = raise(top, d.phis[k].dst);
        let ghost start = top as nat;
        let mut j: usize = 0;
        while j < args.len()
            invariant
                j <= args@.len(),
                top <= 0x1_0000_0000,
                top == above_args(start, args@, j as nat),
            decreases args@.len() - j,
        {
            top = raise(top, args[j].1);
            j = j + 1;
        }
        k = k + 1;
    }
    let ghost mid = top as nat;
    k = 0;
    while k < d.insts.len()
        invariant
            k <= d.insts@.len(),
            top <= 0x1_0000_0000,
            top == above_insts(mid, d.insts@, k as nat),
        decreases d.insts@.len() - k,
    {
        if let Some(v) = d.insts[k].dst() {
            top = raise(top, v);
        }
        let uses = d.insts[k].uses();
        top = raise_all(top, &uses);
        k = k + 1;
    }
    match &d.term {
        Term::Jump(_, args) => raise_all(top, args),
        Term::Branch { cond, .. } => raise(top, *cond),
        Term::Return(v) => match v {
            Some(x) => raise(top, *x),
            None => top,
        },
    }
}

impl FuncIr {
    /// The least number from which on value numbers are free.
    pub open spec fn first_free(self) -> nat {
        above_blocks(self.next_value as nat, self.blocks@, self.blocks@.len())
    }

    /// The least number from which on value numbers are free.
    pub fn free_value(&self) -> (r: u64)
        ensures
            r == self.first_free(),
            r <= 0x1_0000_0000,
    {
        let mut top: u64 = self.next_value as u64;
        let mut n: usize = 0;
        while n < self.blocks.len()
            invariant
                n <= self.blocks@.len(),
                top <= 0x1_0000_0000,
                top == above_blocks(self.next_value as nat, self.blocks@, n as nat),
            decreases self.blocks@.len() - n,
        {
            top = raise_block(top, &self.blocks[n]);
            n = n + 1;
        }
        top
    }
}

} // verus!
