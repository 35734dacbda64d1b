//! Machine-level functions as plain data: types, signatures, blocks, instructions.
//!
//! Values are numbered in the order in which they come into being: one for every
//! parameter of a block, one for every result of an instruction. Blocks take
//! arguments for their parameters from every edge that enters them.
use vstd::prelude::*;

use crate::ir::{BinOp, ElemTy, FuncIr, Phi, Ty};
use crate::text::is_text;

verus! {

/// Type of a machine value.
#[derive(Clone, Copy, Debug, PartialEq, Eq, Structural)]
pub enum ClifTy {
    I8,
    I32,
    I64,
    F32,
    F64,
}

/// The type that carries a boolean: comparisons already produce it.
pub const BOOL_TY: ClifTy = ClifTy::I8;

/// A machine value, by its number.
#[derive(Clone, Copy, Debug, PartialEq, Eq, Structural)]
pub struct Val(pub usize);

/// Signed integer comparisons.
#[derive(Clone, Copy, Debug, PartialEq, Eq, Structural)]
pub enum IntCond {
    Equal,
    NotEqual,
    LessThan,
    GreaterThanOrEqual,
    GreaterThan,
    LessThanOrEqual,
}

/// Floating-point comparisons. All but `NotEqual` and `Unordered` are false where an
/// operand is not a number.
#[derive(Clone, Copy, Debug, PartialEq, Eq, Structural)]
pub enum FloatCond {
    Equal,
    NotEqual,
    LessThan,
    GreaterThanOrEqual,
    GreaterThan,
    LessThanOrEqual,
    Unordered,
}

/// Instructions with one operand and a result of its type.
#[derive(Clone, Copy, Debug, PartialEq, Eq, Structural)]
pub enum UnaryOp {
    Ineg,
    Fneg,
    Fabs,
    Sqrt,
}

/// Instructions with two operands of one type and a result of that type.
#[derive(Clone, Copy, Debug, PartialEq, Eq, Structural)]
pub enum BinaryOp {
    Iadd,
    Isub,
    Imul,
    Sdiv,
    Srem,
    Band,
    Bor,
    Bxor,
    Fadd,
    Fsub,
    Fmul,
    Fdiv,
}

/// Instructions that convert to another type.
#[derive(Clone, Copy, Debug, PartialEq, Eq, Structural)]
pub enum ConvertOp {
    Sextend,
    Uextend,
    Ireduce,
    FcvtFromSint,
    FcvtToSintSat,
    Fpromote,
    Fdemote,
}

/// What an instruction does.
#[derive(Debug)]
pub enum Op {
    Iconst(ClifTy, i64),
    /// A floating-point constant, by its bits.
    F32const(u32),
    F64const(u64),
    Unary(UnaryOp, Val),
    Binary(BinaryOp, Val, Val),
    IntCompare(IntCond, Val, Val),
    FloatCompare(FloatCond, Val, Val),
    /// The first value where the condition is not zero, else the second.
    Select(Val, Val, Val),
    Convert(ConvertOp, ClifTy, Val),
    /// The value of the type at the address.
    Load(ClifTy, Val),
    /// Writes the value to the address.
    Store(Val, Val),
    /// Calls an import, by its position.
    Call(usize, Vec<Val>),
    /// Continues at the first block where the condition is not zero, else at the second.
    Brif(Val, usize, Vec<Val>, usize, Vec<Val>),
    Jump(usize, Vec<Val>),
    Return(Vec<Val>),
}

/// What an instruction does, as a mathematical value.
pub enum OpV {
    Iconst(ClifTy, i64),
    F32const(u32),
    F64const(u64),
    Unary(UnaryOp, Val),
    Binary(BinaryOp, Val, Val),
    IntCompare(IntCond, Val, Val),
    FloatCompare(FloatCond, Val, Val),
    Select(Val, Val, Val),
    Convert(ConvertOp, ClifTy, Val),
    Load(ClifTy, Val),
    Store(Val, Val),
    Call(usize, Seq<Val>),
    Brif(Val, usize, Seq<Val>, usize, Seq<Val>),
    Jump(usize, Seq<Val>),
    Return(Seq<Val>),
}

impl View for Op {
    type V = OpV;

    open spec fn view(&self) -> OpV {
        match *self {
            Op::Iconst(t, n) => OpV::Iconst(t, n),
            Op::F32const(b) => OpV::F32const(b),
            Op::F64const(b) => OpV::F64const(b),
            Op::Unary(o, x) => OpV::Unary(o, x),
            Op::Binary(o, x, y) => OpV::Binary(o, x, y),
            Op::IntCompare(c, x, y) => OpV::IntCompare(c, x, y),
            Op::FloatCompare(c, x, y) => OpV::FloatCompare(c, x, y),
            Op::Select(c, x, y) => OpV::Select(c, x, y),
            Op::Convert(o, t, x) => OpV::Convert(o, t, x),
            Op::Load(t, a) => OpV::Load(t, a),
            Op::Store(v, a) => OpV::Store(v, a),
            Op::Call(f, args) => OpV::Call(f, args@),
            Op::Brif(c, t, targs, f, fargs) => OpV::Brif(c, t, targs@, f, fargs@),
            Op::Jump(t, args) => OpV::Jump(t, args@),
            Op::Return(args) => OpV::Return(args@),
        }
    }
}

/// An instruction with its results: `count` values from number `first`.
#[derive(Debug)]
pub struct ClifInst {
    pub op: Op,
    pub first: usize,
    pub count: usize,
}

/// An instruction with its results, as a mathematical value.
pub struct ClifInstV {
    pub op: OpV,
    pub first: usize,
    pub count: usize,
}

impl View for ClifInst {
    type V = ClifInstV;

    open spec fn view(&self) -> ClifInstV {
        ClifInstV { op: self.op@, first: self.first, count: self.count }
    }
}

/// A block: its parameters, then its instructions.
#[derive(Debug)]
pub struct ClifBlock {
    pub params: Vec<Val>,
    pub insts: Vec<ClifInst>,
}

/// A block as mathematical values.
#[verifier::ext_equal]
pub struct ClifBlockV {
    pub params: Seq<Val>,
    pub insts: Seq<ClifInstV>,
}

impl View for ClifBlock {
    type V = ClifBlockV;

    open spec fn view(&self) -> ClifBlockV {
        ClifBlockV {
            params: self.params@,
            insts: self.insts@.map_values(|i: ClifInst| i@),
        }
    }
}

/// Parameters and results of a function.
#[derive(Debug)]
pub struct Sig {
    pub params: Vec<ClifTy>,
    pub returns: Vec<ClifTy>,
}

/// Parameters and results of a function, as mathematical values.
#[verifier::ext_equal]
pub struct SigV {
    pub params: Seq<ClifTy>,
    pub returns: Seq<ClifTy>,
}

impl View for Sig {
    type V = SigV;

    open spec fn view(&self) -> SigV {
        SigV { params: self.params@, returns: self.returns@ }
    }
}

/// A function that can be called: its name and signature.
#[derive(Debug)]
pub struct Callee {
    pub name: String,
    pub sig: Sig,
}

/// A function that can be called, as mathematical values.
pub struct CalleeV {
    pub name: Seq<char>,
    pub sig: SigV,
}

impl View for Callee {
    type V = CalleeV;

    open spec fn view(&self) -> CalleeV {
        CalleeV { name: self.name@, sig: self.sig@ }
    }
}

/// Views of callees.
pub open spec fn callee_views(s: Seq<Callee>) -> Seq<CalleeV> {
    s.map_values(|c: Callee| c@)
}

/// A whole function.
#[derive(Debug)]
pub struct ClifFunc {
    pub sig: Sig,
    /// Type of every value.
    pub tys: Vec<ClifTy>,
    pub blocks: Vec<ClifBlock>,
    /// What the function calls: positions among the callees it was made with.
    pub imports: Vec<usize>,
    /// The block that control enters first.
    pub entry: usize,
}

// ---------------------------------------------------------------------------
// Types
// ---------------------------------------------------------------------------

/// The machine type of a scalar. Arrays travel as pairs and units not at all.
pub open spec fn scalar_ty(ty: Ty) -> ClifTy {
    match ty {
        Ty::I32 => ClifTy::I32,
        Ty::I64 => ClifTy::I64,
        Ty::F32 => ClifTy::F32,
        Ty::F64 => ClifTy::F64,
        Ty::Bool => ClifTy::I8,
        Ty::Unit => ClifTy::I64,
        Ty::Array(_) => ClifTy::I64,
    }
}

/// The machine type of a scalar.
pub fn clif_ty(ty: Ty) -> (r: ClifTy)
    ensures
        r == scalar_ty(ty),
{
    match ty {
        Ty::I32 => ClifTy::I32,
        Ty::I64 => ClifTy::I64,
        Ty::F32 => ClifTy::F32,
        Ty::F64 => ClifTy::F64,
        Ty::Bool => BOOL_TY,
        Ty::Unit => ClifTy::I64,
        Ty::Array(_) => ClifTy::I64,
    }
}

/// The size of an element in bytes.
pub open spec fn element_bytes(e: ElemTy) -> i64 {
    match e {
        ElemTy::I32 => 4,
        ElemTy::F32 => 4,
        ElemTy::I64 => 8,
        ElemTy::F64 => 8,
        ElemTy::Bool => 1,
    }
}

/// The size of an element in bytes.
pub fn elem_size(e: ElemTy) -> (r: i64)
    ensures
        r == element_bytes(e),
{
    match e {
        ElemTy::I32 => 4,
        ElemTy::F32 => 4,
        ElemTy::I64 => 8,
        ElemTy::F64 => 8,
        ElemTy::Bool => 1,
    }
}

/// The machine type of an element.
pub open spec fn element_ty(e: ElemTy) -> ClifTy {
    match e {
        ElemTy::I32 => ClifTy::I32,
        ElemTy::I64 => ClifTy::I64,
        ElemTy::F32 => ClifTy::F32,
        ElemTy::F64 => ClifTy::F64,
        ElemTy::Bool => ClifTy::I8,
    }
}

/// The machine type of an element.
pub fn elem_clif_ty(e: ElemTy) -> (r: ClifTy)
    ensures
        r == element_ty(e),
{
    match e {
        ElemTy::I32 => ClifTy::I32,
        ElemTy::I64 => ClifTy::I64,
        ElemTy::F32 => ClifTy::F32,
        ElemTy::F64 => ClifTy::F64,
        ElemTy::Bool => BOOL_TY,
    }
}

/// The comparison of integers that an operator stands for.
pub open spec fn int_cond(op: BinOp) -> Option<IntCond> {
    match op {
        BinOp::Lt => Some(IntCond::LessThan),
        BinOp::Gt => Some(IntCond::GreaterThan),
        BinOp::Le => Some(IntCond::LessThanOrEqual),
        BinOp::Ge => Some(IntCond::GreaterThanOrEqual),
        BinOp::Eq => Some(IntCond::Equal),
        BinOp::Ne => Some(IntCond::NotEqual),
        _ => None,
    }
}

/// The comparison of integers that an operator stands for.
pub fn int_cc(op: BinOp) -> (r: Option<IntCond>)
    ensures
        r == int_cond(op),
{
    match op {
        BinOp::Lt => Some(IntCond::LessThan),
        BinOp::Gt => Some(IntCond::GreaterThan),
        BinOp::Le => Some(IntCond::LessThanOrEqual),
        BinOp::Ge => Some(IntCond::GreaterThanOrEqual),
        BinOp::Eq => Some(IntCond::Equal),
        BinOp::Ne => Some(IntCond::NotEqual),
        _ => None,
    }
}

/// The comparison of floating-point numbers that an operator stands for.
pub open spec fn float_cond(op: BinOp) -> Option<FloatCond> {
    match op {
        BinOp::Lt => Some(FloatCond::LessThan),
        BinOp::Gt => Some(FloatCond::GreaterThan),
        BinOp::Le => Some(FloatCond::LessThanOrEqual),
        BinOp::Ge => Some(FloatCond::GreaterThanOrEqual),
        BinOp::Eq => Some(FloatCond::Equal),
        BinOp::Ne => Some(FloatCond::NotEqual),
        _ => None,
    }
}

/// The comparison of floating-point numbers that an operator stands for.
pub fn float_cc(op: BinOp) -> (r: Option<FloatCond>)
    ensures
        r == float_cond(op),
{
    match op {
        BinOp::Lt => Some(FloatCond::LessThan),
        BinOp::Gt => Some(FloatCond::GreaterThan),
        BinOp::Le => Some(FloatCond::LessThanOrEqual),
        BinOp::Ge => Some(FloatCond::GreaterThanOrEqual),
        BinOp::Eq => Some(FloatCond::Equal),
        BinOp::Ne => Some(FloatCond::NotEqual),
        _ => None,
    }
}

// ---------------------------------------------------------------------------
// Signatures
// ---------------------------------------------------------------------------

impl FuncIr {
    /// The type of a phi: that of its value, else of its variable, else `I64`.
    pub open spec fn phi_type(self, p: Phi) -> Ty {
        match self.type_of(p.dst) {
            Some(t) => t,
            None => match self.types.local_type(p.var) {
                Some(t) => t,
                None => Ty::I64,
            },
        }
    }
}

/// The type of a phi.
pub fn phi_ty(ir: &FuncIr, p: &Phi) -> (r: Ty)
    ensures
        r == ir.phi_type(*p),
{
    match ir.val_ty(p.dst) {
        Some(t) => t,
        None => match ir.types.local_ty(p.var) {
            Some(t) => t,
            None => Ty::I64,
        },
    }
}

/// The machine parameters of one parameter: data and length of an array, else the
/// scalar.
pub open spec fn param_tys(ty: Ty) -> Seq<ClifTy> {
    match ty {
        Ty::Array(_) => seq![ClifTy::I64, ClifTy::I64],
        t => seq![scalar_ty(t)],
    }
}

/// The machine parameters of the first `k` parameters of a function.
pub open spec fn params_below(ir: FuncIr, k: nat) -> Seq<ClifTy>
    decreases k,
{
    if k == 0 {
        seq![]
    } else {
        params_below(ir, (k - 1) as nat) + param_tys(ir.phi_type(ir.at(ir.entry).phis@[k - 1]))
    }
}

/// The results of a function that returns `ret`.
pub open spec fn return_tys(ret: Ty) -> Seq<ClifTy> {
    if ret == Ty::Unit {
        seq![]
    } else {
        seq![scalar_ty(ret)]
    }
}

/// The signature of a function: the phis of its entry are its parameters.
pub open spec fn sig_of(ir: FuncIr) -> SigV {
    SigV {
        params: params_below(ir, ir.at(ir.entry).phis@.len()),
        returns: return_tys(ir.ret),
    }
}

/// The signature of a function.
pub fn signature_of(ir: &FuncIr) -> (r: Sig)
    requires
        ir.has_block(ir.entry),
    ensures
        r@ == sig_of(*ir),
{
    let phis = &ir.block(ir.entry).phis;
    let mut params: Vec<ClifTy> = Vec::new();
    let mut k: usize = 0;
    while k < phis.len()
        invariant
            *phis == ir.at(ir.entry).phis,
            k <= phis@.len(),
            params@ == params_below(*ir, k as nat),
        decreases phis@.len() - k,
    {
        let ty = phi_ty(ir, &phis[k]);
        let ghost before = params@;
        match ty {
            Ty::Array(_) => {
                params.push(ClifTy::I64);
                params.push(ClifTy::I64);
            },
            _ => {
                params.push(clif_ty(ty));
            },
        }
        proof {
            assert(params@ =~= before + param_tys(ty));
        }
        k = k + 1;
    }
    let returns: Vec<ClifTy> = if ir.ret == Ty::Unit {
        Vec::new()
    } else {
        vec![clif_ty(ir.ret)]
    };
    assert(returns@ =~= return_tys(ir.ret));
    Sig { params, returns }
}

/// The signature of the body of a region: the iteration and the context.
pub open spec fn body_sig() -> SigV {
    SigV { params: seq![ClifTy::I64, ClifTy::I64], returns: seq![] }
}

/// The signature of the body of a region.
pub fn body_signature() -> (r: Sig)
    ensures
        r@ == body_sig(),
{
    let r = Sig { params: vec![ClifTy::I64, ClifTy::I64], returns: Vec::new() };
    assert(r@ =~= body_sig());
    r
}

/// A signature.
pub open spec fn sig(params: Seq<ClifTy>, returns: Seq<ClifTy>) -> SigV {
    SigV { params, returns }
}

/// The functions of the host that every program can call, in order of declaration.
pub open spec fn builtin_names() -> Seq<Seq<char>> {
    seq![
        "helix_print_i64"@,
        "helix_print_f32"@,
        "helix_print_f64"@,
        "helix_print_bool"@,
        "helix_zeros"@,
        "helix_len"@,
        "helix_panic"@,
    ]
}

/// The functions of the host that dispatch parallel regions, in order of declaration.
pub open spec fn dispatch_names() -> Seq<Seq<char>> {
    seq![
        "helix_stash_i"@,
        "helix_stash_f"@,
        "helix_stash_arr"@,
        "helix_dispatch"@,
        "helix_read_i64"@,
        "helix_read_i32"@,
        "helix_read_f64"@,
        "helix_read_f32"@,
        "helix_ld_i64"@,
        "helix_ld_i32"@,
        "helix_ld_f64"@,
        "helix_ld_f32"@,
        "helix_acc_load_i64"@,
        "helix_acc_load_i32"@,
        "helix_acc_load_f64"@,
        "helix_acc_load_f32"@,
        "helix_acc_store_i64"@,
        "helix_acc_store_i32"@,
        "helix_acc_store_f64"@,
        "helix_acc_store_f32"@,
    ]
}

/// The signature of a function of the host.
pub open spec fn host_sig(name: Seq<char>) -> Option<SigV> {
    if name == "helix_print_i64"@ {
        Some(sig(seq![ClifTy::I64], seq![]))
    } else if name == "helix_print_f32"@ {
        Some(sig(seq![ClifTy::F32], seq![]))
    } else if name == "helix_print_f64"@ {
        Some(sig(seq![ClifTy::F64], seq![]))
    } else if name == "helix_print_bool"@ {
        Some(sig(seq![ClifTy::I64], seq![]))
    } else if name == "helix_zeros"@ {
        Some(sig(seq![ClifTy::I64, ClifTy::I64], seq![ClifTy::I64]))
    } else if name == "helix_len"@ {
        Some(sig(seq![ClifTy::I64, ClifTy::I64], seq![ClifTy::I64]))
    } else if name == "helix_panic"@ {
        Some(sig(seq![ClifTy::I64, ClifTy::I64, ClifTy::I64], seq![]))
    } else if name == "helix_stash_i"@ {
        Some(sig(seq![ClifTy::I64, ClifTy::I64], seq![]))
    } else if name == "helix_stash_f"@ {
        Some(sig(seq![ClifTy::I64, ClifTy::F64], seq![]))
    } else if name == "helix_stash_arr"@ {
        Some(sig(seq![ClifTy::I64, ClifTy::I64, ClifTy::I64], seq![]))
    } else if name == "helix_dispatch"@ {
        Some(sig(seq![ClifTy::I64, ClifTy::I64, ClifTy::I64, ClifTy::I64], seq![ClifTy::I64]))
    } else if name == "helix_read_i64"@ {
        Some(sig(seq![ClifTy::I64], seq![ClifTy::I64]))
    } else if name == "helix_read_i32"@ {
        Some(sig(seq![ClifTy::I64], seq![ClifTy::I32]))
    } else if name == "helix_read_f64"@ {
        Some(sig(seq![ClifTy::I64], seq![ClifTy::F64]))
    } else if name == "helix_read_f32"@ {
        Some(sig(seq![ClifTy::I64], seq![ClifTy::F32]))
    } else if name == "helix_ld_i64"@ {
        Some(sig(seq![ClifTy::I64, ClifTy::I64], seq![ClifTy::I64]))
    } else if name == "helix_ld_i32"@ {
        Some(sig(seq![ClifTy::I64, ClifTy::I64], seq![ClifTy::I32]))
    } else if name == "helix_ld_f64"@ {
        Some(sig(seq![ClifTy::I64, ClifTy::I64], seq![ClifTy::F64]))
    } else if name == "helix_ld_f32"@ {
        Some(sig(seq![ClifTy::I64, ClifTy::I64], seq![ClifTy::F32]))
    } else if name == "helix_acc_load_i64"@ {
        Some(sig(seq![ClifTy::I64], seq![ClifTy::I64]))
    } else if name == "helix_acc_load_i32"@ {
        Some(sig(seq![ClifTy::I64], seq![ClifTy::I32]))
    } else if name == "helix_acc_load_f64"@ {
        Some(sig(seq![ClifTy::I64], seq![ClifTy::F64]))
    } else if name == "helix_acc_load_f32"@ {
        Some(sig(seq![ClifTy::I64], seq![ClifTy::F32]))
    } else if name == "helix_acc_store_i64"@ {
        Some(sig(seq![ClifTy::I64, ClifTy::I64], seq![]))
    } else if name == "helix_acc_store_i32"@ {
        Some(sig(seq![ClifTy::I64, ClifTy::I32], seq![]))
    } else if name == "helix_acc_store_f64"@ {
        Some(sig(seq![ClifTy::I64, ClifTy::F64], seq![]))
    } else if name == "helix_acc_store_f32"@ {
        Some(sig(seq![ClifTy::I64, ClifTy::F32], seq![]))
    } else {
        None
    }
}

/// A signature.
fn make_sig(params: Vec<ClifTy>, returns: Vec<ClifTy>) -> (r: Option<Sig>)
    ensures
        r matches Some(s) && s@ == sig(params@, returns@),
{
    Some(Sig { params, returns })
}

/// The signature of a function of the host, for names that it does not have `None`.
pub fn builtin_signature(name: &str) -> (r: Option<Sig>)
    ensures
        r is Some <==> host_sig(name@) is Some,
        r matches Some(s) ==> s@ == host_sig(name@)->0,
{
    let name = name.to_owned();
    if is_text(&name, "helix_print_i64") {
        make_sig(vec![ClifTy::I64], Vec::new())
    } else if is_text(&name, "helix_print_f32") {
        make_sig(vec![ClifTy::F32], Vec::new())
    } else if is_text(&name, "helix_print_f64") {
        make_sig(vec![ClifTy::F64], Vec::new())
    } else if is_text(&name, "helix_print_bool") {
        make_sig(vec![ClifTy::I64], Vec::new())
    } else if is_text(&name, "helix_zeros") {
        make_sig(vec![ClifTy::I64, ClifTy::I64], vec![ClifTy::I64])
    } else if is_text(&name, "helix_len") {
        make_sig(vec![ClifTy::I64, ClifTy::I64], vec![ClifTy::I64])
    } else if is_text(&name, "helix_panic") {
        make_sig(vec![ClifTy::I64, ClifTy::I64, ClifTy::I64], Vec::new())
    } else if is_text(&name, "helix_stash_i") {
        make_sig(vec![ClifTy::I64, ClifTy::I64], Vec::new())
    } else if is_text(&name, "helix_stash_f") {
        make_sig(vec![ClifTy::I64, ClifTy::F64], Vec::new())
    } else if is_text(&name, "helix_stash_arr") {
        make_sig(vec![ClifTy::I64, ClifTy::I64, ClifTy::I64], Vec::new())
    } else if is_text(&name, "helix_dispatch") {
        make_sig(vec![ClifTy::I64, ClifTy::I64, ClifTy::I64, ClifTy::I64], vec![ClifTy::I64])
    } else if is_text(&name, "helix_read_i64") {
        make_sig(vec![ClifTy::I64], vec![ClifTy::I64])
    } else if is_text(&name, "helix_read_i32") {
        make_sig(vec![ClifTy::I64], vec![ClifTy::I32])
    } else if is_text(&name, "helix_read_f64") {
        make_sig(vec![ClifTy::I64], vec![ClifTy::F64])
    } else if is_text(&name, "helix_read_f32") {
        make_sig(vec![ClifTy::I64], vec![ClifTy::F32])
    } else if is_text(&name, "helix_ld_i64") {
        make_sig(vec![ClifTy::I64, ClifTy::I64], vec![ClifTy::I64])
    } else if is_text(&name, "helix_ld_i32") {
        make_sig(vec![ClifTy::I64, ClifTy::I64], vec![ClifTy::I32])
    } else if is_text(&name, "helix_ld_f64") {
        make_sig(vec![ClifTy::I64, ClifTy::I64], vec![ClifTy::F64])
    } else if is_text(&name, "helix_ld_f32") {
        make_sig(vec![ClifTy::I64, ClifTy::I64], vec![ClifTy::F32])
    } else if is_text(&name, "helix_acc_load_i64") {
        make_sig(vec![ClifTy::I64], vec![ClifTy::I64])
    } else if is_text(&name, "helix_acc_load_i32") {
        make_sig(vec![ClifTy::I64], vec![ClifTy::I32])
    } else if is_text(&name, "helix_acc_load_f64") {
        make_sig(vec![ClifTy::I64], vec![ClifTy::F64])
    } else if is_text(&name, "helix_acc_load_f32") {
        make_sig(vec![ClifTy::I64], vec![ClifTy::F32])
    } else if is_text(&name, "helix_acc_store_i64") {
        make_sig(vec![ClifTy::I64, ClifTy::I64], Vec::new())
    } else if is_text(&name, "helix_acc_store_i32") {
        make_sig(vec![ClifTy::I64, ClifTy::I32], Vec::new())
    } else if is_text(&name, "helix_acc_store_f64") {
        make_sig(vec![ClifTy::I64, ClifTy::F64], Vec::new())
    } else if is_text(&name, "helix_acc_store_f32") {
        make_sig(vec![ClifTy::I64, ClifTy::F32], Vec::new())
    } else {
        None
    }
}

} // verus!
