//! Arrays by address and arrays by element: a function that runs on addresses does what it
//! does on elements, where no two arrays share a byte.
use vstd::prelude::*;

use crate::acts::{
    act, act_call, acts, address_at, declared, enters, pair, performs, subscript, Act, End, Src,
    Stage,
};
use crate::clif::element_bytes;
use crate::cpu::{bytes_of, overlap, written, Memory};
use crate::error::Span;
use crate::folds::operated;
use crate::functions::phi_at;
use crate::ir::{block_views, BlockId, Call, ElemTy, FuncIr, Inst, LocalId, Term, Ty, ValueId};
use crate::iterate::{
    call, entered, get, merged, next, operands, run, step, taken, Meaning, Returned, State,
};
use crate::lower::{comes_from, edge_arg};
use crate::operators::{const_value, scalar, type_of};
use crate::search::{first_where, lemma_first_where};
use crate::transfer::own_phis;
use crate::twins::{meaning, single, Cells, World};
use crate::value::Value;

verus! {

/// The type of an element.
pub open spec fn elem_value(e: ElemTy) -> Ty {
    match e {
        ElemTy::I32 => Ty::I32,
        ElemTy::I64 => Ty::I64,
        ElemTy::F32 => Ty::F32,
        ElemTy::F64 => Ty::F64,
        ElemTy::Bool => Ty::Bool,
    }
}

/// A call defines the value.
pub open spec fn by_call(ir: FuncIr, v: ValueId) -> bool {
    match ir.def_inst(v) {
        Some(Inst::Call(_)) => true,
        _ => false,
    }
}

/// The call stands in the function.
pub open spec fn calls(ir: FuncIr, call: Call) -> bool {
    exists|b: BlockId, k: int|
        ir.has_block(b) && 0 <= k < ir.at(b).insts@.len() && #[trigger] ir.at(b).insts@[k]
            == Inst::Call(call)
}

/// No instruction defines the value, and no phi behind an edge.
#[verifier::opaque]
pub open spec fn steady(ir: FuncIr, v: u32) -> bool {
    &&& ir.def_inst(ValueId(v)) is None
    &&& forall|a: BlockId, b: BlockId, k: int| #[trigger]
        ir.edge(a, b) ==> !#[trigger] phi_at(ir, b.0 as int, k, v)
}

/// Where arrays are.
#[verifier::reject_recursive_types(H)]
pub struct Ground<H> {
    pub c: Stage<H>,
    pub o: World,
    pub arrays: Set<LocalId>,
    /// The address of the first element.
    pub place: spec_fn(LocalId) -> i64,
    /// What the cell of the accumulator holds.
    pub slot: spec_fn(H) -> Value,
    /// Values that the function is given and that stay as they are.
    pub fixed: Map<u32, Value>,
}

impl<H> Ground<H> {
    /// The type of the elements of an array.
    pub open spec fn elem(self, a: LocalId) -> ElemTy {
        self.c.ir.types.element_type(a)->0
    }

    /// The address of an element.
    pub open spec fn spot(self, a: LocalId, i: int) -> int {
        (self.place)(a) + i * element_bytes(self.elem(a))
    }

    /// The element exists.
    pub open spec fn cell(self, a: LocalId, i: int) -> bool {
        self.arrays.contains(a) && 0 <= i < (self.o.lens)(a)
    }

    /// Arrays have addresses, and no two of them share a byte.
    pub open spec fn apart(self) -> bool {
        &&& forall|a: LocalId| #[trigger]
            self.arrays.contains(a) ==> self.c.ir.types.element_type(a) is Some && 0 <= (
            self.o.lens)(a) <= i64::MAX && 0 <= (self.place)(a) && self.spot(a, (self.o.lens)(a))
                <= i64::MAX
        &&& forall|a: LocalId, b: LocalId| #[trigger]
            self.arrays.contains(a) && #[trigger] self.arrays.contains(b) && a != b ==> self.spot(
                a,
                (self.o.lens)(a),
            ) <= (self.place)(b) || self.spot(b, (self.o.lens)(b)) <= (self.place)(a)
    }

    /// Memory holds the elements at their addresses.
    pub open spec fn holds(self, cells: Cells, mem: Memory) -> bool {
        forall|a: LocalId, i: int| #[trigger]
            self.cell(a, i) ==> mem.dom().contains(self.spot(a, i)) && mem[self.spot(a, i)]
                == cells[(a, i)] && scalar(mem[self.spot(a, i)]) && type_of(mem[self.spot(a, i)])
                == elem_value(self.elem(a))
    }

    /// The two states agree: on values, on memory, and on where arrays are.
    pub open spec fn agrees(self, s: State<Value, Cells>, src: Src<H>) -> bool {
        &&& forall|v: u32| #[trigger]
            src.vals.dom().contains(v) ==> s.vals.dom().contains(ValueId(v)) && s.vals[ValueId(v)]
                == src.vals[v] && type_of(src.vals[v]) == declared(self.c.ir, ValueId(v))
        &&& self.holds(s.mem, src.scene.mem)
        &&& s.cell == (self.slot)(src.scene.host)
        &&& forall|v: u32| #[trigger]
            src.vals.dom().contains(v) && self.fixed.dom().contains(v) ==> src.vals[v]
                == self.fixed[v]
        &&& self.c.prebind.len() > 0 ==> src.arrs == Map::<u32, (i64, i64)>::empty()
        &&& forall|a: LocalId| (#[trigger] pair(self.c, src, a)) is Some ==> self.arrays.contains(a)
            && (pair(self.c, src, a)->0).0 == (self.place)(a) && (pair(self.c, src, a)->0).1 == (
        self.o.lens)(a)
    }

    /// The calls of the function do in the world of elements what they do on the machine.
    pub open spec fn calls_agree(self) -> bool {
        forall|s: State<Value, Cells>, src: Src<H>, call: Call|
            #![trigger act_call(self.c, src, call), self.agrees(s, src)]
            self.agrees(s, src) && calls(self.c.ir, call) ==> match act_call(self.c, src, call) {
                Act::Done(now) => step(meaning(self.o), Inst::Call(call)@, s) matches Some(t)
                    && self.agrees(t, now),
                Act::Fails(..) => step(meaning(self.o), Inst::Call(call)@, s) is None,
                _ => true,
            }
    }

    /// What is asked of the function: every value has one definition, subscripts are 64-bit
    /// integers, stores fit their arrays, phis have an argument for every edge, only calls
    /// say where arrays are, and nothing defines a fixed value again.
    pub open spec fn plain(self) -> bool {
        let ir = self.c.ir;
        &&& ir.wf()
        &&& single(ir)
        &&& self.o.floats == self.c.machine.floats
        &&& !self.c.unchecked
        &&& forall|b: usize| b < ir.blocks@.len() ==> #[trigger] own_phis(ir, b)
        &&& forall|b: BlockId, k: int|
            ir.has_block(b) && 0 <= k < ir.at(b).insts@.len() ==> match (
            #[trigger] ir.at(b).insts@[k]) {
                Inst::Load(l) => declared(ir, l.idx) == Ty::I64,
                Inst::Store { arr, idx, val } => declared(ir, idx) == Ty::I64 && (
                ir.types.element_type(arr) matches Some(e) ==> declared(ir, val) == elem_value(e)),
                _ => true,
            }
        &&& forall|a: BlockId, b: BlockId, k: int|
            #![trigger ir.edge(a, b), ir.at(b).phis@[k]]
            ir.edge(a, b) && 0 <= k < ir.at(b).phis@.len() ==> first_where(
                ir.at(b).phis@[k].args@,
                comes_from(a),
            ) is Some
        &&& forall|k: int|
            0 <= k < self.c.prebind.len() ==> by_call(ir, (#[trigger] self.c.prebind[k]).1)
                && by_call(ir, self.c.prebind[k].2)
        &&& forall|v: u32| #[trigger]
            self.fixed.dom().contains(v) ==> steady(ir, v)
    }
}

/// An element that is written, and all others.
#[verifier::rlimit(30)]
proof fn lemma_stored<H>(g: Ground<H>, cells: Cells, mem: Memory, a: LocalId, i: int, v: Value)
    requires
        g.apart(),
        g.holds(cells, mem),
        g.cell(a, i),
        scalar(v),
        type_of(v) == elem_value(g.elem(a)),
    ensures
        g.holds(cells.insert((a, i), v), written(mem, g.spot(a, i), v)),
{
    let now = cells.insert((a, i), v);
    let after = written(mem, g.spot(a, i), v);
    assert forall|b: LocalId, j: int| #[trigger] g.cell(b, j) implies after.dom().contains(
        g.spot(b, j),
    ) && after[g.spot(b, j)] == now[(b, j)] && scalar(after[g.spot(b, j)]) && type_of(
        after[g.spot(b, j)],
    ) == elem_value(g.elem(b)) by {
        let x = g.spot(b, j);
        let y = g.spot(a, i);
        let m = element_bytes(g.elem(b)) as int;
        let n = element_bytes(g.elem(a)) as int;
        assert(g.arrays.contains(a) && g.arrays.contains(b));
        assert(bytes_of(mem[x]) == m && bytes_of(v) == n);
        if b == a && j == i {
        } else {
            assert(!overlap(x, m, y, n) && x != y) by {
                if b == a {
                    if j < i {
                        assert((i - j) * n >= n) by (nonlinear_arith)
                            requires
                                i - j >= 1,
                                n > 0,
                        ;
                        assert(i * n - j * n == (i - j) * n) by (nonlinear_arith);
                    } else {
                        assert((j - i) * n >= n) by (nonlinear_arith)
                            requires
                                j - i >= 1,
                                n > 0,
                        ;
                        assert(j * n - i * n == (j - i) * n) by (nonlinear_arith);
                    }
                } else {
                    lemma_inside(g, a, i);
                    lemma_inside(g, b, j);
                }
            }
            assert(mem.dom().contains(x));
        }
    }
}

/// An element lies between the first byte of its array and the last one.
proof fn lemma_inside<H>(g: Ground<H>, a: LocalId, i: int)
    requires
        g.apart(),
        g.cell(a, i),
    ensures
        (g.place)(a) <= g.spot(a, i),
        g.spot(a, i) + element_bytes(g.elem(a)) <= g.spot(a, (g.o.lens)(a)),
        i64::MIN <= g.spot(a, i) <= i64::MAX,
        0 <= i * element_bytes(g.elem(a)) <= i64::MAX,
{
    let n = element_bytes(g.elem(a)) as int;
    let len = (g.o.lens)(a);
    assert(g.arrays.contains(a));
    assert(0 <= i * n && i * n + n <= len * n) by (nonlinear_arith)
        requires
            0 <= i < len,
            n > 0,
    ;
    assert(g.spot(a, len) == (g.place)(a) + len * n);
}

/// A value that an instruction defines.
proof fn lemma_defined<H>(
    g: Ground<H>,
    s: State<Value, Cells>,
    src: Src<H>,
    i: Inst,
    dst: ValueId,
    v: Value,
)
    requires
        g.agrees(s, src),
        type_of(v) == declared(g.c.ir, dst),
        i.def() == Some(dst),
        g.c.ir.def_inst(dst) == Some(i),
        !(i is Call),
        g.plain(),
    ensures
        g.agrees(
            State { vals: s.vals.insert(dst, v), mem: s.mem, cell: s.cell },
            Src { vals: src.vals.insert(dst.0, v), arrs: src.arrs, scene: src.scene },
        ),
{
    let now = Src { vals: src.vals.insert(dst.0, v), arrs: src.arrs, scene: src.scene };
    assert(ValueId(dst.0) == dst);
    assert(!g.fixed.dom().contains(dst.0)) by {
        reveal(steady);
    }
    assert forall|x: u32| #[trigger] now.vals.dom().contains(x) implies s.vals.insert(
        dst,
        v,
    ).dom().contains(ValueId(x)) && s.vals.insert(dst, v)[ValueId(x)] == now.vals[x] && type_of(
        now.vals[x],
    ) == declared(g.c.ir, ValueId(x)) by {
        if x != dst.0 {
            assert(src.vals.dom().contains(x));
        }
    }
    assert forall|a: LocalId| (#[trigger] pair(g.c, now, a)) is Some implies pair(g.c, src, a)
        == pair(g.c, now, a) by {
        lemma_first_where(g.c.prebind, crate::lower::is_local(a));
        if !src.arrs.dom().contains(a.0) {
            let k = first_where(g.c.prebind, crate::lower::is_local(a))->0;
            assert(g.c.prebind[k].1 != dst && g.c.prebind[k].2 != dst);
        }
    }
}

/// One instruction: what it does on addresses, it does on elements.
#[verifier::rlimit(40)]
proof fn lemma_steps<H>(
    g: Ground<H>,
    s: State<Value, Cells>,
    src: Src<H>,
    b: BlockId,
    k: int,
    span: Span,
)
    requires
        g.plain(),
        g.apart(),
        g.calls_agree(),
        g.agrees(s, src),
        g.c.ir.has_block(b),
        0 <= k < g.c.ir.at(b).insts@.len(),
        span == (Span { start: 0, end: 0 }),
    ensures
        ({
            let i = g.c.ir.at(b).insts@[k];
            match act(g.c, src, i, span) {
                Act::Done(now) => step(meaning(g.o), i@, s) matches Some(t) && g.agrees(t, now),
                Act::Fails(..) => step(meaning(g.o), i@, s) is None,
                _ => true,
            }
        }),
{
    let m = meaning(g.o);
    let i = g.c.ir.at(b).insts@[k];
    let w = g.c.machine.floats;
    if let Some(d) = i.def() {
        assert(g.c.ir.def_inst(d) == Some(i));
    }
    match i {
        Inst::Call(call) => {
            assert(calls(g.c.ir, call));
        },
        Inst::Const { dst, c } => {
            if act(g.c, src, i, span) is Done {
                lemma_defined(g, s, src, i, dst, const_value(c));
            }
        },
        Inst::Bin { op, dst, a, b: y } => {
            let xs = operands(m, s, i@);
            if src.vals.dom().contains(a.0) && src.vals.dom().contains(y.0) {
                assert(xs =~= seq![src.vals[a.0], src.vals[y.0]]) by {
                    assert(ValueId(a.0) == a && ValueId(y.0) == y);
                }
                if act(g.c, src, i, span) is Done {
                    lemma_defined(g, s, src, i, dst, operated(w, op, xs[0], xs[1])->0);
                }
            }
        },
        Inst::Unary { op, dst, a } => {
            let xs = operands(m, s, i@);
            if src.vals.dom().contains(a.0) {
                assert(xs =~= seq![src.vals[a.0]]) by {
                    assert(ValueId(a.0) == a);
                }
                if let Act::Done(now) = act(g.c, src, i, span) {
                    lemma_defined(g, s, src, i, dst, now.vals[dst.0]);
                }
            }
        },
        Inst::Cast { dst, val, to } => {
            let xs = operands(m, s, i@);
            if src.vals.dom().contains(val.0) {
                assert(xs =~= seq![src.vals[val.0]]) by {
                    assert(ValueId(val.0) == val);
                }
                if let Act::Done(now) = act(g.c, src, i, span) {
                    lemma_defined(g, s, src, i, dst, now.vals[dst.0]);
                }
            }
        },
        Inst::Load(l) => {
            lemma_access(g, s, src, l.arr, l.idx);
            let xs = operands(m, s, i@);
            if src.vals.dom().contains(l.idx.0) {
                assert(xs =~= seq![src.vals[l.idx.0]]) by {
                    assert(ValueId(l.idx.0) == l.idx);
                }
                if let Act::Done(now) = act(g.c, src, i, span) {
                    lemma_defined(g, s, src, i, l.dst, now.vals[l.dst.0]);
                }
            }
        },
        Inst::Store { arr, idx, val } => {
            lemma_access(g, s, src, arr, idx);
            let xs = operands(m, s, i@);
            if src.vals.dom().contains(idx.0) && src.vals.dom().contains(val.0) {
                assert(xs =~= seq![src.vals[idx.0], src.vals[val.0]]) by {
                    assert(ValueId(idx.0) == idx && ValueId(val.0) == val);
                }
                if let Act::Done(now) = act(g.c, src, i, span) {
                    let x = subscript(src, idx)->0;
                    let v = src.vals[val.0];
                    lemma_stored(g, s.mem, src.scene.mem, arr, x as int, v);
                    assert forall|a: LocalId| (#[trigger] pair(g.c, now, a)) == pair(
                        g.c,
                        src,
                        a,
                    ) by {}
                }
            }
        },
    }
}

/// An access reaches the element that the subscript selects.
proof fn lemma_access<H>(
    g: Ground<H>,
    s: State<Value, Cells>,
    src: Src<H>,
    arr: LocalId,
    idx: ValueId,
)
    requires
        g.apart(),
        g.agrees(s, src),
        declared(g.c.ir, idx) == Ty::I64,
    ensures
        pair(g.c, src, arr) is Some && subscript(src, idx) is Some ==> {
            let (base, len) = pair(g.c, src, arr)->0;
            let x = subscript(src, idx)->0;
            &&& src.vals[idx.0] == Value::I64(x)
            &&& g.c.ir.types.element_type(arr) is Some
            &&& len == (g.o.lens)(arr)
            &&& 0 <= x < len ==> g.cell(arr, x as int) && address_at(base, x, g.elem(arr)) as int
                == g.spot(arr, x as int)
        },
{
    if pair(g.c, src, arr) is Some && subscript(src, idx) is Some {
        let (base, len) = pair(g.c, src, arr)->0;
        let x = subscript(src, idx)->0;
        assert(src.vals.dom().contains(idx.0));
        assert(ValueId(idx.0) == idx);
        assert(g.arrays.contains(arr));
        if 0 <= x < len {
            lemma_inside(g, arr, x as int);
        }
    }
}

/// Instructions in a row.
proof fn lemma_code<H>(
    g: Ground<H>,
    s: State<Value, Cells>,
    src: Src<H>,
    b: BlockId,
    k: nat,
    span: Span,
)
    requires
        g.plain(),
        g.apart(),
        g.calls_agree(),
        g.agrees(s, src),
        g.c.ir.has_block(b),
        k <= g.c.ir.at(b).insts@.len(),
        span == (Span { start: 0, end: 0 }),
    ensures
        match acts(g.c, src, g.c.ir.at(b).insts@, k, span) {
            Act::Done(now) => run(meaning(g.o), g.c.ir.at(b)@.insts, k, s) matches Some(t)
                && g.agrees(t, now),
            Act::Fails(..) => run(meaning(g.o), g.c.ir.at(b)@.insts, k, s) is None,
            _ => true,
        },
    decreases k,
{
    if k > 0 {
        let p = (k - 1) as nat;
        lemma_code(g, s, src, b, p, span);
        let code = g.c.ir.at(b).insts@;
        assert(g.c.ir.at(b)@.insts[k - 1] == code[k - 1]@);
        if let Act::Done(now) = acts(g.c, src, code, p, span) {
            let t = run(meaning(g.o), g.c.ir.at(b)@.insts, p, s)->0;
            lemma_steps(g, t, now, b, k - 1, span);
        }
    }
}

/// What a phi takes is the first argument of the edge.
proof fn lemma_taken(args: Seq<(BlockId, ValueId)>, from: BlockId, k: nat)
    requires
        k <= args.len(),
    ensures
        match first_where(args, comes_from(from)) {
            Some(j) => j < k ==> taken(args, from, k) == Some(args[j].1),
            None => taken(args, from, k) is None,
        },
        first_where(args, comes_from(from)) matches Some(j) && j >= k ==> taken(args, from, k) is None,
    decreases k,
{
    lemma_first_where(args, comes_from(from));
    if k > 0 {
        lemma_taken(args, from, (k - 1) as nat);
        if let Some(j) = first_where(args, comes_from(from)) {
            if j > k - 1 {
                assert(!comes_from(from)(args[k - 1]));
            }
        } else {
            assert(!comes_from(from)(args[k - 1]));
        }
    }
}

/// The values after phis took theirs: what was taken, and all others.
proof fn lemma_merged(
    m: Meaning<Value, Cells>,
    ir: FuncIr,
    a: BlockId,
    b: BlockId,
    s: State<Value, Cells>,
    k: nat,
    v: ValueId,
)
    requires
        k <= ir.at(b).phis@.len(),
        own_phis(ir, b.0 as usize),
        forall|j: int|
            0 <= j < ir.at(b).phis@.len() ==> first_where(
                (#[trigger] ir.at(b).phis@[j]).args@,
                comes_from(a),
            ) is Some,
    ensures
        ({
            let now = merged(m, ir.at(b)@.phis, a, s, k);
            &&& forall|j: int|
                0 <= j < k && #[trigger] phi_at(ir, b.0 as int, j, v.0) ==> now.dom().contains(v)
                    && now[v] == get(m, s, edge_arg(ir, a, b, j)->0)
            &&& (forall|j: int| 0 <= j < k ==> !#[trigger] phi_at(ir, b.0 as int, j, v.0)) ==> (
            now.dom().contains(v) == s.vals.dom().contains(v) && now[v] == s.vals[v])
        }),
    decreases k,
{
    if k > 0 {
        lemma_merged(m, ir, a, b, s, (k - 1) as nat, v);
        let phis = ir.blocks@[b.0 as int].phis@;
        let p = ir.at(b).phis@[k - 1];
        assert(ir.at(b)@.phis[k - 1] == p@);
        lemma_taken(p.args@, a, p.args@.len());
        lemma_first_where(p.args@, comes_from(a));
        assert(taken(p.args@, a, p.args@.len()) == edge_arg(ir, a, b, k - 1));
        if phis[k - 1].dst.0 == v.0 {
            assert(phi_at(ir, b.0 as int, k - 1, v.0));
            assert(phis[k - 1].dst == v);
            assert forall|j: int| 0 <= j < k && #[trigger] phi_at(ir, b.0 as int, j, v.0) implies j
                == k - 1 by {
                if j < k - 1 {
                    assert(phis[j].dst.0 != phis[k - 1].dst.0);
                }
            }
        } else {
            assert(!phi_at(ir, b.0 as int, k - 1, v.0));
            assert(phis[k - 1].dst != v);
        }
    }
}

/// Going on to another block.
#[verifier::rlimit(30)]
proof fn lemma_entered<H>(
    g: Ground<H>,
    s: State<Value, Cells>,
    src: Src<H>,
    a: BlockId,
    b: BlockId,
)
    requires
        g.plain(),
        g.agrees(s, src),
        g.c.ir.edge(a, b),
        g.c.ir.has_block(b),
    ensures
        g.agrees(
            entered(meaning(g.o), g.c.ir.at(b)@.phis, a, s),
            enters(g.c, a, b, src),
        ),
{
    let m = meaning(g.o);
    let ir = g.c.ir;
    let phis = ir.at(b).phis@;
    let n = phis.len();
    let t = entered(m, ir.at(b)@.phis, a, s);
    let now = enters(g.c, a, b, src);
    let kept = src.vals.restrict((g.c.live)(b));
    assert(ir.at(b)@.phis.len() == n);
    assert(own_phis(ir, b.0 as usize));
    assert forall|j: int| 0 <= j < n implies first_where(
        (#[trigger] ir.at(b).phis@[j]).args@,
        comes_from(a),
    ) is Some by {
        assert(ir.edge(a, b));
    }
    assert forall|v: u32| #[trigger] now.vals.dom().contains(v) implies t.vals.dom().contains(
        ValueId(v),
    ) && t.vals[ValueId(v)] == now.vals[v] && type_of(now.vals[v]) == declared(ir, ValueId(v)) by {
        crate::faithful::lemma_taken_on(ir, a, b, src.vals, kept, n, v);
        lemma_merged(m, ir, a, b, s, n, ValueId(v));
        if exists|j: int| 0 <= j < n && #[trigger] phi_at(ir, b.0 as int, j, v) {
            let j = choose|j: int| 0 <= j < n && #[trigger] phi_at(ir, b.0 as int, j, v);
            let x = edge_arg(ir, a, b, j)->0;
            assert(src.vals.dom().contains(x.0));
            assert(ValueId(x.0) == x);
        } else {
            assert(src.vals.dom().contains(v));
        }
    }
    assert forall|v: u32| #[trigger]
        now.vals.dom().contains(v) && g.fixed.dom().contains(v) implies now.vals[v]
        == g.fixed[v] by {
        crate::faithful::lemma_taken_on(ir, a, b, src.vals, kept, n, v);
        assert forall|j: int| 0 <= j < n implies !#[trigger] phi_at(ir, b.0 as int, j, v) by {
            reveal(steady);
            assert(steady(ir, v));
            assert(ir.edge(a, b));
        }
        assert(src.vals.dom().contains(v));
    }
    assert(g.c.prebind.len() > 0 ==> now.arrs =~= Map::<u32, (i64, i64)>::empty());
    assert forall|x: LocalId| (#[trigger] pair(g.c, now, x)) is Some implies pair(g.c, src, x)
        == pair(g.c, now, x) by {
        lemma_first_where(g.c.prebind, crate::lower::is_local(x));
        if now.arrs.dom().contains(x.0) {
        } else {
            let k = first_where(g.c.prebind, crate::lower::is_local(x))->0;
            let d = g.c.prebind[k].1;
            let e = g.c.prebind[k].2;
            lemma_no_phi(g, a, b, src, kept, d);
            lemma_no_phi(g, a, b, src, kept, e);
            assert(!src.arrs.dom().contains(x.0));
        }
    }
}

/// A value that a call defines is no phi.
proof fn lemma_no_phi<H>(
    g: Ground<H>,
    a: BlockId,
    b: BlockId,
    src: Src<H>,
    kept: Map<u32, Value>,
    d: ValueId,
)
    requires
        g.plain(),
        g.c.ir.has_block(b),
        by_call(g.c.ir, d),
        kept == src.vals.restrict((g.c.live)(b)),
        enters(g.c, a, b, src).vals.dom().contains(d.0),
    ensures
        src.vals.dom().contains(d.0),
        enters(g.c, a, b, src).vals[d.0] == src.vals[d.0],
{
    let ir = g.c.ir;
    let n = ir.at(b).phis@.len();
    assert(own_phis(ir, b.0 as usize));
    crate::faithful::lemma_taken_on(ir, a, b, src.vals, kept, n, d.0);
    assert forall|j: int| 0 <= j < n implies !#[trigger] phi_at(ir, b.0 as int, j, d.0) by {
        if phi_at(ir, b.0 as int, j, d.0) {
            assert(ir.at(b).phis@[j].dst == d);
        }
    }
}

/// A function that runs on addresses does what it does on elements: where it gives something
/// back, the run on elements ends, and memory holds the elements that it leaves at their
/// addresses; where it ends with an error, so does the run on elements.
///
/// No two arrays share a byte, no array is made, subscripts are 64-bit integers and are
/// checked, and calls do on elements what they do on addresses.
#[verifier::rlimit(40)]
pub proof fn law_addresses_stand_for_elements<H>(
    g: Ground<H>,
    b: BlockId,
    s: State<Value, Cells>,
    src: Src<H>,
    n: nat,
    span: Span,
)
    requires
        g.plain(),
        g.apart(),
        g.calls_agree(),
        g.agrees(s, src),
        g.c.ir.has_block(b),
        span == (Span { start: 0, end: 0 }),
    ensures
        match performs(g.c, b, src, n, span) {
            End::Returned(_, sc) => call(
                meaning(g.o),
                block_views(g.c.ir.blocks@),
                b,
                s,
                n,
            ) matches Returned::Done(t) && g.holds(t.mem, sc.mem) && t.cell == (g.slot)(sc.host),
            End::Fails(..) => call(
                meaning(g.o),
                block_views(g.c.ir.blocks@),
                b,
                s,
                n,
            ) is Halted,
            _ => true,
        },
    decreases n, 1nat,
{
    if n > 0 {
        let m = meaning(g.o);
        let ir = g.c.ir;
        let data = ir.at(b);
        let blocks = block_views(ir.blocks@);
        assert(blocks[b.0 as int] == data@);
        assert(data@.insts.len() == data.insts@.len());
        lemma_code(g, s, src, b, data.insts@.len(), span);
        if let Act::Done(out) = acts(g.c, src, data.insts@, data.insts@.len(), span) {
            let t = run(m, data@.insts, data@.insts.len(), s)->0;
            match data.term {
                Term::Jump(to, _) => {
                    assert(data.term.targets()[0] == to);
                    lemma_onward(g, b, to, t, out, n, span);
                },
                Term::Branch { cond, t: yes, f: no } => {
                    assert(data.term.targets()[0] == yes && data.term.targets()[1] == no);
                    if out.vals.dom().contains(cond.0) {
                        assert(ValueId(cond.0) == cond);
                        if out.vals[cond.0] == Value::Bool(true) {
                            lemma_onward(g, b, yes, t, out, n, span);
                        } else {
                            lemma_onward(g, b, no, t, out, n, span);
                        }
                    }
                },
                Term::Return(_) => {},
            }
        }
    }
}

/// The rest of a run, from an edge on.
proof fn lemma_onward<H>(
    g: Ground<H>,
    b: BlockId,
    to: BlockId,
    t: State<Value, Cells>,
    out: Src<H>,
    n: nat,
    span: Span,
)
    requires
        g.plain(),
        g.apart(),
        g.calls_agree(),
        g.agrees(t, out),
        g.c.ir.has_block(b),
        g.c.ir.at(b).term.targets().contains(to),
        n > 0,
        span == (Span { start: 0, end: 0 }),
    ensures
        ({
            let next = entered(
                meaning(g.o),
                block_views(g.c.ir.blocks@)[to.0 as int].phis,
                b,
                t,
            );
            match performs(g.c, to, enters(g.c, b, to, out), (n - 1) as nat, span) {
                End::Returned(_, sc) => call(
                    meaning(g.o),
                    block_views(g.c.ir.blocks@),
                    to,
                    next,
                    (n - 1) as nat,
                ) matches Returned::Done(u) && g.holds(u.mem, sc.mem) && u.cell == (g.slot)(sc.host),
                End::Fails(..) => call(
                    meaning(g.o),
                    block_views(g.c.ir.blocks@),
                    to,
                    next,
                    (n - 1) as nat,
                ) is Halted,
                _ => true,
            }
        }),
    decreases n, 0nat,
{
    let ir = g.c.ir;
    let ts = ir.at(b).term.targets();
    let i = choose|i: int| 0 <= i < ts.len() && ts[i] == to;
    assert(ir.has_block(ir.at(b).term.targets()[i]));
    assert(ir.edge(b, to));
    assert(block_views(ir.blocks@)[to.0 as int] == ir.at(to)@);
    lemma_entered(g, t, out, b, to);
    law_addresses_stand_for_elements(
        g,
        to,
        entered(meaning(g.o), ir.at(to)@.phis, b, t),
        enters(g.c, b, to, out),
        (n - 1) as nat,
        span,
    );
}

} // verus!
