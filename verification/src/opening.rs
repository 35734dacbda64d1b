//! Where lowering begins: blocks have their parameters, those of the function have names,
//! and locals that nothing assigns are zero.
use vstd::prelude::*;

use crate::acts::declared;
use crate::clif::{params_below, scalar_ty, CalleeV, ClifTy, Val};
use crate::elements::{lemma_import_wf, lemma_param_wf};
use crate::faithful::{made_in, params_from, prepared};
use crate::functions::{is_param, phi_at};
use crate::ir::{holds_def, holds_inst, BlockId, FuncIr, LocalId, Ty, ValueId};
use crate::lays::{
    lays, lemma_grows_self, lemma_ins, lemma_lays_on, one_result, room, sound, unnamed, within,
};
use crate::lower::{blank, has_def, opened, zero_op, FatPtr, Low};
use crate::search::lemma_first_where;
use crate::twins::single;

verus! {

/// Parameters of blocks are told apart.
spec fn params_apart(l: Low) -> bool {
    forall|b: int, j: int, c: int, k: int, q: Val| #[trigger]
        is_param(l, b, j, q) && #[trigger] is_param(l, c, k, q) ==> b == c && j == k
}

/// Parameters of blocks have the types of their phis.
spec fn params_typed(l: Low) -> bool {
    forall|b: int, j: int|
        #![trigger l.blocks[b].params[j]]
        0 <= b < l.blocks.len() && b != l.ir.entry.0 && 0 <= j < l.blocks[b].params.len() ==> j
            < l.ir.blocks@[b].phis@.len() && l.ty_of(l.blocks[b].params[j]) == scalar_ty(
            l.ir.phi_type(l.ir.blocks@[b].phis@[j]),
        )
}

/// A lowering that gets its parameters.
spec fn opening(l: Low) -> bool {
    &&& l.wf()
    &&& params_apart(l)
    &&& params_typed(l)
    &&& l.repairs == Map::<u32, Val>::empty()
    &&& l.vals == Map::<u32, Val>::empty()
    &&& l.arrays == Map::<u32, FatPtr>::empty()
    &&& l.panic is None
    &&& l.blocks.len() == l.ir.blocks@.len()
    &&& forall|b: int| 0 <= b < l.blocks.len() ==> (#[trigger] l.blocks[b]).insts.len() == 0
}

/// One parameter more.
proof fn lemma_opening_param(l: Low, c: usize, t: ClifTy)
    requires
        opening(l),
        (c as int) < l.blocks.len(),
        l.tys.len() < usize::MAX,
        c != l.ir.entry.0 ==> l.blocks[c as int].params.len() < l.ir.blocks@[c as int].phis@.len()
            && t == scalar_ty(
            l.ir.phi_type(l.ir.blocks@[c as int].phis@[l.blocks[c as int].params.len() as int]),
        ),
    ensures
        opening(l.with_param(c, t)),
        l.with_param(c, t).ir == l.ir,
        l.with_param(c, t).tys.len() == l.tys.len() + 1,
        l.with_param(c, t).cur == l.cur,
        l.with_param(c, t).imports == l.imports,
        l.with_param(c, t).callees == l.callees,
        l.with_param(c, t).prebind == l.prebind,
        l.with_param(c, t).unchecked == l.unchecked,
        l.with_param(c, t).blocks[c as int].params.len() == l.blocks[c as int].params.len() + 1,
        forall|b: int|
            0 <= b < l.blocks.len() && b != c ==> #[trigger] l.with_param(c, t).blocks[b]
                == l.blocks[b],
{
    lemma_param_wf(l, c, t);
    let s = l.with_param(c, t);
    assert forall|b: int, j: int, d: int, k: int, q: Val| #[trigger]
        is_param(s, b, j, q) && #[trigger] is_param(s, d, k, q) implies b == d && j == k by {
        if !(b == c && j == l.blocks[b].params.len()) {
            assert(is_param(l, b, j, q));
            assert(l.has(l.blocks[b].params[j]));
        }
        if !(d == c && k == l.blocks[d].params.len()) {
            assert(is_param(l, d, k, q));
            assert(l.has(l.blocks[d].params[k]));
        }
    }
    assert forall|b: int, j: int|
        #![trigger s.blocks[b].params[j]]
        0 <= b < s.blocks.len() && b != s.ir.entry.0 && 0 <= j < s.blocks[b].params.len() implies j
        < s.ir.blocks@[b].phis@.len() && s.ty_of(s.blocks[b].params[j]) == scalar_ty(
        s.ir.phi_type(s.ir.blocks@[b].phis@[j]),
    ) by {
        if !(b == c && j == l.blocks[b].params.len()) {
            assert(s.blocks[b].params[j] == l.blocks[b].params[j]);
            assert(l.has(l.blocks[b].params[j]));
        }
    }
}

/// How many parameters blocks have.
pub open spec fn phi_count(ir: FuncIr, n: nat) -> nat
    decreases n,
{
    if n == 0 {
        0
    } else {
        phi_count(ir, (n - 1) as nat) + ir.blocks@[n - 1].phis@.len()
    }
}

/// The parameters of a block.
proof fn lemma_opening_block(l: Low, b: usize, k: nat)
    requires
        opening(l),
        (b as int) < l.blocks.len(),
        b != l.ir.entry.0,
        l.blocks[b as int].params.len() == 0,
        k <= l.ir.blocks@[b as int].phis@.len(),
        l.tys.len() + k < usize::MAX,
    ensures
        opening(l.phi_params(b, k)),
        l.phi_params(b, k).ir == l.ir,
        l.phi_params(b, k).tys.len() == l.tys.len() + k,
        l.phi_params(b, k).cur == l.cur,
        l.phi_params(b, k).imports == l.imports,
        l.phi_params(b, k).callees == l.callees,
        l.phi_params(b, k).prebind == l.prebind,
        l.phi_params(b, k).unchecked == l.unchecked,
        l.phi_params(b, k).blocks[b as int].params.len() == k,
        forall|c: int|
            0 <= c < l.blocks.len() && c != b ==> #[trigger] l.phi_params(b, k).blocks[c]
                == l.blocks[c],
    decreases k,
{
    if k > 0 {
        lemma_opening_block(l, b, (k - 1) as nat);
        let p = l.ir.blocks@[b as int].phis@[k - 1];
        let s = l.phi_params(b, (k - 1) as nat);
        lemma_opening_param(s, b, scalar_ty(l.ir.phi_type(p)));
    }
}

/// The parameters of all blocks.
proof fn lemma_opening_all(l: Low, n: nat)
    requires
        opening(l),
        n <= l.ir.blocks@.len() <= u32::MAX,
        l.tys.len() + phi_count(l.ir, n) < usize::MAX,
        forall|b: int| 0 <= b < l.blocks.len() ==> (#[trigger] l.blocks[b]).params.len() == 0,
    ensures
        opening(l.all_phi_params(n)),
        l.all_phi_params(n).ir == l.ir,
        l.all_phi_params(n).tys.len() <= l.tys.len() + phi_count(l.ir, n),
        l.all_phi_params(n).cur == l.cur,
        l.all_phi_params(n).imports == l.imports,
        l.all_phi_params(n).callees == l.callees,
        l.all_phi_params(n).prebind == l.prebind,
        l.all_phi_params(n).unchecked == l.unchecked,
        forall|b: int|
            0 <= b < l.blocks.len() ==> (#[trigger] l.all_phi_params(n).blocks[b]).params.len() == (
            if b < n && b != l.ir.entry.0 {
                l.ir.blocks@[b].phis@.len()
            } else {
                0
            }),
    decreases n,
{
    if n > 0 {
        lemma_opening_all(l, (n - 1) as nat);
        let s = l.all_phi_params((n - 1) as nat);
        if l.ir.entry.0 != n - 1 {
            assert(s.blocks[n - 1].params.len() == 0);
            lemma_opening_block(s, (n - 1) as usize, l.ir.blocks@[n - 1].phis@.len());
            let t = l.all_phi_params(n);
            assert forall|b: int| 0 <= b < l.blocks.len() implies (
            #[trigger] t.blocks[b]).params.len() == (if b < n && b != l.ir.entry.0 {
                l.ir.blocks@[b].phis@.len()
            } else {
                0
            }) by {
                if b != n - 1 {
                    assert(t.blocks[b] == s.blocks[b]);
                }
            }
        }
    }
}

/// The parameters of the function.
proof fn lemma_opening_entry(l: Low, tys: Seq<ClifTy>, k: nat)
    requires
        opening(l),
        k <= tys.len(),
        (l.ir.entry.0 as int) < l.blocks.len(),
        l.blocks[l.ir.entry.0 as int].params.len() == 0,
        l.tys.len() + k < usize::MAX,
    ensures
        opening(l.entry_params(tys, k)),
        l.entry_params(tys, k).ir == l.ir,
        l.entry_params(tys, k).cur == l.cur,
        l.entry_params(tys, k).imports == l.imports,
        l.entry_params(tys, k).callees == l.callees,
        l.entry_params(tys, k).prebind == l.prebind,
        l.entry_params(tys, k).unchecked == l.unchecked,
        l.entry_params(tys, k).tys.len() == l.tys.len() + k,
        l.entry_params(tys, k).blocks[l.ir.entry.0 as int].params.len() == k,
        forall|j: int|
            0 <= j < k ==> (#[trigger] l.entry_params(
                tys,
                k,
            ).blocks[l.ir.entry.0 as int].params[j]).0 >= l.tys.len(),
        forall|b: int|
            0 <= b < l.blocks.len() && b != l.ir.entry.0 ==> #[trigger] l.entry_params(
                tys,
                k,
            ).blocks[b] == l.blocks[b],
    decreases k,
{
    if k > 0 {
        lemma_opening_entry(l, tys, (k - 1) as nat);
        let s = l.entry_params(tys, (k - 1) as nat);
        lemma_opening_param(s, l.ir.entry.0 as usize, tys[k - 1]);
        let t = l.entry_params(tys, k);
        let c = l.ir.entry.0 as int;
        assert forall|j: int| 0 <= j < k implies (#[trigger] t.blocks[c].params[j]).0
            >= l.tys.len() by {
            if j < k - 1 {
                assert(t.blocks[c].params[j] == s.blocks[c].params[j]);
            }
        }
    }
}

/// A machine value is a parameter of the entry.
spec fn of_entry(l: Low, q: Val) -> bool {
    exists|i: int|
        0 <= i < l.blocks[l.ir.entry.0 as int].params.len() && q
            == #[trigger] l.blocks[l.ir.entry.0 as int].params[i]
}

/// The names of parameters: those of the entry, and of nothing else.
proof fn lemma_opening_names(l: Low, k: nat)
    requires
        opening(l),
        (l.ir.entry.0 as int) < l.blocks.len(),
        k <= l.ir.at(l.ir.entry).phis@.len(),
        params_below(l.ir, l.ir.at(l.ir.entry).phis@.len()).len()
            <= l.blocks[l.ir.entry.0 as int].params.len(),
    ensures
        l.bind_params(k) == (Low {
            vals: l.bind_params(k).vals,
            arrays: l.bind_params(k).arrays,
            ..l
        }),
        l.bind_params(k).wf(),
        forall|v: u32| #[trigger]
            l.bind_params(k).vals.dom().contains(v) ==> (exists|j: int|
                0 <= j < k && (#[trigger] l.ir.at(l.ir.entry).phis@[j]).dst.0 == v) && of_entry(
                l,
                l.bind_params(k).vals[v],
            ),
        forall|a: u32| #[trigger]
            l.bind_params(k).arrays.dom().contains(a) ==> (exists|j: int|
                0 <= j < k && (#[trigger] l.ir.at(l.ir.entry).phis@[j]).var.0 == a && l.ir.phi_type(
                    l.ir.at(l.ir.entry).phis@[j],
                ) is Array) && of_entry(l, l.bind_params(k).arrays[a].data) && of_entry(
                l,
                l.bind_params(k).arrays[a].len,
            ),
    decreases k,
{
    if k > 0 {
        lemma_opening_names(l, (k - 1) as nat);
        let s = l.bind_params((k - 1) as nat);
        let t = l.bind_params(k);
        let p = l.ir.at(l.ir.entry).phis@[k - 1];
        let params = l.blocks[l.ir.entry.0 as int].params;
        let c = params_below(l.ir, (k - 1) as nat).len() as int;
        lemma_params_grow(l.ir, k, l.ir.at(l.ir.entry).phis@.len());
        assert(params_below(l.ir, k).len() >= c + 1);
        assert(0 <= c < params.len());
        assert(l.has(l.blocks[l.ir.entry.0 as int].params[c]));
        assert(of_entry(l, params[c]));
        if let Ty::Array(_) = l.ir.phi_type(p) {
            assert(params_below(l.ir, k).len() == c + 2);
            assert(l.has(l.blocks[l.ir.entry.0 as int].params[c + 1]));
            assert(of_entry(l, params[c + 1]));
            assert(p.var.0 == l.ir.at(l.ir.entry).phis@[k - 1].var.0);
        } else {
            assert(p.dst.0 == l.ir.at(l.ir.entry).phis@[k - 1].dst.0);
        }
    }
}

/// More parameters of a function have more machine parameters.
proof fn lemma_params_grow(ir: FuncIr, k: nat, n: nat)
    requires
        k <= n,
    ensures
        params_below(ir, k).len() <= params_below(ir, n).len(),
    decreases n,
{
    if k < n {
        lemma_params_grow(ir, k, (n - 1) as nat);
    }
}

/// A value that no block defines.
proof fn lemma_undefined(ir: FuncIr, v: ValueId)
    requires
        !has_def(ir, v),
    ensures
        ir.def_inst(v) is None,
        forall|b: int, j: int| 0 <= b < ir.blocks@.len() ==> !#[trigger] phi_at(ir, b, j, v.0),
{
    lemma_first_where(ir.blocks@, holds_inst(v));
    if ir.def_inst(v) is Some {
        let b = crate::search::first_where(ir.blocks@, holds_inst(v))->0;
        assert(holds_def(v)(ir.blocks@[b]));
    }
    assert forall|b: int, j: int| 0 <= b < ir.blocks@.len() implies !#[trigger] phi_at(
        ir,
        b,
        j,
        v.0,
    ) by {
        if phi_at(ir, b, j, v.0) {
            assert(ir.blocks@[b].phis@[j].dst == v);
            assert(holds_def(v)(ir.blocks@[b]));
        }
    }
}

/// Zeros of locals that nothing assigns.
proof fn lemma_zero_locals(l: Low, n: nat)
    requires
        sound(l),
        n <= l.ir.n_locals <= u32::MAX,
        room(l, 8 + n as int),
    ensures
        ({
            let s = l.zero_locals(n);
            &&& lays(l, s)
            &&& within(l, s, n as int)
            &&& s.arrays == l.arrays
            &&& s.panic == l.panic
            &&& s.cur == l.cur
            &&& s.blocks.len() == l.blocks.len()
            &&& forall|v: u32| #[trigger]
                s.vals.dom().contains(v) ==> l.vals.dom().contains(v) && s.vals[v] == l.vals[v]
                    || !has_def(l.ir, ValueId(v)) && s.vals[v].0 >= l.tys.len()
        }),
    decreases n,
{
    lemma_grows_self(l);
    if n > 0 {
        lemma_zero_locals(l, (n - 1) as nat);
        let s = l.zero_locals((n - 1) as nat);
        if n - 1 < l.ir.types.val_tys@.len() {
            let t = scalar_ty(l.ir.types.val_tys@[n - 1]);
            lemma_ins(s, zero_op(t), t);
            lemma_lays_on(l, s, s.ins(zero_op(t), t));
        }
    }
}

/// What is asked of parameters and phis: their types are in the table, and no array that is a
/// parameter is made. Where arrays are known by values, none is a parameter and none is made.
pub open spec fn parameters_fit(
    ir: FuncIr,
    prebind: Seq<(LocalId, ValueId, ValueId)>,
) -> bool {
    let phis = ir.at(ir.entry).phis@;
    &&& forall|b: int, j: int|
        #![trigger ir.blocks@[b].phis@[j]]
        0 < b < ir.blocks@.len() && 0 <= j < ir.blocks@[b].phis@.len() ==> ir.phi_type(
            ir.blocks@[b].phis@[j],
        ) == declared(ir, ir.blocks@[b].phis@[j].dst)
    &&& forall|j: int, b: int|
        0 <= j < phis.len() && 0 <= b < ir.blocks@.len() ==> !#[trigger] made_in(
            ir.blocks@[b].insts@,
            ir.blocks@[b].insts@.len(),
            (#[trigger] phis[j]).var.0,
        )
    &&& prebind.len() > 0 ==> (forall|j: int|
        0 <= j < phis.len() ==> !(ir.phi_type(#[trigger] phis[j]) is Array)) && forall|
        b: int,
        a: u32,
    |
        0 <= b < ir.blocks@.len() ==> !#[trigger] made_in(
            ir.blocks@[b].insts@,
            ir.blocks@[b].insts@.len(),
            a,
        )
}

/// A function is opened ready for its first block.
#[verifier::rlimit(40)]
pub proof fn law_functions_open_prepared(
    ir: FuncIr,
    unchecked: bool,
    callees: Seq<CalleeV>,
    prebind: Seq<(LocalId, ValueId, ValueId)>,
    params: Seq<ClifTy>,
)
    requires
        ir.wf(),
        ir.entry == BlockId(0),
        single(ir),
        callees.len() <= usize::MAX,
        one_result(blank(ir, unchecked, callees, prebind)),
        ir.n_locals <= u32::MAX,
        parameters_fit(ir, prebind),
        params_below(ir, ir.at(ir.entry).phis@.len()).len() <= params.len(),
        opened(ir, unchecked, callees, prebind, params) is Ok,
        phi_count(ir, ir.blocks@.len()) + params.len() + ir.n_locals + 64 <= usize::MAX,
        ir.blocks@.len() + ir.n_locals + 64 <= usize::MAX,
    ensures
        prepared(opened(ir, unchecked, callees, prebind, params)->Ok_0),
        ({
            let l0 = opened(ir, unchecked, callees, prebind, params)->Ok_0;
            &&& l0.ir == ir
            &&& l0.unchecked == unchecked
            &&& l0.callees == callees
            &&& l0.prebind == prebind
        }),
{
    let n = ir.blocks@.len();
    let l = blank(ir, unchecked, callees, prebind);
    assert(opening(l)) by {
        assert forall|b: int, j: int, c: int, k: int, q: Val| #[trigger]
            is_param(l, b, j, q) && #[trigger] is_param(l, c, k, q) implies b == c && j == k by {}
    }
    lemma_opening_all(l, n);
    let s0 = l.all_phi_params(n);
    lemma_import_wf(s0, "helix_panic"@);
    let s1 = (s0.import("helix_panic"@)->Ok_0).0;
    let at = s1.at(0);
    assert(opening(at)) by {
        assert forall|b: int, j: int, c: int, k: int, q: Val| #[trigger]
            is_param(at, b, j, q) && #[trigger] is_param(at, c, k, q) implies b == c && j == k by {
            assert(is_param(s0, b, j, q) && is_param(s0, c, k, q));
        }
        assert forall|b: int, j: int|
            #![trigger at.blocks[b].params[j]]
            0 <= b < at.blocks.len() && b != at.ir.entry.0 && 0 <= j
                < at.blocks[b].params.len() implies j < at.ir.blocks@[b].phis@.len() && at.ty_of(
            at.blocks[b].params[j],
        ) == scalar_ty(at.ir.phi_type(at.ir.blocks@[b].phis@[j])) by {
            assert(s0.blocks[b].params[j] == at.blocks[b].params[j]);
        }
    }
    assert(s0.blocks[0].params.len() == 0);
    lemma_opening_entry(at, params, params.len());
    let s2 = at.entry_params(params, params.len());
    let np = ir.at(ir.entry).phis@.len();
    lemma_opening_names(s2, np);
    let s3 = s2.bind_params(np);
    assert(s3.imports.len() <= 1);
    assert(sound(s3));
    lemma_zero_locals(s3, ir.n_locals as nat);
    let s4 = s3.zero_locals(ir.n_locals as nat);
    lemma_prepared_shape(s2, s3, s4);
    assert forall|q: Val| #[trigger] of_entry(s2, q) implies q.0 >= at.tys.len() by {
        let i = choose|i: int|
            0 <= i < s2.blocks[0].params.len() && q == #[trigger] s2.blocks[0].params[i];
        assert(s2.blocks[0].params[i].0 >= at.tys.len());
    }
    assert forall|b: int, j: int, q: Val| #[trigger] is_param(s4, b, j, q) implies q.0
        < at.tys.len() && is_param(s2, b, j, q) by {
        assert(s4.blocks[b] == s3.blocks[b]);
        assert(s2.blocks[b] == at.blocks[b]);
        assert(at.has(at.blocks[b].params[j]));
    }
    assert(unnamed(s4, params_from(s4, 1))) by {
        assert forall|q: Val| q.0 >= at.tys.len() implies !params_from(s4, 1).contains(q) by {
            if params_from(s4, 1).contains(q) {
                let (b, j) = choose|b: int, j: int| 1 <= b && #[trigger] is_param(s4, b, j, q);
                assert(is_param(s4, b, j, q));
            }
        }
        assert forall|v: u32| #[trigger] s4.vals.dom().contains(v) implies s4.vals[v].0
            >= at.tys.len() by {
            if s3.vals.dom().contains(v) && s4.vals[v] == s3.vals[v] {
                assert(of_entry(s2, s3.vals[v]));
            }
        }
    }
    assert forall|v: u32| #[trigger] s4.vals.dom().contains(v) implies ir.def_inst(
        ValueId(v),
    ) is None && (forall|b: int, j: int| 0 < b < n ==> !#[trigger] phi_at(ir, b, j, v)) by {
        if s3.vals.dom().contains(v) && s4.vals[v] == s3.vals[v] {
            let j = choose|j: int| 0 <= j < np && (#[trigger] ir.at(ir.entry).phis@[j]).dst.0 == v;
            assert(ir.at(ir.entry).phis@[j].dst == ValueId(v));
            assert(ir.home(ValueId(v)) == ir.entry);
            assert forall|b: int, i: int| 0 < b < n implies !#[trigger] phi_at(ir, b, i, v) by {
                if phi_at(ir, b, i, v) {
                    let other = BlockId(b as u32);
                    assert(ir.at(other).phis@[i].dst == ValueId(v));
                }
            }
        } else {
            lemma_undefined(ir, ValueId(v));
        }
    }
    assert forall|b: int| 0 < b < n implies (#[trigger] s4.blocks[b]).params.len()
        >= ir.blocks@[b].phis@.len() && s4.blocks[b].insts.len() == 0 by {
        assert(s4.blocks[b] == s3.blocks[b]);
        assert(s2.blocks[b] == at.blocks[b]);
        assert(s0.blocks[b].params.len() == ir.blocks@[b].phis@.len());
    }
    assert forall|b: int, j: int|
        #![trigger ir.blocks@[b].phis@[j]]
        0 < b < n && 0 <= j < ir.blocks@[b].phis@.len() implies s4.ty_of(s4.blocks[b].params[j])
        == scalar_ty(declared(ir, ir.blocks@[b].phis@[j].dst)) by {
        assert(s4.blocks[b] == s3.blocks[b]);
        assert(s4.blocks[b].params.len() >= ir.blocks@[b].phis@.len());
        let q = s2.blocks[b].params[j];
        assert(s2.has(s2.blocks[b].params[j]));
        assert(s4.tys[q.0 as int] == s3.tys[q.0 as int]);
    }
    assert forall|a: u32, b: int|
        #![trigger s4.arrays.dom().contains(a), ir.blocks@[b]]
        s4.arrays.dom().contains(a) && 0 <= b < n implies !made_in(
        ir.blocks@[b].insts@,
        ir.blocks@[b].insts@.len(),
        a,
    ) by {
        let j = choose|j: int|
            0 <= j < np && (#[trigger] ir.at(ir.entry).phis@[j]).var.0 == a && ir.phi_type(
                ir.at(ir.entry).phis@[j],
            ) is Array;
        let phis = ir.at(ir.entry).phis@;
        assert(phis[j].var.0 == a);
    }
    if prebind.len() > 0 {
        assert(s4.arrays =~= Map::<u32, FatPtr>::empty()) by {
            assert forall|a: u32| !s4.arrays.dom().contains(a) by {
                if s4.arrays.dom().contains(a) {
                    assert(s3.arrays.dom().contains(a));
                }
            }
        }
    }
}

/// Names change no parameter.
proof fn lemma_prepared_shape(s2: Low, s3: Low, s4: Low)
    requires
        opening(s2),
        s3 == (Low { vals: s3.vals, arrays: s3.arrays, ..s2 }),
        lays(s3, s4),
        s4.cur == s3.cur,
        s3.cur == 0,
        s2.ir.entry == BlockId(0),
        s4.blocks.len() == s3.blocks.len(),
    ensures
        forall|b: int, j: int, c: int, k: int, q: Val| #[trigger]
            is_param(s4, b, j, q) && #[trigger] is_param(s4, c, k, q) ==> b == c && j == k,
{
    assert forall|b: int, j: int, c: int, k: int, q: Val| #[trigger]
        is_param(s4, b, j, q) && #[trigger] is_param(s4, c, k, q) implies b == c && j == k by {
        assert(s4.blocks[b] == s3.blocks[b] && s4.blocks[c] == s3.blocks[c]);
        assert(is_param(s2, b, j, q) && is_param(s2, c, k, q));
    }
}

} // verus!
