//! The lowering of functions block by block: where blocks begin, and who has which
//! parameter.
use vstd::prelude::*;

use crate::clif::Val;
use crate::ir::{BlockId, FuncIr, Inst, ValueId};
use crate::lower::{Low, SelfUse, Setting};

verus! {

/// The value is defined among the first `k` instructions.
pub open spec fn defined_in(code: Seq<Inst>, k: nat, v: u32) -> bool {
    exists|j: int| 0 <= j < k && (#[trigger] code[j]).def() == Some(ValueId(v))
}

/// Nothing is special about the function: no value is read by its own definition, and no
/// region is handed to the host.
pub open spec fn ordinary(st: Setting) -> bool {
    st.self_uses == Seq::<SelfUse>::empty() && st.hook is None
}

/// The lowering as block `b` begins: its phis are known by its parameters.
pub open spec fn begun(l: Low, b: usize) -> Low {
    if BlockId(b as u32) == l.ir.entry {
        l
    } else {
        l.at(b).bind_phis(b, l.ir.blocks@[b as int].phis@.len())
    }
}

/// A block is begun and filled.
pub proof fn lemma_block(l: Low, st: Setting, b: usize)
    requires
        ordinary(st),
    ensures
        l.block(st, b) == begun(l, b).filled(seq![], None, b),
{
    reveal(Low::block);
    let s0 = if BlockId(b as u32) == l.ir.entry {
        l
    } else {
        l.at(b)
    };
    assert(s0.open_repairs(st.self_uses, b, 0) == s0);
}

/// A phi of the block defines the value.
pub open spec fn phi_at(ir: FuncIr, b: int, j: int, v: u32) -> bool {
    0 <= j < ir.blocks@[b].phis@.len() && ir.blocks@[b].phis@[j].dst.0 == v
}

/// Binding phis names them, and changes nothing else.
pub proof fn lemma_bound(l: Low, b: usize, k: nat)
    requires
        k <= l.ir.blocks@[b as int].phis@.len(),
    ensures
        l.bind_phis(b, k) == (Low { vals: l.bind_phis(b, k).vals, ..l }),
        forall|v: u32|
            #![trigger l.bind_phis(b, k).vals[v]]
            #![trigger l.bind_phis(b, k).vals.dom().contains(v)]
            (exists|j: int|
                0 <= j < k && #[trigger] phi_at(l.ir, b as int, j, v) && l.bind_phis(
                    b,
                    k,
                ).vals.dom().contains(v) && l.bind_phis(b, k).vals[v]
                    == l.blocks[b as int].params[j]) || (l.bind_phis(b, k).vals.dom().contains(v)
                == l.vals.dom().contains(v) && l.bind_phis(b, k).vals[v] == l.vals[v] && forall|
                j: int,
            |
                0 <= j < k ==> !#[trigger] phi_at(l.ir, b as int, j, v)),
    decreases k,
{
    if k > 0 {
        lemma_bound(l, b, (k - 1) as nat);
        let s = l.bind_phis(b, (k - 1) as nat);
        let t = l.bind_phis(b, k);
        let d = l.ir.blocks@[b as int].phis@[k - 1].dst;
        assert forall|v: u32|
            #![trigger t.vals[v]]
            #![trigger t.vals.dom().contains(v)]
            (exists|j: int|
                0 <= j < k && #[trigger] phi_at(l.ir, b as int, j, v) && t.vals.dom().contains(v)
                    && t.vals[v] == l.blocks[b as int].params[j]) || (t.vals.dom().contains(v)
                == l.vals.dom().contains(v) && t.vals[v] == l.vals[v] && forall|j: int|
                0 <= j < k ==> !#[trigger] phi_at(l.ir, b as int, j, v)) by {
            if v == d.0 {
                assert(phi_at(l.ir, b as int, k - 1, v));
            } else {
                assert(t.vals[v] == s.vals[v]);
                assert(t.vals.dom().contains(v) == s.vals.dom().contains(v));
                if exists|j: int|
                    0 <= j < k - 1 && #[trigger] phi_at(l.ir, b as int, j, v)
                        && s.vals.dom().contains(v) && s.vals[v] == l.blocks[b as int].params[j] {
                    let j = choose|j: int|
                        0 <= j < k - 1 && #[trigger] phi_at(l.ir, b as int, j, v)
                            && s.vals.dom().contains(v) && s.vals[v]
                            == l.blocks[b as int].params[j];
                    assert(phi_at(l.ir, b as int, j, v));
                } else {
                    assert forall|j: int| 0 <= j < k implies !#[trigger] phi_at(
                        l.ir,
                        b as int,
                        j,
                        v,
                    ) by {
                        if j < k - 1 {
                        }
                    }
                }
            }
        }
    }
}

/// The parameter belongs to a block that is not the entry.
pub open spec fn is_param(l: Low, b: int, j: int, q: Val) -> bool {
    &&& 0 <= b < l.blocks.len()
    &&& b != l.ir.entry.0
    &&& 0 <= j < l.blocks[b].params.len()
    &&& l.blocks[b].params[j] == q
}

/// The lowering after the first `k` blocks.
pub open spec fn stage(l0: Low, st: Setting, k: nat) -> Low {
    l0.all_blocks(st, k)->Ok_0
}

} // verus!
