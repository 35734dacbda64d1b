//! Captured values: what the body of a region reads from its context is what the header of
//! the region handed to the host.
use vstd::prelude::*;

use crate::body::{load_symbol, BodyParts};
use crate::ctx::{CtxLayout, CTX_ARRAY_BASE, MAX_ARRAY_SLOTS};
use crate::dispatch::{ctx_word, index_of, Tables};
use crate::floats::{FloatOp, FloatWorld, Precision};
use crate::ir::{BlockId, FuncIr, LocalId, ValueId};
use crate::parallel::region_parts;
use crate::plan::RegionKind;
use crate::twins::World;
use crate::value::Value;

verus! {

/// The word that is stashed for a value: integers at full width, floating-point numbers at
/// double precision.
pub open spec fn stash_word(w: FloatWorld, v: Value) -> u64 {
    match v {
        Value::I64(x) => x as u64,
        Value::I32(x) => (x as i64) as u64,
        Value::F64(b) => b,
        Value::F32(b) => (w.ops)(FloatOp::FromOther, Precision::Double, b as u64, 0),
        _ => 0,
    }
}

/// What an import makes of the word that it finds: it cuts integers, and rounds
/// floating-point numbers.
pub open spec fn load_word(w: FloatWorld, name: Seq<char>, word: u64) -> Value {
    if name == "helix_ld_i64"@ {
        Value::I64(word as i64)
    } else if name == "helix_ld_i32"@ {
        Value::I32(word as i32)
    } else if name == "helix_ld_f64"@ {
        Value::F64(word)
    } else {
        Value::F32((w.ops)(FloatOp::FromOther, Precision::Single, word, 0) as u32)
    }
}

/// A single-precision number comes through double precision.
pub open spec fn widens_without_loss(w: FloatWorld) -> bool {
    forall|b: u32|
        (w.ops)(
            FloatOp::FromOther,
            Precision::Single,
            #[trigger] (w.ops)(FloatOp::FromOther, Precision::Double, b as u64, 0),
            0,
        ) as u32 == b
}

/// The value has the width and the kind of its entry.
pub open spec fn shaped_as(v: Value, width: u64, float: bool) -> bool {
    match v {
        Value::I64(_) => width == 8 && !float,
        Value::I32(_) => width == 4 && !float,
        Value::F64(_) => width == 8 && float,
        Value::F32(_) => width == 4 && float,
        _ => false,
    }
}

/// What the host has noted after the first `k` scalars were stashed, each at the word of its
/// offset.
pub open spec fn stashed_scalars(
    scalars: Seq<(u32, u64, bool, i64)>,
    words: Seq<u64>,
    k: nat,
) -> Map<usize, u64>
    decreases k,
{
    if k == 0 {
        Map::empty()
    } else {
        stashed_scalars(scalars, words, (k - 1) as nat).insert(
            index_of((scalars[k - 1].3 / 8) as i64),
            words[k - 1],
        )
    }
}

/// What the host has noted after the first `k` arrays were stashed, each at its slot.
pub open spec fn stashed_arrays(pairs: Seq<(i64, i64)>, k: nat) -> Map<usize, (i64, i64)>
    decreases k,
{
    if k == 0 {
        Map::empty()
    } else {
        stashed_arrays(pairs, (k - 1) as nat).insert(index_of((k - 1) as i64), pairs[k - 1])
    }
}

/// Offsets one behind another: two words for an array, one for a scalar.
pub open spec fn in_place(
    arrays: Seq<(LocalId, i64, i64)>,
    scalars: Seq<(u32, u64, bool, i64)>,
) -> bool {
    &&& arrays.len() <= MAX_ARRAY_SLOTS
    &&& scalars.len() <= 0x1_0000_0000
    &&& forall|k: int|
        0 <= k < arrays.len() ==> (#[trigger] arrays[k]).2 == CTX_ARRAY_BASE + 16 * k
    &&& forall|k: int|
        0 <= k < scalars.len() ==> (#[trigger] scalars[k]).3 == CTX_ARRAY_BASE + 16 * arrays.len()
            + 8 * k
}

/// The size of a context in bytes.
pub open spec fn context_bytes(arrays: nat, scalars: nat) -> int {
    CTX_ARRAY_BASE + 16 * arrays + 8 * scalars
}

proof fn lemma_stashed_scalars(
    scalars: Seq<(u32, u64, bool, i64)>,
    words: Seq<u64>,
    n: nat,
    k: nat,
)
    requires
        k <= scalars.len() <= 0x1_0000_0000,
        n <= MAX_ARRAY_SLOTS,
        usize::MAX > 0x4_0000_0000,
        forall|j: int|
            0 <= j < scalars.len() ==> (#[trigger] scalars[j]).3 == CTX_ARRAY_BASE + 16 * n + 8 * j,
    ensures
        forall|w: usize| #[trigger]
            stashed_scalars(scalars, words, k).dom().contains(w) <==> 2 + 2 * n <= w < 2 + 2 * n
                + k,
        forall|w: usize|
            2 + 2 * n <= w < 2 + 2 * n + k ==> #[trigger] stashed_scalars(scalars, words, k)[w]
                == words[w - 2 - 2 * n],
    decreases k,
{
    if k > 0 {
        lemma_stashed_scalars(scalars, words, n, (k - 1) as nat);
        let off = scalars[k - 1].3;
        assert(off == CTX_ARRAY_BASE + 16 * n + 8 * (k - 1));
        assert(off / 8 == 2 + 2 * n + (k - 1));
        let at = index_of((off / 8) as i64);
        assert(at == 2 + 2 * n + (k - 1));
        let before = stashed_scalars(scalars, words, (k - 1) as nat);
        let now = stashed_scalars(scalars, words, k);
        assert(now == before.insert(at, words[k - 1]));
        assert forall|w: usize| #[trigger] now.dom().contains(w) <==> 2 + 2 * n <= w < 2 + 2 * n
            + k by {
            assert(before.dom().contains(w) <==> 2 + 2 * n <= w < 2 + 2 * n + (k - 1));
        }
        assert forall|w: usize| 2 + 2 * n <= w < 2 + 2 * n + k implies #[trigger] now[w]
            == words[w - 2 - 2 * n] by {
            if w != at {
                assert(before[w] == words[w - 2 - 2 * n]);
            }
        }
    }
}

proof fn lemma_stashed_arrays(pairs: Seq<(i64, i64)>, k: nat)
    requires
        k <= pairs.len() <= MAX_ARRAY_SLOTS,
    ensures
        forall|w: usize| #[trigger] stashed_arrays(pairs, k).dom().contains(w) <==> w < k,
        forall|w: usize| w < k ==> #[trigger] stashed_arrays(pairs, k)[w] == pairs[w as int],
    decreases k,
{
    if k > 0 {
        lemma_stashed_arrays(pairs, (k - 1) as nat);
        let at = index_of((k - 1) as i64);
        assert(at == k - 1);
        let before = stashed_arrays(pairs, (k - 1) as nat);
        let now = stashed_arrays(pairs, k);
        assert(now == before.insert(at, pairs[k - 1]));
        assert forall|w: usize| #[trigger] now.dom().contains(w) <==> w < k by {
            assert(before.dom().contains(w) <==> w < k - 1);
        }
        assert forall|w: usize| w < k implies #[trigger] now[w] == pairs[w as int] by {
            if w != at {
                assert(before[w] == pairs[w as int]);
            }
        }
    }
}

/// The context of a region holds what was stashed: every scalar at the word of its offset,
/// and data and length of every array at the word of its offset and at the next one.
proof fn lemma_words(
    arrays: Seq<(LocalId, i64, i64)>,
    scalars: Seq<(u32, u64, bool, i64)>,
    t: Tables,
    words: Seq<u64>,
    pairs: Seq<(i64, i64)>,
    k: int,
)
    requires
        in_place(arrays, scalars),
        words.len() == scalars.len(),
        pairs.len() == arrays.len(),
        usize::MAX > 0x4_0000_0000,
        t.stash == stashed_scalars(scalars, words, scalars.len()),
        t.stash_arr == stashed_arrays(pairs, arrays.len()),
    ensures
        ({
            let len = context_bytes(arrays.len(), scalars.len());
            &&& 0 <= k < scalars.len() ==> ctx_word(t, len, scalars[k].3 as int / 8) == words[k]
            &&& 0 <= k < arrays.len() ==> ctx_word(t, len, arrays[k].2 as int / 8)
                == pairs[k].0 as u64 && ctx_word(t, len, arrays[k].2 as int / 8 + 1)
                == pairs[k].1 as u64
        }),
{
    let n = arrays.len();
    lemma_stashed_scalars(scalars, words, n, scalars.len());
    lemma_stashed_arrays(pairs, n);
    if 0 <= k < scalars.len() {
        let w = scalars[k].3 as int / 8;
        assert(scalars[k].3 == CTX_ARRAY_BASE + 16 * n + 8 * k);
        assert(w == 2 + 2 * n + k);
        assert(t.stash.dom().contains(w as usize));
    }
    if 0 <= k < arrays.len() {
        let w = arrays[k].2 as int / 8;
        assert(arrays[k].2 == CTX_ARRAY_BASE + 16 * k);
        assert(w == 2 + 2 * k);
        assert((w - 2) / 2 == k && (w + 1 - 2) / 2 == k);
        assert(w % 2 == 0 && (w + 1) % 2 == 1);
        assert(!t.stash.dom().contains(w as usize));
        assert(!t.stash.dom().contains((w + 1) as usize));
        assert(t.stash_arr.dom().contains(k as usize));
    }
}

/// Captured values are read back: where the host has noted exactly what the header of a
/// region stashes, the packed context holds the word of every scalar at its offset, data and
/// length of every array at theirs, and the import that the body calls for a scalar makes of
/// the word the value that was captured.
///
/// Addresses are wider than a context is long.
pub proof fn law_captured_values_are_read_back(
    w: FloatWorld,
    l: CtxLayout,
    t: Tables,
    vals: Seq<Value>,
    pairs: Seq<(i64, i64)>,
    k: int,
)
    requires
        l.packed(),
        usize::MAX > 0x4_0000_0000,
        vals.len() == l.scalars@.len(),
        pairs.len() == l.arrays@.len(),
        widens_without_loss(w),
        forall|j: int|
            #![trigger vals[j]]
            0 <= j < vals.len() ==> shaped_as(vals[j], l.scalars@[j].1, l.scalars@[j].2),
        t.stash == stashed_scalars(
            l.scalars@,
            Seq::new(vals.len(), |j: int| stash_word(w, vals[j])),
            vals.len(),
        ),
        t.stash_arr == stashed_arrays(pairs, pairs.len()),
    ensures
        ({
            let len = context_bytes(l.arrays@.len(), l.scalars@.len());
            &&& 0 <= k < l.scalars@.len() ==> ctx_word(t, len, l.scalars@[k].3 as int / 8)
                == stash_word(w, vals[k]) && load_word(
                w,
                load_symbol(l.scalars@[k].1, l.scalars@[k].2),
                ctx_word(t, len, l.scalars@[k].3 as int / 8),
            ) == vals[k]
            &&& 0 <= k < l.arrays@.len() ==> ctx_word(t, len, l.arrays@[k].2 as int / 8)
                == pairs[k].0 as u64 && ctx_word(t, len, l.arrays@[k].2 as int / 8 + 1)
                == pairs[k].1 as u64
        }),
{
    let words = Seq::new(vals.len(), |j: int| stash_word(w, vals[j]));
    assert(in_place(l.arrays@, l.scalars@));
    lemma_words(l.arrays@, l.scalars@, t, words, pairs, k);
    if 0 <= k < vals.len() {
        lemma_comes_through(w, vals[k], l.scalars@[k].1, l.scalars@[k].2);
    }
}

/// What was stashed for a value is loaded as the value.
proof fn lemma_comes_through(w: FloatWorld, v: Value, width: u64, float: bool)
    requires
        widens_without_loss(w),
        shaped_as(v, width, float),
    ensures
        load_word(w, load_symbol(width, float), stash_word(w, v)) == v,
{
    reveal_strlit("helix_ld_i64");
    reveal_strlit("helix_ld_i32");
    reveal_strlit("helix_ld_f64");
    reveal_strlit("helix_ld_f32");
    assert("helix_ld_i64"@[9] == 'i' && "helix_ld_i32"@[9] == 'i' && "helix_ld_f64"@[9] == 'f'
        && "helix_ld_f32"@[9] == 'f');
    assert("helix_ld_i64"@[10] == '6' && "helix_ld_i32"@[10] == '3' && "helix_ld_f64"@[10] == '6'
        && "helix_ld_f32"@[10] == '3');
    match v {
        Value::I64(x) => {
            assert((x as u64) as i64 == x) by (bit_vector);
        },
        Value::I32(x) => {
            assert(((x as i64) as u64) as i32 == x) by (bit_vector);
        },
        _ => {},
    }
}

/// The imports of a body read a context that was packed from what the header of the region
/// stashed for the values in `base`.
pub open spec fn stashed_context(
    o: World,
    p: BodyParts,
    base: Map<ValueId, Value>,
    ctx: Value,
) -> bool {
    let n = p.scalars.len();
    let len = context_bytes(p.arrays.len(), n);
    &&& usize::MAX > 0x4_0000_0000
    &&& n <= 0x1_0000_0000
    &&& widens_without_loss(o.floats)
    &&& forall|k: int|
        #![trigger p.scalars[k]]
        0 <= k < n ==> shaped_as(
            base[ValueId(p.scalars[k].0)],
            p.scalars[k].1,
            p.scalars[k].2,
        )
    &&& exists|t: Tables, pairs: Seq<(i64, i64)>|
        #![trigger stashed_arrays(pairs, p.arrays.len()), t.stash]
        pairs.len() == p.arrays.len() && t.stash == stashed_scalars(
            p.scalars,
            Seq::new(n, |k: int| stash_word(o.floats, base[ValueId(p.scalars[k].0)])),
            n,
        ) && t.stash_arr == stashed_arrays(pairs, p.arrays.len()) && forall|
            name: Seq<char>,
            off: i64,
        | #[trigger]
            (o.context)(name, ctx, Value::I64(off)) == load_word(
                o.floats,
                name,
                ctx_word(t, len, off as int / 8),
            )
}

/// A body finds in its context what its region captured.
pub proof fn law_bodies_find_what_was_captured(
    o: World,
    ir: FuncIr,
    header: BlockId,
    kind: RegionKind,
    base: Map<ValueId, Value>,
    ctx: Value,
    k: int,
)
    requires
        region_parts(ir, header, kind) is Some,
        stashed_context(o, region_parts(ir, header, kind)->0, base, ctx),
        0 <= k < (region_parts(ir, header, kind)->0).scalars.len(),
    ensures
        ({
            let s = (region_parts(ir, header, kind)->0).scalars[k];
            (o.context)(load_symbol(s.1, s.2), ctx, Value::I64(s.3)) == base[ValueId(s.0)]
        }),
{
    let p = region_parts(ir, header, kind)->0;
    let n = p.scalars.len();
    let len = context_bytes(p.arrays.len(), n);
    let w = o.floats;
    let words = Seq::new(n, |k: int| stash_word(w, base[ValueId(p.scalars[k].0)]));
    let (t, pairs) = choose|t: Tables, pairs: Seq<(i64, i64)>|
        #![trigger stashed_arrays(pairs, p.arrays.len()), t.stash]
        pairs.len() == p.arrays.len() && t.stash == stashed_scalars(p.scalars, words, n)
            && t.stash_arr == stashed_arrays(pairs, p.arrays.len()) && forall|
            name: Seq<char>,
            off: i64,
        | #[trigger]
            (o.context)(name, ctx, Value::I64(off)) == load_word(
                w,
                name,
                ctx_word(t, len, off as int / 8),
            );
    assert(in_place(p.arrays, p.scalars));
    lemma_words(p.arrays, p.scalars, t, words, pairs, k);
    let s = p.scalars[k];
    lemma_comes_through(w, base[ValueId(s.0)], s.1, s.2);
}

} // verus!
