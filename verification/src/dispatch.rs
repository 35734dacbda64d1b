//! The tables behind the dispatch of regions, and the packing of their contexts.
//!
//! Before a dispatch, compiled code stashes every captured scalar under the number of
//! its word and every array under the number of its slot. The dispatcher packs them
//! into one allocation:
//!
//! ```text
//! [ context ][ cell 0 ][ cell 1 ] ...
//! ```
//!
//! Every participant has a cell of its own. The first word of a cell holds the
//! address of the context, the second one the accumulator of the participant.
use std::collections::HashMap;

use vstd::prelude::*;

use crate::floats::{computes, FloatModel, FloatOp, Precision};
use crate::outline::RKind;
use crate::parallel::SpecMeta;
use crate::reduce::ReductionOp;

verus! {

broadcast use vstd::std_specs::hash::group_hash_axioms;

/// Words of one cell.
pub const CELL_WORDS: usize = 16;

/// Word of the context that receives the result of a reduction.
pub const RESULT_WORD: usize = 1;

/// Most participants that cells are made for.
pub const MAX_CELLS: usize = 256;

/// Specs, parked contexts and stashes.
pub struct DispatchTables {
    specs: HashMap<i64, SpecMeta>,
    live: HashMap<i64, Vec<u64>>,
    stash: HashMap<usize, u64>,
    stash_arr: HashMap<usize, (i64, i64)>,
}

/// The tables as mathematical values.
#[verifier::ext_equal]
pub struct Tables {
    pub specs: Map<i64, SpecMeta>,
    pub live: Map<i64, Seq<u64>>,
    pub stash: Map<usize, u64>,
    pub stash_arr: Map<usize, (i64, i64)>,
}

impl View for DispatchTables {
    type V = Tables;

    closed spec fn view(&self) -> Tables {
        Tables {
            specs: self.specs@,
            live: self.live@.map_values(|v: Vec<u64>| v@),
            stash: self.stash@,
            stash_arr: self.stash_arr@,
        }
    }
}

/// A packed context with its cells.
#[derive(Debug)]
pub struct Packed {
    /// The context, then the cells.
    pub mem: Vec<u64>,
    pub ctx_words: usize,
    pub cells: usize,
    /// Bits that the accumulator of every cell starts with.
    pub seed: Option<u64>,
    /// Width in bytes of the accumulator that is read back.
    pub acc_width: Option<u64>,
}

/// The number of a word or slot; one that is negative counts as 0.
pub open spec fn index_of(n: i64) -> usize {
    if n < 0 {
        0
    } else {
        n as usize
    }
}

/// The word at position `w` of a context of `len_bytes` bytes.
pub open spec fn ctx_word(t: Tables, len_bytes: int, w: int) -> u64 {
    let slot = ((w - 2) / 2) as usize;
    if t.stash.dom().contains(w as usize) {
        t.stash[w as usize]
    } else if w >= 2 && t.stash_arr.dom().contains(slot) && 16 + 16 * slot + 8 <= len_bytes {
        if w % 2 == 0 {
            t.stash_arr[slot].0 as u64
        } else {
            t.stash_arr[slot].1 as u64
        }
    } else {
        0
    }
}

/// The seed is what was stashed for it, at its width: an integer is cut, and a
/// floating-point number, which is stashed at double precision, is rounded by `demote`.
pub open spec fn is_seed<D: Fn(u64) -> u64>(
    t: Tables,
    seed: Option<(usize, u64, bool)>,
    demote: D,
    r: Option<u64>,
) -> bool {
    match seed {
        Some((word, width, float)) => if t.stash.dom().contains(word) {
            r matches Some(b) && if width == 4 && float {
                demote.ensures((t.stash[word],), b)
            } else {
                b == low_bytes(t.stash[word], width)
            }
        } else {
            r is None
        },
        None => r is None,
    }
}

/// The low four bytes of a word for a width of 4, the whole word otherwise.
pub open spec fn low_bytes(bits: u64, width: u64) -> u64 {
    if width == 4 {
        bits & 0xffff_ffff
    } else {
        bits
    }
}

/// The low four bytes of a word for a width of 4, the whole word otherwise.
fn cut(bits: u64, width: u64) -> (r: u64)
    ensures
        r == low_bytes(bits, width),
{
    if width == 4 {
        bits & 0xffff_ffff
    } else {
        bits
    }
}

impl DispatchTables {
    /// Empty tables.
    pub fn new() -> (r: Self)
        ensures
            r@ == (Tables {
                specs: Map::empty(),
                live: Map::empty(),
                stash: Map::empty(),
                stash_arr: Map::empty(),
            }),
    {
        let t = DispatchTables {
            specs: HashMap::new(),
            live: HashMap::new(),
            stash: HashMap::new(),
            stash_arr: HashMap::new(),
        };
        proof {
            assert(t@.live =~= Map::<i64, Seq<u64>>::empty());
        }
        t
    }

    /// Records what the dispatcher needs to know of a region.
    pub fn register_spec(&mut self, region_id: i64, meta: SpecMeta)
        ensures
            final(self)@ == (Tables { specs: old(self)@.specs.insert(region_id, meta), ..old(self)@ }),
    {
        self.specs.insert(region_id, meta);
    }

    /// Forgets everything.
    pub fn reset_tables(&mut self)
        ensures
            final(self)@ == (Tables {
                specs: Map::empty(),
                live: Map::empty(),
                stash: Map::empty(),
                stash_arr: Map::empty(),
            }),
    {
        self.specs.clear();
        self.live.clear();
        self.stash.clear();
        self.stash_arr.clear();
        proof {
            assert(self@.live =~= Map::<i64, Seq<u64>>::empty());
        }
    }

    /// Records the captured integer of a word.
    pub fn helix_stash_i(&mut self, word: i64, v: i64)
        ensures
            final(self)@ == (Tables {
                stash: old(self)@.stash.insert(index_of(word), v as u64),
                ..old(self)@
            }),
    {
        let w: usize = if word < 0 { 0 } else { word as usize };
        self.stash.insert(w, v as u64);
    }

    /// Records the bits of the captured floating-point number of a word.
    pub fn helix_stash_f(&mut self, word: i64, bits: u64)
        ensures
            final(self)@ == (Tables {
                stash: old(self)@.stash.insert(index_of(word), bits),
                ..old(self)@
            }),
    {
        let w: usize = if word < 0 { 0 } else { word as usize };
        self.stash.insert(w, bits);
    }

    /// Records data and length of the array of a slot.
    pub fn helix_stash_arr(&mut self, slot: i64, ptr: i64, len: i64)
        ensures
            final(self)@ == (Tables {
                stash_arr: old(self)@.stash_arr.insert(index_of(slot), (ptr, len)),
                ..old(self)@
            }),
    {
        let s: usize = if slot < 0 { 0 } else { slot as usize };
        self.stash_arr.insert(s, (ptr, len));
    }

    /// Packs the context of a region and makes zeroed cells behind it. The stashes are
    /// empty afterwards. `None` where the region was never registered.
    pub fn pack<D: Fn(u64) -> u64>(&mut self, region_id: i64, cells: usize, demote: &D) -> (r: Option<
        Packed,
    >)
        requires
            1 <= cells <= MAX_CELLS,
            forall|bits: u64| #[trigger] demote.requires((bits,)),
            old(self)@.specs.dom().contains(region_id) ==> {
                let len = old(self)@.specs[region_id].len_bytes;
                16 <= len && len % 8 == 0 && len / 8 + cells * CELL_WORDS <= usize::MAX
            },
        ensures
            final(self)@ == (Tables { stash: Map::empty(), stash_arr: Map::empty(), ..old(self)@ }),
            r is Some <==> old(self)@.specs.dom().contains(region_id),
            r matches Some(p) ==> {
                let meta = old(self)@.specs[region_id];
                &&& p.ctx_words == meta.len_bytes / 8
                &&& p.cells == cells
                &&& p.mem@.len() == p.ctx_words + cells * CELL_WORDS
                &&& forall|w: int|
                    0 <= w < p.ctx_words ==> #[trigger] p.mem@[w] == ctx_word(
                        old(self)@,
                        meta.len_bytes as int,
                        w,
                    )
                &&& forall|w: int| p.ctx_words <= w < p.mem@.len() ==> #[trigger] p.mem@[w] == 0
                &&& is_seed(old(self)@, meta.seed, *demote, p.seed)
                &&& p.acc_width == (match meta.acc {
                    Some((width, _)) => Some(width),
                    None => None,
                })
            },
    {
        let ghost before = self@;
        let meta: Option<SpecMeta> = match self.specs.get(&region_id) {
            Some(m) => Some(*m),
            None => None,
        };
        let result = match meta {
            Some(m) => Some(self.pack_known(m, cells, demote)),
            None => None,
        };
        self.stash.clear();
        self.stash_arr.clear();
        result
    }

    /// Packs the context of a registered region.
    #[verifier::rlimit(40)]
    fn pack_known<D: Fn(u64) -> u64>(&self, meta: SpecMeta, cells: usize, demote: &D) -> (p: Packed)
        requires
            1 <= cells <= MAX_CELLS,
            forall|bits: u64| #[trigger] demote.requires((bits,)),
            16 <= meta.len_bytes,
            meta.len_bytes % 8 == 0,
            meta.len_bytes / 8 + cells * CELL_WORDS <= usize::MAX,
        ensures
            p.ctx_words == meta.len_bytes / 8,
            p.cells == cells,
            p.mem@.len() == p.ctx_words + cells * CELL_WORDS,
            forall|w: int|
                0 <= w < p.ctx_words ==> #[trigger] p.mem@[w] == ctx_word(
                    self@,
                    meta.len_bytes as int,
                    w,
                ),
            forall|w: int| p.ctx_words <= w < p.mem@.len() ==> #[trigger] p.mem@[w] == 0,
            is_seed(self@, meta.seed, *demote, p.seed),
            p.acc_width == (match meta.acc {
                Some((width, _)) => Some(width),
                None => None,
            }),
    {
        let ctx_words: usize = (meta.len_bytes / 8) as usize;
        let total: usize = ctx_words + cells * CELL_WORDS;
        let mut mem: Vec<u64> = Vec::new();
        let mut w: usize = 0;
        while w < total
            invariant
                w <= total,
                ctx_words == meta.len_bytes / 8,
                16 <= meta.len_bytes,
                total == ctx_words + cells * CELL_WORDS,
                mem@.len() == w,
                forall|k: int|
                    0 <= k < w && k < ctx_words ==> #[trigger] mem@[k] == ctx_word(
                        self@,
                        meta.len_bytes as int,
                        k,
                    ),
                forall|k: int| ctx_words <= k < w ==> #[trigger] mem@[k] == 0,
            decreases total - w,
        {
            if w < ctx_words {
                let word: u64 = self.word_at(meta.len_bytes, w);
                mem.push(word);
            } else {
                mem.push(0);
            }
            w = w + 1;
        }
        let seed: Option<u64> = match meta.seed {
            Some((word, width, float)) => match self.stash.get(&word) {
                Some(bits) => if width == 4 && float {
                    Some(demote(*bits))
                } else {
                    Some(cut(*bits, width))
                },
                None => None,
            },
            None => None,
        };
        Packed {
            mem,
            ctx_words,
            cells,
            seed,
            acc_width: match meta.acc {
                Some((width, _)) => Some(width),
                None => None,
            },
        }
    }

    /// One word of a context.
    fn word_at(&self, len_bytes: i64, w: usize) -> (r: u64)
        requires
            16 <= len_bytes,
            w < len_bytes / 8,
        ensures
            r == ctx_word(self@, len_bytes as int, w as int),
    {
        if let Some(bits) = self.stash.get(&w) {
            return *bits;
        }
        if w < 2 {
            return 0;
        }
        let slot: usize = (w - 2) / 2;
        match self.stash_arr.get(&slot) {
            Some(a) => {
                let end: i128 = 16 + 16 * (slot as i128) + 8;
                if end > len_bytes as i128 {
                    0
                } else if w % 2 == 0 {
                    a.0 as u64
                } else {
                    a.1 as u64
                }
            },
            None => 0,
        }
    }

    /// Publishes the accumulator of the first cell, where the region is a reduction,
    /// and parks the context under the number of the region.
    pub fn park(&mut self, region_id: i64, packed: Packed)
        requires
            packed.mem@.len() > packed.ctx_words + 1,
            packed.ctx_words > RESULT_WORD,
        ensures
            final(self)@ == (Tables {
                live: old(self)@.live.insert(
                    region_id,
                    match packed.acc_width {
                        Some(width) => packed.mem@.update(
                            RESULT_WORD as int,
                            low_bytes(packed.mem@[packed.ctx_words + 1], width),
                        ),
                        None => packed.mem@,
                    },
                ),
                ..old(self)@
            }),
    {
        let ghost before = self@;
        let ghost live_before = self.live@;
        let Packed { mut mem, ctx_words, acc_width, .. } = packed;
        if let Some(width) = acc_width {
            let words: usize = mem.len();
            assert(ctx_words + 1 < words);
            let total: u64 = cut(mem[ctx_words + 1], width);
            mem.set(RESULT_WORD, total);
        }
        let ghost words = mem@;
        self.live.insert(region_id, mem);
        proof {
            assert(self@.live =~= before.live.insert(region_id, words));
        }
    }

    /// The result word of a parked context; 0 where none is parked.
    fn read_slot(&self, handle: i64) -> (r: u64)
        ensures
            r == (if self@.live.dom().contains(handle) && self@.live[handle].len() > RESULT_WORD {
                self@.live[handle][RESULT_WORD as int]
            } else {
                0
            }),
    {
        match self.live.get(&handle) {
            Some(mem) => if mem.len() > RESULT_WORD {
                mem[RESULT_WORD]
            } else {
                0
            },
            None => 0,
        }
    }

    /// The combined integer of a reduction; 0 where no context is parked.
    pub fn helix_read_i64(&self, handle: i64) -> (r: i64)
        ensures
            r == result_word(self@, handle) as i64,
    {
        self.read_slot(handle) as i64
    }

    /// The combined 32-bit integer of a reduction.
    pub fn helix_read_i32(&self, handle: i64) -> (r: i32)
        ensures
            r == result_word(self@, handle) as i32,
    {
        self.read_slot(handle) as i32
    }

    /// The bits of the combined floating-point number of a reduction.
    pub fn helix_read_bits(&self, handle: i64) -> (r: u64)
        ensures
            r == result_word(self@, handle),
    {
        self.read_slot(handle)
    }
}

/// The result word of a parked context; 0 where none is parked.
pub open spec fn result_word(t: Tables, handle: i64) -> u64 {
    if t.live.dom().contains(handle) && t.live[handle].len() > RESULT_WORD {
        t.live[handle][RESULT_WORD as int]
    } else {
        0
    }
}

impl Packed {
    /// Memory and cells fit each other.
    pub open spec fn wf(self) -> bool {
        self.mem@.len() == self.ctx_words + self.cells * CELL_WORDS
    }

    /// Gives every cell the address of the context and the first value of its
    /// accumulator: the first cell starts from what stood before the loop, the others
    /// from a value that leaves the total as it is.
    #[verifier::rlimit(40)]
    pub fn bind_cells(&mut self, shared_addr: u64, combine: Combine)
        requires
            old(self).wf(),
        ensures
            final(self).wf(),
            final(self).ctx_words == old(self).ctx_words,
            final(self).cells == old(self).cells,
            final(self).seed == old(self).seed,
            final(self).acc_width == old(self).acc_width,
            forall|w: int|
                0 <= w < old(self).ctx_words ==> #[trigger] final(self).mem@[w] == old(self).mem@[w],
            forall|p: int, k: int|
                0 <= p < old(self).cells && 0 <= k < CELL_WORDS
                    ==> #[trigger] final(self).mem@[cell_word(old(self).ctx_words as int, p, k)]
                    == (if k == 0 {
                    shared_addr
                } else if k == 1 && old(self).seed is Some {
                    first_acc(combine, old(self).seed->0, p)
                } else {
                    old(self).mem@[cell_word(old(self).ctx_words as int, p, k)]
                }),
    {
        let ghost start = *self;
        let words: usize = self.mem.len();
        let mut p: usize = 0;
        while p < self.cells
            invariant
                words == self.mem@.len(),
                start.wf(),
                self.wf(),
                self.ctx_words == start.ctx_words,
                self.cells == start.cells,
                self.seed == start.seed,
                self.acc_width == start.acc_width,
                p <= self.cells,
                forall|w: int| 0 <= w < start.ctx_words ==> #[trigger] self.mem@[w] == start.mem@[w],
                forall|q: int, k: int|
                    0 <= q < p && 0 <= k < CELL_WORDS ==> #[trigger] self.mem@[cell_word(
                        start.ctx_words as int,
                        q,
                        k,
                    )] == (if k == 0 {
                        shared_addr
                    } else if k == 1 && start.seed is Some {
                        first_acc(combine, start.seed->0, q)
                    } else {
                        start.mem@[cell_word(start.ctx_words as int, q, k)]
                    }),
                forall|q: int, k: int|
                    p <= q < start.cells && 0 <= k < CELL_WORDS ==> #[trigger] self.mem@[cell_word(
                        start.ctx_words as int,
                        q,
                        k,
                    )] == start.mem@[cell_word(start.ctx_words as int, q, k)],
            decreases self.cells - p,
        {
            proof {
                assert(p * CELL_WORDS + CELL_WORDS <= self.cells * CELL_WORDS) by (nonlinear_arith)
                    requires
                        p < self.cells,
                ;
            }
            let at: usize = self.ctx_words + p * CELL_WORDS;
            self.mem.set(at, shared_addr);
            if let Some(bits) = self.seed {
                let first: u64 = if p == 0 {
                    bits
                } else {
                    neutral_bits(combine, bits)
                };
                self.mem.set(at + 1, first);
            }
            p = p + 1;
        }
    }

    /// Combines the accumulators of the first `parts` cells, in their order, into that of
    /// the first cell.
    pub fn gather<F: Fn(FloatOp, Precision, u64, u64) -> u64>(
        &mut self,
        parts: usize,
        combine: Combine,
        float: &F,
    )
        requires
            old(self).wf(),
            1 <= parts <= old(self).cells,
            forall|op: FloatOp, p: Precision, a: u64, b: u64| #[trigger]
                float.requires((op, p, a, b)),
        ensures
            final(self).wf(),
            final(self).ctx_words == old(self).ctx_words,
            final(self).cells == old(self).cells,
            final(self).seed == old(self).seed,
            final(self).acc_width == old(self).acc_width,
            forall|w: int|
                0 <= w < old(self).mem@.len() && w != old(self).ctx_words + 1
                    ==> #[trigger] final(self).mem@[w] == old(self).mem@[w],
            forall|g: FloatModel|
                computes(*float, g) || !floating(combine) ==> final(self).mem@[old(self).ctx_words
                    + 1] == #[trigger] total(
                    combine,
                    g,
                    old(self).mem@,
                    old(self).ctx_words as int,
                    parts as nat,
                ),
    {
        let ghost start = *self;
        let words: usize = self.mem.len();
        proof {
            assert(CELL_WORDS <= self.cells * CELL_WORDS) by (nonlinear_arith)
                requires
                    self.cells >= 1,
            ;
        }
        let first: usize = self.ctx_words + 1;
        let mut p: usize = 1;
        while p < parts
            invariant
                1 <= p <= parts <= start.cells,
                words == self.mem@.len() == start.mem@.len(),
                start.wf(),
                self.wf(),
                self.ctx_words == start.ctx_words,
                self.cells == start.cells,
                self.seed == start.seed,
                self.acc_width == start.acc_width,
                first == start.ctx_words + 1,
                first < words,
                forall|op: FloatOp, p: Precision, a: u64, b: u64| #[trigger]
                    float.requires((op, p, a, b)),
                forall|w: int|
                    0 <= w < start.mem@.len() && w != first ==> #[trigger] self.mem@[w]
                        == start.mem@[w],
                forall|g: FloatModel|
                    computes(*float, g) || !floating(combine) ==> self.mem@[first as int]
                        == #[trigger] total(
                        combine,
                        g,
                        start.mem@,
                        start.ctx_words as int,
                        p as nat,
                    ),
            decreases parts - p,
        {
            proof {
                assert(p * CELL_WORDS + CELL_WORDS <= self.cells * CELL_WORDS) by (nonlinear_arith)
                    requires
                        p < self.cells,
                ;
                assert(p * CELL_WORDS >= CELL_WORDS) by (nonlinear_arith)
                    requires
                        p >= 1,
                ;
            }
            let other: usize = self.ctx_words + p * CELL_WORDS + 1;
            let (a, b): (u64, u64) = (self.mem[first], self.mem[other]);
            let c: u64 = combine_bits(combine, a, b, float);
            self.mem.set(first, c);
            let ghost q = p as int;
            p = p + 1;
            proof {
                assert(other == cell_word(start.ctx_words as int, q, 1));
                assert forall|g: FloatModel|
                    computes(*float, g) || !floating(combine) implies self.mem@[first as int]
                    == #[trigger] total(
                    combine,
                    g,
                    start.mem@,
                    start.ctx_words as int,
                    p as nat,
                ) by {
                    assert(a == total(
                        combine,
                        g,
                        start.mem@,
                        start.ctx_words as int,
                        q as nat,
                    ));
                    assert(c == combined_bits(combine, g, a, b));
                }
            }
        }
    }
}

/// The accumulators of the first `n` cells combined in their order.
pub open spec fn total(c: Combine, g: FloatModel, mem: Seq<u64>, ctx_words: int, n: nat) -> u64
    decreases n,
{
    if n <= 1 {
        mem[ctx_words + 1]
    } else {
        combined_bits(
            c,
            g,
            total(c, g, mem, ctx_words, (n - 1) as nat),
            mem[cell_word(ctx_words, n - 1, 1)],
        )
    }
}

/// Position of word `k` of cell `p`.
pub open spec fn cell_word(ctx_words: int, p: int, k: int) -> int {
    ctx_words + p * CELL_WORDS + k
}

/// How many cells are made for a machine with this parallelism.
pub fn cell_count(parallelism: usize) -> (r: usize)
    ensures
        r == (if parallelism < 1 {
            1
        } else if parallelism > MAX_CELLS {
            MAX_CELLS
        } else {
            parallelism
        }),
{
    if parallelism < 1 {
        1
    } else if parallelism > MAX_CELLS {
        MAX_CELLS
    } else {
        parallelism
    }
}

/// How many threads a region runs on: what the environment allows, or else what is asked
/// for; at least one, and no more than the machine has.
pub open spec fn budget(hint: i64, cap: Option<u64>, hw: usize) -> int {
    let most = if hw < 1 {
        1
    } else {
        hw as int
    };
    let wanted = match cap {
        Some(n) => n as int,
        None => hint as int,
    };
    if wanted < 1 {
        1
    } else if wanted > most {
        most
    } else {
        wanted
    }
}

/// How many threads a region runs on.
pub fn thread_budget(hint: i64, cap: Option<u64>, hw: usize) -> (r: usize)
    ensures
        r == budget(hint, cap, hw),
{
    let most: i128 = if hw < 1 {
        1
    } else {
        hw as i128
    };
    let wanted: i128 = match cap {
        Some(n) => n as i128,
        None => hint as i128,
    };
    if wanted < 1 {
        1
    } else if wanted > most {
        most as usize
    } else {
        wanted as usize
    }
}

// ---------------------------------------------------------------------------
// Combining
// ---------------------------------------------------------------------------

/// What a combine function works on.
#[derive(Clone, Copy, Debug, PartialEq, Eq, Structural)]
pub enum CombineTy {
    I32,
    I64,
    F32,
    F64,
}

/// The combine function of a region: none, or an operator at a type.
#[derive(Clone, Copy, Debug, PartialEq, Eq, Structural)]
pub enum Combine {
    Noop,
    Of(ReductionOp, CombineTy),
}

/// The bits that leave a total as it is when they are combined with it, where the total
/// started from `seed`: zero for sums (negative zero, for floating-point numbers), one
/// for products, and the seed itself for the least and the greatest.
pub open spec fn neutral(c: Combine, seed: u64) -> u64 {
    match c {
        Combine::Of(ReductionOp::Add, CombineTy::I32) => 0,
        Combine::Of(ReductionOp::Add, CombineTy::I64) => 0,
        Combine::Of(ReductionOp::Add, CombineTy::F32) => 0x8000_0000,
        Combine::Of(ReductionOp::Add, CombineTy::F64) => 0x8000_0000_0000_0000,
        Combine::Of(ReductionOp::Mul, CombineTy::I32) => 1,
        Combine::Of(ReductionOp::Mul, CombineTy::I64) => 1,
        Combine::Of(ReductionOp::Mul, CombineTy::F32) => 0x3f80_0000,
        Combine::Of(ReductionOp::Mul, CombineTy::F64) => 0x3ff0_0000_0000_0000,
        _ => seed,
    }
}

/// The bits that leave a total as it is.
fn neutral_bits(c: Combine, seed: u64) -> (r: u64)
    ensures
        r == neutral(c, seed),
{
    match c {
        Combine::Of(ReductionOp::Add, t) => match t {
            CombineTy::F32 => 0x8000_0000,
            CombineTy::F64 => 0x8000_0000_0000_0000,
            _ => 0,
        },
        Combine::Of(ReductionOp::Mul, t) => match t {
            CombineTy::F32 => 0x3f80_0000,
            CombineTy::F64 => 0x3ff0_0000_0000_0000,
            _ => 1,
        },
        _ => seed,
    }
}

/// What the accumulator of cell `p` starts from.
pub open spec fn first_acc(c: Combine, seed: u64, p: int) -> u64 {
    if p == 0 {
        seed
    } else {
        neutral(c, seed)
    }
}

/// The combine function of a region. A reduction has accumulators of 4 or 8 bytes.
pub open spec fn combined_by(kind: RKind) -> Combine {
    match kind {
        RKind::DoAll => Combine::Noop,
        RKind::Reduction(s) => if s.width == 8 {
            Combine::Of(
                s.op,
                if s.float {
                    CombineTy::F64
                } else {
                    CombineTy::I64
                },
            )
        } else if s.width == 4 {
            Combine::Of(
                s.op,
                if s.float {
                    CombineTy::F32
                } else {
                    CombineTy::I32
                },
            )
        } else {
            Combine::Noop
        },
    }
}

/// The combine function of a region.
pub fn combine_for(kind: RKind) -> (r: Combine)
    ensures
        r == combined_by(kind),
{
    match kind {
        RKind::DoAll => Combine::Noop,
        RKind::Reduction(s) => if s.width == 8 {
            if s.float {
                Combine::Of(s.op, CombineTy::F64)
            } else {
                Combine::Of(s.op, CombineTy::I64)
            }
        } else if s.width == 4 {
            if s.float {
                Combine::Of(s.op, CombineTy::F32)
            } else {
                Combine::Of(s.op, CombineTy::I32)
            }
        } else {
            Combine::Noop
        },
    }
}

/// Two 64-bit integers combined; sums and products wrap around.
pub open spec fn combined_i64(op: ReductionOp, a: i64, b: i64) -> i64 {
    match op {
        ReductionOp::Add => a.wrapping_add(b),
        ReductionOp::Mul => a.wrapping_mul(b),
        ReductionOp::Min => if b < a {
            b
        } else {
            a
        },
        ReductionOp::Max => if b > a {
            b
        } else {
            a
        },
    }
}

/// Combines two 64-bit integers.
pub fn combine_i64(op: ReductionOp, a: i64, b: i64) -> (r: i64)
    ensures
        r == combined_i64(op, a, b),
{
    match op {
        ReductionOp::Add => a.wrapping_add(b),
        ReductionOp::Mul => a.wrapping_mul(b),
        ReductionOp::Min => if b < a {
            b
        } else {
            a
        },
        ReductionOp::Max => if b > a {
            b
        } else {
            a
        },
    }
}

/// Two 32-bit integers combined; sums and products wrap around.
pub open spec fn combined_i32(op: ReductionOp, a: i32, b: i32) -> i32 {
    match op {
        ReductionOp::Add => a.wrapping_add(b),
        ReductionOp::Mul => a.wrapping_mul(b),
        ReductionOp::Min => if b < a {
            b
        } else {
            a
        },
        ReductionOp::Max => if b > a {
            b
        } else {
            a
        },
    }
}

/// Combines two 32-bit integers.
pub fn combine_i32(op: ReductionOp, a: i32, b: i32) -> (r: i32)
    ensures
        r == combined_i32(op, a, b),
{
    match op {
        ReductionOp::Add => a.wrapping_add(b),
        ReductionOp::Mul => a.wrapping_mul(b),
        ReductionOp::Min => if b < a {
            b
        } else {
            a
        },
        ReductionOp::Max => if b > a {
            b
        } else {
            a
        },
    }
}

/// The combine function works on floating-point numbers.
pub open spec fn floating(c: Combine) -> bool {
    c matches Combine::Of(_, t) && (t is F32 || t is F64)
}

/// The operation that combines floating-point numbers.
pub open spec fn float_of(op: ReductionOp) -> FloatOp {
    match op {
        ReductionOp::Add => FloatOp::Add,
        ReductionOp::Mul => FloatOp::Mul,
        ReductionOp::Min => FloatOp::Min,
        ReductionOp::Max => FloatOp::Max,
    }
}

/// The bits of two accumulators combined. Without a combine function the first stays.
pub open spec fn combined_bits(c: Combine, g: FloatModel, a: u64, b: u64) -> u64 {
    match c {
        Combine::Noop => a,
        Combine::Of(op, CombineTy::I64) => combined_i64(op, a as i64, b as i64) as u64,
        Combine::Of(op, CombineTy::I32) => (combined_i32(op, a as i32, b as i32) as u32) as u64,
        Combine::Of(op, CombineTy::F64) => g(float_of(op), Precision::Double, a, b),
        Combine::Of(op, CombineTy::F32) => g(float_of(op), Precision::Single, a, b),
    }
}

/// Combines the bits of two accumulators.
pub fn combine_bits<F: Fn(FloatOp, Precision, u64, u64) -> u64>(
    c: Combine,
    a: u64,
    b: u64,
    float: &F,
) -> (r: u64)
    requires
        forall|op: FloatOp, p: Precision, a: u64, b: u64| #[trigger] float.requires((op, p, a, b)),
    ensures
        forall|g: FloatModel|
            computes(*float, g) || !floating(c) ==> r == #[trigger] combined_bits(c, g, a, b),
{
    let (op, t): (ReductionOp, CombineTy) = match c {
        Combine::Noop => {
            return a;
        },
        Combine::Of(op, t) => (op, t),
    };
    let f: FloatOp = match op {
        ReductionOp::Add => FloatOp::Add,
        ReductionOp::Mul => FloatOp::Mul,
        ReductionOp::Min => FloatOp::Min,
        ReductionOp::Max => FloatOp::Max,
    };
    match t {
        CombineTy::I64 => combine_i64(op, a as i64, b as i64) as u64,
        CombineTy::I32 => (combine_i32(op, a as i32, b as i32) as u32) as u64,
        CombineTy::F64 => float(f, Precision::Double, a, b),
        CombineTy::F32 => float(f, Precision::Single, a, b),
    }
}

} // verus!
