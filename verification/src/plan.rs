//! Verdicts, per-loop reports and the parallelization plan.
//!
//! Per loop, in this order:
//! 1. Side effects make a loop sequential.
//! 2. A shape that is not a counting loop makes it sequential.
//! 3. The dependence battery runs over every two accesses to one array of which at
//!    least one writes, and over every write and itself. Two touches in one iteration
//!    are harmless; every other dependence becomes an edge. A write whose subscript
//!    cannot be analyzed is not held against itself: it is taken to move.
//! 4. Edges on the accumulator of a recognized reduction are dropped.
//! 5. Any edge that is left makes the loop sequential; otherwise it is a reduction
//!    where one was recognized, and else free of dependences.
use vstd::prelude::*;

use crate::access::{accesses_of, collect, inst_count, touch_views, Access, Touch};
use crate::canon::{canon, canonical, Bound, CanonicalLoop};
use crate::deps::{
    battery_fits, dimension_depends, dimension_dirs, dimension_distance, dimensions_depend,
    distances_fit, fits_battery, pair_dirs, pair_distance, test_pair, Affine, DepOutcome, Dir,
    DirVec, IterRange,
};
use crate::ir::{BlockData, BlockId, Call, FuncIr, Inst, LocalId};
use crate::loops::{covers, has_members, Loop, LoopInfo};
use crate::reduce::{find_reductions, reductions, Recognized, ReductionOp};
use crate::search::{first_where, lemma_first_where_is, lemma_first_where_none};
use crate::text::{
    integer_text, is_text, join, joined, lemma_texts_push, natural_text,
    push_integer, push_natural, push_text, texts,
};

verus! {

/// A recognized reduction with the source name of its variable.
#[derive(Debug)]
pub struct Reduction {
    pub op: ReductionOp,
    pub var: String,
}

/// One dependence between iterations.
#[derive(Debug)]
pub struct DepEdge {
    /// Label for display, such as `RAW on 'a'`.
    pub kind_label: String,
    /// Name of the array.
    pub array: String,
    /// The distance, where it is the same for every two iterations.
    pub distance: Option<i64>,
    /// Depth of the loop that carries the edge.
    pub level: u32,
    /// The directions, such as `>`; `*` where nothing is known.
    pub direction: String,
    pub explain: String,
}

/// What may be done with one loop.
#[derive(Debug)]
pub enum Verdict {
    /// Iterations are independent.
    SafeParallel,
    /// Iterations are independent but for an associative accumulation.
    ReductionParallel(Reduction),
    /// The loop stays sequential, for this reason.
    Sequential(String),
}

/// Everything known of one loop.
#[derive(Debug)]
pub struct LoopReport {
    pub loop_id: usize,
    pub depth: u32,
    /// Header block, written `bbN`.
    pub header: String,
    /// All blocks, written `bbN`.
    pub blocks: Vec<String>,
    /// Name of the induction variable of a counting loop.
    pub iv: Option<String>,
    /// Start and end of a counting loop.
    pub bounds: Option<(String, String)>,
    /// Accesses, written `READ a[i]` and `WRITE out[i]`.
    pub accesses: Vec<String>,
    pub raw_deps: Vec<DepEdge>,
    pub war_deps: Vec<DepEdge>,
    pub waw_deps: Vec<DepEdge>,
    /// Remarks. Any remark keeps the loop sequential.
    pub notes: Vec<String>,
    pub verdict: Verdict,
}

/// An edge as mathematical values.
pub struct Edge {
    pub kind_label: Seq<char>,
    pub array: Seq<char>,
    pub distance: Option<i64>,
    pub level: u32,
    pub direction: Seq<char>,
    pub explain: Seq<char>,
}

impl View for DepEdge {
    type V = Edge;

    open spec fn view(&self) -> Edge {
        Edge {
            kind_label: self.kind_label@,
            array: self.array@,
            distance: self.distance,
            level: self.level,
            direction: self.direction@,
            explain: self.explain@,
        }
    }
}

/// Views of edges.
pub open spec fn edges(s: Seq<DepEdge>) -> Seq<Edge> {
    s.map_values(|e: DepEdge| e@)
}

/// A verdict as mathematical values.
pub enum Judgement {
    Safe,
    Reduces { op: ReductionOp, var: Seq<char> },
    Stays { reason: Seq<char> },
}

impl View for Verdict {
    type V = Judgement;

    open spec fn view(&self) -> Judgement {
        match self {
            Verdict::SafeParallel => Judgement::Safe,
            Verdict::ReductionParallel(r) => Judgement::Reduces { op: r.op, var: r.var@ },
            Verdict::Sequential(reason) => Judgement::Stays { reason: reason@ },
        }
    }
}

/// A report as mathematical values.
#[verifier::ext_equal]
pub struct Findings {
    pub loop_id: int,
    pub depth: u32,
    pub header: Seq<char>,
    pub blocks: Seq<Seq<char>>,
    pub iv: Option<Seq<char>>,
    pub bounds: Option<(Seq<char>, Seq<char>)>,
    pub accesses: Seq<Seq<char>>,
    pub raw_deps: Seq<Edge>,
    pub war_deps: Seq<Edge>,
    pub waw_deps: Seq<Edge>,
    pub notes: Seq<Seq<char>>,
    pub verdict: Judgement,
}

impl View for LoopReport {
    type V = Findings;

    open spec fn view(&self) -> Findings {
        Findings {
            loop_id: self.loop_id as int,
            depth: self.depth,
            header: self.header@,
            blocks: texts(self.blocks@),
            iv: match self.iv {
                Some(s) => Some(s@),
                None => None,
            },
            bounds: match self.bounds {
                Some((a, b)) => Some((a@, b@)),
                None => None,
            },
            accesses: texts(self.accesses@),
            raw_deps: edges(self.raw_deps@),
            war_deps: edges(self.war_deps@),
            waw_deps: edges(self.waw_deps@),
            notes: texts(self.notes@),
            verdict: self.verdict@,
        }
    }
}

// ---------------------------------------------------------------------------
// Texts
// ---------------------------------------------------------------------------

/// The source name of a local, `?` where it has none.
pub open spec fn name_of(func: FuncIr, l: LocalId) -> Seq<char> {
    if (l.0 as int) < func.types.local_names@.len() {
        func.types.local_names@[l.0 as int]@
    } else {
        "?"@
    }
}

/// The source name of a local, `?` where it has none.
fn local_name(func: &FuncIr, l: LocalId) -> (r: String)
    ensures
        r@ == name_of(*func, l),
{
    if (l.0 as usize) < func.types.local_names.len() {
        func.types.local_names[l.0 as usize].clone()
    } else {
        "?".to_owned()
    }
}

/// `a*iv + b` as reports show subscripts.
pub open spec fn affine_text(f: Affine, iv: Seq<char>) -> Seq<char> {
    let c = f.b as int;
    if f.a == 0 {
        integer_text(c)
    } else if f.a == 1 {
        if c == 0 {
            iv
        } else if c > 0 {
            iv + " + "@ + integer_text(c)
        } else {
            iv + " - "@ + integer_text(-c)
        }
    } else if f.a == -1 {
        if c == 0 {
            "-"@ + iv
        } else if c > 0 {
            integer_text(c) + " - "@ + iv
        } else {
            "-"@ + iv + " - "@ + integer_text(-c)
        }
    } else {
        let term = integer_text(f.a as int) + "*"@ + iv;
        if c == 0 {
            term
        } else if c > 0 {
            term + " + "@ + integer_text(c)
        } else {
            term + " - "@ + integer_text(-c)
        }
    }
}

/// Appends ` + c` or ` - |c|`; nothing for 0.
fn push_offset(s: &mut String, c: i128)
    ensures
        final(s)@ == (if c == 0 {
            old(s)@
        } else if c > 0 {
            old(s)@ + " + "@ + integer_text(c as int)
        } else {
            old(s)@ + " - "@ + integer_text(-c)
        }),
{
    if c > 0 {
        push_text(s, " + ");
        push_integer(s, c);
    } else if c < 0 {
        push_text(s, " - ");
        let magnitude: u128 = (-(c + 1)) as u128 + 1;
        push_natural(s, magnitude);
    }
}

/// `a*iv + b` as reports show subscripts.
fn render_affine(f: Affine, iv: &String) -> (r: String)
    ensures
        r@ == affine_text(f, iv@),
{
    let mut s = String::new();
    if f.a == 0 {
        push_integer(&mut s, f.b);
        assert(s@ =~= integer_text(f.b as int));
        return s;
    }
    if f.a == 1 {
        let mut t = iv.clone();
        push_offset(&mut t, f.b);
        return t;
    }
    if f.a == -1 {
        if f.b > 0 {
            push_integer(&mut s, f.b);
            assert(s@ =~= integer_text(f.b as int));
            push_text(&mut s, " - ");
            push_text(&mut s, iv.as_str());
            return s;
        }
        let mut t = "-".to_owned();
        push_text(&mut t, iv.as_str());
        push_offset(&mut t, f.b);
        return t;
    }
    push_integer(&mut s, f.a);
    assert(s@ =~= integer_text(f.a as int));
    push_text(&mut s, "*");
    push_text(&mut s, iv.as_str());
    push_offset(&mut s, f.b);
    s
}

/// The text of a bound; a value that is not constant is written `n`.
pub open spec fn bound_text_of(b: Bound) -> Seq<char> {
    match b {
        Bound::Const(c) => integer_text(c as int),
        Bound::Sym(_) => "n"@,
    }
}

/// The text of a bound.
fn bound_text(b: &Bound) -> (r: String)
    ensures
        r@ == bound_text_of(*b),
{
    match b {
        Bound::Const(c) => {
            let mut s = String::new();
            push_integer(&mut s, *c as i128);
            assert(s@ =~= integer_text(*c as int));
            s
        },
        Bound::Sym(_) => "n".to_owned(),
    }
}

/// A block, written `bbN`.
pub open spec fn block_text(b: BlockId) -> Seq<char> {
    "bb"@ + natural_text(b.0 as nat)
}

/// A block, written `bbN`.
fn render_block(b: BlockId) -> (r: String)
    ensures
        r@ == block_text(b),
{
    let mut s = "bb".to_owned();
    push_natural(&mut s, b.0 as u128);
    s
}

/// One access, written `READ a[i]` or `WRITE a[i]`.
pub open spec fn access_text(func: FuncIr, t: Touch, iv: Seq<char>) -> Seq<char> {
    (if t.is_write {
        "WRITE "@
    } else {
        "READ "@
    }) + name_of(func, t.arr) + "["@ + (match t.affine {
        Some(f) => affine_text(f, iv),
        None => "?"@,
    }) + "]"@
}

/// One access, written `READ a[i]` or `WRITE a[i]`.
fn render_access(func: &FuncIr, a: &Access, iv: &String) -> (r: String)
    ensures
        r@ == access_text(*func, a@, iv@),
{
    let mut s = if a.is_write {
        "WRITE ".to_owned()
    } else {
        "READ ".to_owned()
    };
    let name = local_name(func, a.arr);
    push_text(&mut s, name.as_str());
    push_text(&mut s, "[");
    match a.affine {
        Some(f) => {
            let t = render_affine(f, iv);
            push_text(&mut s, t.as_str());
        },
        None => {
            push_text(&mut s, "?");
        },
    }
    push_text(&mut s, "]");
    s
}

/// The verdict at the end of a summary.
pub open spec fn verdict_text(j: Judgement) -> Seq<char> {
    match j {
        Judgement::Safe => "SAFE"@,
        Judgement::Reduces { op, .. } => "REDUCTION("@ + op.spelling() + ")"@,
        Judgement::Stays { reason } => "SEQUENTIAL ("@ + reason + ")"@,
    }
}

impl Findings {
    /// The one-line summary, such as `Loop #1: RAW 0 / WAR 0 / WAW 0 => SAFE`.
    pub open spec fn summary(self) -> Seq<char> {
        "Loop #"@ + natural_text((self.loop_id + 1) as nat) + ": RAW "@ + natural_text(
            self.raw_deps.len(),
        ) + " / WAR "@ + natural_text(self.war_deps.len()) + " / WAW "@ + natural_text(
            self.waw_deps.len(),
        ) + " => "@ + verdict_text(self.verdict)
    }
}

impl LoopReport {
    /// The one-line summary, such as `Loop #1: RAW 0 / WAR 0 / WAW 0 => SAFE`.
    pub fn summary_line(&self) -> (r: String)
        ensures
            r@ == self@.summary(),
    {
        let mut s = "Loop #".to_owned();
        push_natural(&mut s, self.loop_id as u128 + 1);
        push_text(&mut s, ": RAW ");
        push_natural(&mut s, self.raw_deps.len() as u128);
        push_text(&mut s, " / WAR ");
        push_natural(&mut s, self.war_deps.len() as u128);
        push_text(&mut s, " / WAW ");
        push_natural(&mut s, self.waw_deps.len() as u128);
        push_text(&mut s, " => ");
        let verdict = match &self.verdict {
            Verdict::SafeParallel => "SAFE".to_owned(),
            Verdict::ReductionParallel(r) => {
                let mut t = "REDUCTION(".to_owned();
                push_text(&mut t, r.op.symbol());
                push_text(&mut t, ")");
                t
            },
            Verdict::Sequential(reason) => {
                let mut t = "SEQUENTIAL (".to_owned();
                push_text(&mut t, reason.as_str());
                push_text(&mut t, ")");
                t
            },
        };
        push_text(&mut s, verdict.as_str());
        s
    }
}

// ---------------------------------------------------------------------------
// Side effects
// ---------------------------------------------------------------------------

/// The callee is part of the language.
pub open spec fn is_builtin(name: Seq<char>) -> bool {
    name == "min"@ || name == "max"@ || name == "sqrt"@ || name == "abs"@ || name == "len"@ || name
        == "zeros"@ || name == "print"@
}

/// The instruction prints.
pub open spec fn inst_prints(inst: Inst) -> bool {
    match inst {
        Inst::Call(c) => c.callee@ == "print"@,
        _ => false,
    }
}

/// The block prints.
pub open spec fn block_prints(data: BlockData) -> bool {
    exists|k: int| 0 <= k < data.insts@.len() && inst_prints(#[trigger] data.insts@[k])
}

/// Some block of the loop prints.
pub open spec fn loop_prints(func: FuncIr, blocks: Seq<BlockId>) -> bool {
    exists|i: int| 0 <= i < blocks.len() && block_prints(func.at(#[trigger] blocks[i]))
}

/// The names with the callee of the instruction added, where it is a function of the
/// program that is not among them yet.
pub open spec fn with_callee(names: Seq<Seq<char>>, inst: Inst) -> Seq<Seq<char>> {
    match inst {
        Inst::Call(c) => if is_builtin(c.callee@) || names.contains(c.callee@) {
            names
        } else {
            names.push(c.callee@)
        },
        _ => names,
    }
}

/// The names with the callees of the first `k` instructions added.
pub open spec fn with_callees(names: Seq<Seq<char>>, insts: Seq<Inst>, k: nat) -> Seq<Seq<char>>
    decreases k,
{
    if k == 0 {
        names
    } else {
        with_callee(with_callees(names, insts, (k - 1) as nat), insts[k - 1])
    }
}

/// The functions of the program that the first `n` blocks call, in order of first
/// appearance.
pub open spec fn user_callees(func: FuncIr, blocks: Seq<BlockId>, n: nat) -> Seq<Seq<char>>
    decreases n,
{
    if n == 0 {
        seq![]
    } else {
        let insts = func.at(blocks[n - 1]).insts@;
        with_callees(user_callees(func, blocks, (n - 1) as nat), insts, insts.len())
    }
}

/// The remark on a call.
pub open spec fn call_note(name: Seq<char>) -> Seq<char> {
    "calls non-pure function '"@ + name + "' inside the loop"@
}

/// The remarks on the calls of a loop.
pub open spec fn call_notes(names: Seq<Seq<char>>) -> Seq<Seq<char>> {
    names.map_values(|n: Seq<char>| call_note(n))
}

/// The remarks on side effects and shape.
pub open spec fn shape_notes(func: FuncIr, header: BlockId, blocks: Seq<BlockId>) -> Seq<
    Seq<char>,
> {
    let printing = if loop_prints(func, blocks) {
        seq!["contains a side effect (print)"@]
    } else {
        seq![]
    };
    let calling = printing + call_notes(user_callees(func, blocks, blocks.len()));
    if canonical(func, header, blocks) is None {
        calling.push("non-canonical loop shape"@)
    } else {
        calling
    }
}

/// Whether the callee is part of the language.
fn builtin_name(name: &String) -> (r: bool)
    ensures
        r == is_builtin(name@),
{
    is_text(name, "min") || is_text(name, "max") || is_text(name, "sqrt") || is_text(name, "abs")
        || is_text(name, "len") || is_text(name, "zeros") || is_text(name, "print")
}

/// Whether the instruction prints.
fn is_print_call(inst: &Inst) -> (r: bool)
    ensures
        r == inst_prints(*inst),
{
    match inst {
        Inst::Call(c) => is_text(&c.callee, "print"),
        _ => false,
    }
}

/// Whether the block prints.
fn block_has_print(data: &BlockData) -> (r: bool)
    ensures
        r == block_prints(*data),
{
    let mut k: usize = 0;
    while k < data.insts.len()
        invariant
            k <= data.insts@.len(),
            forall|i: int| 0 <= i < k ==> !inst_prints(#[trigger] data.insts@[i]),
        decreases data.insts@.len() - k,
    {
        if is_print_call(&data.insts[k]) {
            assert(inst_prints(data.insts@[k as int]));
            return true;
        }
        k = k + 1;
    }
    false
}

/// Every block of the list is one of the function.
pub open spec fn blocks_exist(func: FuncIr, blocks: Seq<BlockId>) -> bool {
    forall|i: int| 0 <= i < blocks.len() ==> func.has_block(#[trigger] blocks[i])
}

/// Whether some block of the loop prints.
fn has_print(func: &FuncIr, lp: &Loop) -> (r: bool)
    requires
        blocks_exist(*func, lp.blocks@),
    ensures
        r == loop_prints(*func, lp.blocks@),
{
    let mut k: usize = 0;
    while k < lp.blocks.len()
        invariant
            blocks_exist(*func, lp.blocks@),
            k <= lp.blocks@.len(),
            forall|i: int| 0 <= i < k ==> !block_prints(func.at(#[trigger] lp.blocks@[i])),
        decreases lp.blocks@.len() - k,
    {
        if block_has_print(func.block(lp.blocks[k])) {
            assert(block_prints(func.at(lp.blocks@[k as int])));
            return true;
        }
        k = k + 1;
    }
    false
}

/// Whether the name is among the names.
fn has_name(names: &Vec<String>, name: &String) -> (r: bool)
    ensures
        r == texts(names@).contains(name@),
{
    let mut k: usize = 0;
    while k < names.len()
        invariant
            k <= names@.len(),
            forall|i: int| 0 <= i < k ==> #[trigger] texts(names@)[i] != name@,
        decreases names@.len() - k,
    {
        assert(texts(names@)[k as int] == names@[k as int]@);
        if names[k] == *name {
            return true;
        }
        k = k + 1;
    }
    false
}

/// The functions of the program that the loop calls, in order of first appearance.
fn user_call_names(func: &FuncIr, lp: &Loop) -> (r: Vec<String>)
    requires
        blocks_exist(*func, lp.blocks@),
    ensures
        texts(r@) == user_callees(*func, lp.blocks@, lp.blocks@.len()),
{
    let mut out: Vec<String> = Vec::new();
    let mut n: usize = 0;
    assert(texts(out@) =~= seq![]);
    while n < lp.blocks.len()
        invariant
            blocks_exist(*func, lp.blocks@),
            n <= lp.blocks@.len(),
            texts(out@) == user_callees(*func, lp.blocks@, n as nat),
        decreases lp.blocks@.len() - n,
    {
        let insts = &func.block(lp.blocks[n]).insts;
        let ghost start = texts(out@);
        let mut k: usize = 0;
        while k < insts.len()
            invariant
                k <= insts@.len(),
                texts(out@) == with_callees(start, insts@, k as nat),
            decreases insts@.len() - k,
        {
            if let Inst::Call(c) = &insts[k] {
                if !builtin_name(&c.callee) && !has_name(&out, &c.callee) {
                    proof {
                        lemma_texts_push(out@, c.callee);
                    }
                    out.push(c.callee.clone());
                }
            }
            k = k + 1;
        }
        n = n + 1;
    }
    out
}

/// The remarks on side effects and shape.
fn collect_shape_notes(func: &FuncIr, lp: &Loop, is_canonical: bool) -> (r: Vec<String>)
    requires
        blocks_exist(*func, lp.blocks@),
        is_canonical == (canonical(*func, lp.header, lp.blocks@) is Some),
    ensures
        texts(r@) == shape_notes(*func, lp.header, lp.blocks@),
{
    let mut notes: Vec<String> = Vec::new();
    if has_print(func, lp) {
        notes.push("contains a side effect (print)".to_owned());
    }
    let ghost printing = if loop_prints(*func, lp.blocks@) {
        seq!["contains a side effect (print)"@]
    } else {
        seq![]
    };
    assert(texts(notes@) =~= printing);
    let names = user_call_names(func, lp);
    let ghost remarks = call_notes(texts(names@));
    let mut k: usize = 0;
    assert(printing + remarks.take(0) =~= printing);
    while k < names.len()
        invariant
            k <= names@.len(),
            remarks == call_notes(texts(names@)),
            texts(notes@) == printing + remarks.take(k as int),
        decreases names@.len() - k,
    {
        let mut note = "calls non-pure function '".to_owned();
        push_text(&mut note, names[k].as_str());
        push_text(&mut note, "' inside the loop");
        proof {
            lemma_texts_push(notes@, note);
            assert(remarks[k as int] == call_note(texts(names@)[k as int]));
            assert(texts(names@)[k as int] == names@[k as int]@);
            assert(printing + remarks.take(k + 1) =~= (printing + remarks.take(k as int)).push(
                remarks[k as int],
            ));
        }
        notes.push(note);
        k = k + 1;
    }
    assert(remarks.take(k as int) =~= remarks);
    if !is_canonical {
        let note = "non-canonical loop shape".to_owned();
        proof {
            lemma_texts_push(notes@, note);
        }
        notes.push(note);
    }
    notes
}

// ---------------------------------------------------------------------------
// Pairs of accesses
// ---------------------------------------------------------------------------

/// What the test of a pair depends on besides the two accesses.
pub struct PairContext {
    pub func: FuncIr,
    pub depth: u32,
    pub range: IterRange,
    pub iv: Seq<char>,
}

/// What the test of a pair of accesses found.
pub enum PairFinding {
    /// No dependence between iterations.
    Nothing,
    /// A subscript that cannot be analyzed: a remark, and an edge to be safe.
    Unknown { note: Seq<char>, edge: Edge },
    /// A dependence between iterations.
    Carried { edge: Edge },
}

/// The kind of a dependence between two accesses of which at least one writes.
pub open spec fn kind_text(both_write: bool) -> Seq<char> {
    if both_write {
        "WAW"@
    } else {
        "RAW"@
    }
}

/// The form of the writing access; the earlier one where both write.
pub open spec fn written(src: Touch, dst: Touch) -> Option<Affine> {
    if src.is_write {
        src.affine
    } else {
        dst.affine
    }
}

/// The form of the other access.
pub open spec fn other_form(src: Touch, dst: Touch) -> Option<Affine> {
    if src.is_write {
        dst.affine
    } else {
        src.affine
    }
}

/// The label of an edge.
pub open spec fn label_text(kind: Seq<char>, name: Seq<char>) -> Seq<char> {
    kind + " on '"@ + name + "'"@
}

/// The edge of a subscript that cannot be analyzed.
pub open spec fn unknown_edge(kind: Seq<char>, name: Seq<char>, level: u32) -> Edge {
    Edge {
        kind_label: label_text(kind, name),
        array: name,
        distance: None,
        level,
        direction: "*"@,
        explain: kind + " "@ + name + "[?] vs "@ + name
            + "[?] — subscript not affine, conservative"@,
    }
}

/// Neither subscript moves with the loop.
pub open spec fn stands(r: Affine, w: Affine) -> bool {
    r.a == 0 && w.a == 0
}

/// The distance of an edge. Subscripts that stand still meet at every distance.
pub open spec fn edge_distance(r: Affine, w: Affine) -> Option<i64> {
    if stands(r, w) {
        None
    } else {
        dimension_distance(r, w)
    }
}

/// The directions of an edge. Subscripts that stand still meet in every direction.
pub open spec fn edge_dirs(r: Affine, w: Affine) -> DirVec {
    if stands(r, w) {
        DirVec::all()
    } else {
        dimension_dirs(r, w)
    }
}

/// Why a dependence is reported.
pub open spec fn detail_text(distance: Option<i64>, stands: bool) -> Seq<char> {
    match distance {
        Some(d) => "carried by iteration distance "@ + integer_text(d as int),
        None => if stands {
            "one element in every iteration"@
        } else {
            "gcd/box test inconclusive — integer solutions exist in range"@
        },
    }
}

/// The edge of a dependence between the writing form `w` and the other form `r`.
pub open spec fn carried_edge(
    kind: Seq<char>,
    name: Seq<char>,
    level: u32,
    w: Affine,
    r: Affine,
    iv: Seq<char>,
) -> Edge {
    Edge {
        kind_label: label_text(kind, name),
        array: name,
        distance: edge_distance(r, w),
        level,
        direction: edge_dirs(r, w).spelling(),
        explain: kind + " "@ + name + "["@ + affine_text(w, iv) + "] <- "@ + name + "["@
            + affine_text(r, iv) + "] ("@ + detail_text(edge_distance(r, w), stands(r, w))
            + ", level "@ + natural_text(level as nat) + ")"@,
    }
}

/// Both touches happen in one iteration, and in no two different ones.
pub open spec fn within_iteration(r: Affine, w: Affine, range: IterRange) -> bool {
    if stands(r, w) {
        range.lo >= range.hi
    } else {
        dimension_distance(r, w) == Some(0i64) && dimension_dirs(r, w) == DirVec::only(Dir::Eq)
    }
}

/// What the test of two accesses finds, the first one earlier in the program.
pub open spec fn pair_finding(ctx: PairContext, src: Touch, dst: Touch) -> PairFinding {
    if src.arr != dst.arr || (!src.is_write && !dst.is_write) {
        PairFinding::Nothing
    } else {
        let kind = kind_text(src.is_write && dst.is_write);
        let name = name_of(ctx.func, src.arr);
        let unknown = PairFinding::Unknown {
            note: "unanalyzable subscript on '"@ + name + "' — assuming dependence"@,
            edge: unknown_edge(kind, name, ctx.depth),
        };
        match (written(src, dst), other_form(src, dst)) {
            (Some(w), Some(r)) => if !battery_fits(r, w, ctx.range) {
                unknown
            } else if !dimension_depends(r, w, ctx.range) || within_iteration(r, w, ctx.range) {
                PairFinding::Nothing
            } else {
                PairFinding::Carried { edge: carried_edge(kind, name, ctx.depth, w, r, ctx.iv) }
            },
            _ => unknown,
        }
    }
}

/// What a write shows against itself: it meets itself in two iterations where its
/// subscript stands still, and may do so where the loop loads its subscript. Any other one
/// that cannot be analyzed is taken to move.
pub open spec fn own_finding(ctx: PairContext, t: Touch) -> Option<Edge> {
    match t.affine {
        Some(f) => if t.is_write && f.a == 0 && !within_iteration(f, f, ctx.range) {
            Some(carried_edge(kind_text(true), name_of(ctx.func, t.arr), ctx.depth, f, f, ctx.iv))
        } else {
            None
        },
        None => if t.is_write && t.gathered {
            Some(unknown_edge(kind_text(true), name_of(ctx.func, t.arr), ctx.depth))
        } else {
            None
        },
    }
}

/// An edge with the local that it is on.
pub struct Found {
    pub on: LocalId,
    pub edge: Edge,
}

/// Remarks and edges collected so far.
#[verifier::ext_equal]
pub struct Collected {
    pub notes: Seq<Seq<char>>,
    pub raw: Seq<Found>,
    pub waw: Seq<Found>,
}

/// Adds an edge to the list of its kind.
pub open spec fn with_edge(c: Collected, both_write: bool, e: Found) -> Collected {
    if both_write {
        Collected { notes: c.notes, raw: c.raw, waw: c.waw.push(e) }
    } else {
        Collected { notes: c.notes, raw: c.raw.push(e), waw: c.waw }
    }
}

/// Adds what a write shows against itself.
pub open spec fn with_own(ctx: PairContext, c: Collected, t: Touch) -> Collected {
    match own_finding(ctx, t) {
        Some(edge) => with_edge(c, true, Found { on: t.arr, edge }),
        None => c,
    }
}

/// Adds what the test of a pair found.
pub open spec fn with_pair(ctx: PairContext, c: Collected, src: Touch, dst: Touch) -> Collected {
    let both_write = src.is_write && dst.is_write;
    match pair_finding(ctx, src, dst) {
        PairFinding::Nothing => c,
        PairFinding::Unknown { note, edge } => with_edge(
            Collected { notes: c.notes.push(note), raw: c.raw, waw: c.waw },
            both_write,
            Found { on: src.arr, edge },
        ),
        PairFinding::Carried { edge } => with_edge(c, both_write, Found { on: src.arr, edge }),
    }
}

/// Adds what the pairs of access `i` with the accesses behind it, below `j`, show.
pub open spec fn with_row(ctx: PairContext, c: Collected, s: Seq<Touch>, i: int, j: int) -> Collected
    decreases j - i,
{
    if j <= i + 1 {
        c
    } else {
        with_pair(ctx, with_row(ctx, c, s, i, j - 1), s[i], s[j - 1])
    }
}

/// Adds what the first `i` accesses show, against themselves and everything behind them.
pub open spec fn with_rows(ctx: PairContext, c: Collected, s: Seq<Touch>, i: nat) -> Collected
    decreases i,
{
    if i == 0 {
        c
    } else {
        let own = with_own(ctx, with_rows(ctx, c, s, (i - 1) as nat), s[i - 1]);
        with_row(ctx, own, s, i - 1, s.len() as int)
    }
}

/// An edge with the local that it is on.
struct Carried {
    on: LocalId,
    edge: DepEdge,
}

impl View for Carried {
    type V = Found;

    closed spec fn view(&self) -> Found {
        Found { on: self.on, edge: self.edge@ }
    }
}

/// Views of edges.
closed spec fn founds(s: Seq<Carried>) -> Seq<Found> {
    s.map_values(|c: Carried| c@)
}

/// Remarks and edges collected so far.
struct Pending {
    notes: Vec<String>,
    raw: Vec<Carried>,
    waw: Vec<Carried>,
}

impl View for Pending {
    type V = Collected;

    closed spec fn view(&self) -> Collected {
        Collected { notes: texts(self.notes@), raw: founds(self.raw@), waw: founds(self.waw@) }
    }
}

impl Pending {
    /// Adds an edge to the list of its kind.
    fn push_edge(&mut self, both_write: bool, on: LocalId, edge: DepEdge)
        ensures
            final(self)@ == with_edge(old(self)@, both_write, Found { on, edge: edge@ }),
    {
        let ghost before = self@;
        let e = Carried { on, edge };
        if both_write {
            self.waw.push(e);
        } else {
            self.raw.push(e);
        }
        assert(self@ =~= with_edge(before, both_write, e@));
    }
}

/// The kind of a dependence.
fn kind_name(both_write: bool) -> (r: &'static str)
    ensures
        r@ == kind_text(both_write),
{
    if both_write {
        "WAW"
    } else {
        "RAW"
    }
}

/// The label of an edge.
fn render_label(kind: &str, name: &String) -> (r: String)
    ensures
        r@ == label_text(kind@, name@),
{
    let mut s = kind.to_owned();
    push_text(&mut s, " on '");
    push_text(&mut s, name.as_str());
    push_text(&mut s, "'");
    s
}

/// The edge of a subscript that cannot be analyzed.
fn make_unknown_edge(kind: &str, name: &String, level: u32) -> (r: DepEdge)
    ensures
        r@ == unknown_edge(kind@, name@, level),
{
    let mut explain = kind.to_owned();
    push_text(&mut explain, " ");
    push_text(&mut explain, name.as_str());
    push_text(&mut explain, "[?] vs ");
    push_text(&mut explain, name.as_str());
    push_text(&mut explain, "[?] — subscript not affine, conservative");
    DepEdge {
        kind_label: render_label(kind, name),
        array: name.clone(),
        distance: None,
        level,
        direction: "*".to_owned(),
        explain,
    }
}

/// Why a dependence is reported.
fn render_detail(distance: Option<i64>, stands: bool) -> (r: String)
    ensures
        r@ == detail_text(distance, stands),
{
    match distance {
        Some(d) => {
            let mut s = "carried by iteration distance ".to_owned();
            push_integer(&mut s, d as i128);
            s
        },
        None => if stands {
            "one element in every iteration".to_owned()
        } else {
            "gcd/box test inconclusive — integer solutions exist in range".to_owned()
        },
    }
}

/// The edge of a dependence between the writing form `w` and the other form `r`.
fn make_carried_edge(
    kind: &str,
    name: &String,
    level: u32,
    w: Affine,
    r: Affine,
    iv: &String,
    distance: Option<i64>,
    dirs: &DirVec,
) -> (e: DepEdge)
    requires
        distance == edge_distance(r, w),
        *dirs == edge_dirs(r, w),
    ensures
        e@ == carried_edge(kind@, name@, level, w, r, iv@),
{
    let w_text = render_affine(w, iv);
    let r_text = render_affine(r, iv);
    let detail = render_detail(distance, r.a == 0 && w.a == 0);
    let mut explain = kind.to_owned();
    push_text(&mut explain, " ");
    push_text(&mut explain, name.as_str());
    push_text(&mut explain, "[");
    push_text(&mut explain, w_text.as_str());
    push_text(&mut explain, "] <- ");
    push_text(&mut explain, name.as_str());
    push_text(&mut explain, "[");
    push_text(&mut explain, r_text.as_str());
    push_text(&mut explain, "] (");
    push_text(&mut explain, detail.as_str());
    push_text(&mut explain, ", level ");
    push_natural(&mut explain, level as u128);
    push_text(&mut explain, ")");
    DepEdge {
        kind_label: render_label(kind, name),
        array: name.clone(),
        distance,
        level,
        direction: dirs.describe(),
        explain,
    }
}

/// A pair of one dimension has the distance and the directions of that dimension.
proof fn lemma_one_dimension(r: Affine, w: Affine, range: IterRange)
    ensures
        dimensions_depend(seq![r], seq![w], range, 1) <==> dimension_depends(r, w, range),
        pair_distance(seq![r], seq![w], 1) == (match dimension_distance(r, w) {
            Some(d) => Some(d as int),
            None => None,
        }),
        pair_dirs(seq![r], seq![w], 1) == dimension_dirs(r, w),
        distances_fit(seq![r], seq![w], range),
{
    let rs = seq![r];
    let ws = seq![w];
    assert(rs[0] == r && ws[0] == w);
    if dimensions_depend(rs, ws, range, 1) {
        assert(dimension_depends(rs[0], ws[0], range));
    }
    assert(pair_distance(rs, ws, 0) == Some(0int));
    assert(pair_dirs(rs, ws, 0) == DirVec::all());
    assert forall|n: nat|
        n <= rs.len() && dimensions_depend(rs, ws, range, n as int) implies match #[trigger] pair_distance(
        rs,
        ws,
        n,
    ) {
        Some(d) => i64::MIN <= d <= i64::MAX,
        None => true,
    } by {
        assert(n == 0 || n == 1);
    }
}

/// Tests two accesses, the first one earlier in the program, and adds what it finds.
#[verifier::rlimit(40)]
fn test_accesses(
    func: &FuncIr,
    depth: u32,
    range: IterRange,
    iv: &String,
    src: &Access,
    dst: &Access,
    pending: &mut Pending,
)
    ensures
        final(pending)@ == with_pair(
            PairContext { func: *func, depth, range, iv: iv@ },
            old(pending)@,
            src@,
            dst@,
        ),
{
    if src.arr != dst.arr || (!src.is_write && !dst.is_write) {
        return;
    }
    let both_write = src.is_write && dst.is_write;
    let kind = kind_name(both_write);
    let name = local_name(func, src.arr);
    let written_form = if src.is_write { src.affine } else { dst.affine };
    let other = if src.is_write { dst.affine } else { src.affine };
    let forms: Option<(Affine, Affine)> = match (written_form, other) {
        (Some(w), Some(r)) => if fits_battery(r, w, range) {
            Some((w, r))
        } else {
            None
        },
        _ => None,
    };
    match forms {
        None => {
            let mut note = "unanalyzable subscript on '".to_owned();
            push_text(&mut note, name.as_str());
            push_text(&mut note, "' — assuming dependence");
            let ghost before = pending@;
            proof {
                lemma_texts_push(pending.notes@, note);
            }
            pending.notes.push(note);
            pending.push_edge(both_write, src.arr, make_unknown_edge(kind, &name, depth));
        },
        Some((w, r)) => {
            let rs = vec![r];
            let ws = vec![w];
            proof {
                lemma_one_dimension(r, w, range);
                assert(rs@ =~= seq![r]);
                assert(ws@ =~= seq![w]);
            }
            match test_pair(rs.as_slice(), ws.as_slice(), range) {
                DepOutcome::Independent => {},
                DepOutcome::Dependence { distance, dirs } => {
                    let still = r.a == 0 && w.a == 0;
                    let only_eq = dirs[0].eq && !dirs[0].lt && !dirs[0].gt;
                    let at_once = match distance {
                        Some(d) => d == 0 && only_eq,
                        None => false,
                    };
                    let within = if still {
                        range.lo >= range.hi
                    } else {
                        at_once
                    };
                    if !within {
                        let star = DirVec::star();
                        let e = make_carried_edge(
                            kind,
                            &name,
                            depth,
                            w,
                            r,
                            iv,
                            if still {
                                None
                            } else {
                                distance
                            },
                            if still {
                                &star
                            } else {
                                &dirs[0]
                            },
                        );
                        pending.push_edge(both_write, src.arr, e);
                    }
                },
            }
        },
    }
}

/// Tests a write against itself, and adds what it finds.
fn test_write(
    func: &FuncIr,
    depth: u32,
    range: IterRange,
    iv: &String,
    t: &Access,
    pending: &mut Pending,
)
    ensures
        final(pending)@ == with_own(
            PairContext { func: *func, depth, range, iv: iv@ },
            old(pending)@,
            t@,
        ),
{
    if let Some(f) = t.affine {
        if t.is_write && f.a == 0 && range.lo < range.hi {
            let name = local_name(func, t.arr);
            let star = DirVec::star();
            let e = make_carried_edge(kind_name(true), &name, depth, f, f, iv, None, &star);
            pending.push_edge(true, t.arr, e);
        }
    } else if t.is_write && t.gathered {
        let name = local_name(func, t.arr);
        pending.push_edge(true, t.arr, make_unknown_edge(kind_name(true), &name, depth));
    }
}

/// Tests every access against itself and every other one, and adds what it finds.
fn test_all_accesses(
    func: &FuncIr,
    depth: u32,
    range: IterRange,
    iv: &String,
    accesses: &Vec<Access>,
    pending: &mut Pending,
)
    ensures
        final(pending)@ == with_rows(
            PairContext { func: *func, depth, range, iv: iv@ },
            old(pending)@,
            touch_views(accesses@),
            accesses@.len(),
        ),
{
    let ghost ctx = PairContext { func: *func, depth, range, iv: iv@ };
    let ghost s = touch_views(accesses@);
    let ghost start = pending@;
    let mut i: usize = 0;
    while i < accesses.len()
        invariant
            ctx == (PairContext { func: *func, depth, range, iv: iv@ }),
            s == touch_views(accesses@),
            i <= accesses@.len(),
            pending@ == with_rows(ctx, start, s, i as nat),
        decreases accesses@.len() - i,
    {
        assert(s[i as int] == accesses@[i as int]@);
        test_write(func, depth, range, iv, &accesses[i], pending);
        let ghost row = pending@;
        let mut j: usize = i + 1;
        while j < accesses.len()
            invariant
                ctx == (PairContext { func: *func, depth, range, iv: iv@ }),
                s == touch_views(accesses@),
                i < j <= accesses@.len(),
                pending@ == with_row(ctx, row, s, i as int, j as int),
            decreases accesses@.len() - j,
        {
            proof {
                assert(s[i as int] == accesses@[i as int]@);
                assert(s[j as int] == accesses@[j as int]@);
            }
            test_accesses(func, depth, range, iv, &accesses[i], &accesses[j], pending);
            j = j + 1;
        }
        i = i + 1;
    }
}

// ---------------------------------------------------------------------------
// Reports
// ---------------------------------------------------------------------------

/// The edges, without those on a local where one is given.
pub open spec fn edges_left(s: Seq<Found>, off: Option<LocalId>) -> Seq<Edge>
    decreases s.len(),
{
    if s.len() == 0 {
        seq![]
    } else if off == Some(s.last().on) {
        edges_left(s.drop_last(), off)
    } else {
        edges_left(s.drop_last(), off).push(s.last().edge)
    }
}

/// Ends of the box that stands for bounds that are not constant.
pub const WIDE_LO: i128 = -0x100_0000_0000;

pub const WIDE_HI: i128 = 0x100_0000_0000;

/// The iterations of a counting loop that runs from its start to before its end; a
/// wide box where a bound is not constant.
pub open spec fn range_of(c: Option<CanonicalLoop>) -> IterRange {
    match c {
        Some(l) => match (l.start, l.end) {
            (Bound::Const(lo), Bound::Const(hi)) => IterRange {
                lo: lo as i128,
                hi: (hi - 1) as i128,
            },
            _ => IterRange { lo: WIDE_LO, hi: WIDE_HI },
        },
        None => IterRange { lo: 0, hi: 0 },
    }
}

/// The verdict on the edges that are left.
pub open spec fn judged(
    notes: Seq<Seq<char>>,
    raw: Seq<Edge>,
    waw: Seq<Edge>,
    reduction: Option<(ReductionOp, Seq<char>)>,
) -> Judgement {
    if notes.len() > 0 {
        Judgement::Stays { reason: joined(notes, "; "@) }
    } else if raw.len() > 0 {
        Judgement::Stays { reason: raw[0].explain }
    } else if waw.len() > 0 {
        Judgement::Stays { reason: waw[0].explain }
    } else {
        match reduction {
            Some((op, var)) => Judgement::Reduces { op, var },
            None => Judgement::Safe,
        }
    }
}

/// The local whose edges a reduction breaks: its accumulator, where nothing was remarked.
pub open spec fn exempt_local(recognized: Seq<Recognized>, notes: Seq<Seq<char>>) -> Option<
    LocalId,
> {
    if recognized.len() > 0 && notes.len() == 0 {
        Some(recognized[0].var)
    } else {
        None
    }
}

/// The report on one loop.
pub open spec fn report_of(
    func: FuncIr,
    id: int,
    header: BlockId,
    blocks: Seq<BlockId>,
    depth: u32,
) -> Findings {
    let c = canonical(func, header, blocks);
    let iv = match c {
        Some(l) => name_of(func, l.iv),
        None => "?"@,
    };
    let touched = match c {
        Some(l) => accesses_of(func, blocks, l.iv_value_in_loop),
        None => seq![],
    };
    let excluded = match c {
        Some(l) => seq![l.iv],
        None => seq![],
    };
    let recognized = reductions(func, blocks, excluded);
    let ctx = PairContext { func, depth, range: range_of(c), iv };
    let start = Collected { notes: shape_notes(func, header, blocks), raw: seq![], waw: seq![] };
    let all = with_rows(ctx, start, touched, touched.len());
    let exempt = exempt_local(recognized, all.notes);
    let acc = name_of(func, recognized[0].var);
    let raw = edges_left(all.raw, exempt);
    let waw = edges_left(all.waw, exempt);
    Findings {
        loop_id: id,
        depth,
        header: block_text(header),
        blocks: blocks.map_values(|b: BlockId| block_text(b)),
        iv: if c is Some {
            Some(iv)
        } else {
            None
        },
        bounds: match c {
            Some(l) => Some((bound_text_of(l.start), bound_text_of(l.end))),
            None => None,
        },
        accesses: touched.map_values(|t: Touch| access_text(func, t, iv)),
        raw_deps: raw,
        war_deps: seq![],
        waw_deps: waw,
        notes: all.notes,
        verdict: judged(
            all.notes,
            raw,
            waw,
            if recognized.len() > 0 {
                Some((recognized[0].op, acc))
            } else {
                None
            },
        ),
    }
}

/// Drops the edges on a local where one is given.
fn drop_edges_on(off: Option<LocalId>, list: Vec<Carried>) -> (r: Vec<DepEdge>)
    ensures
        edges(r@) == edges_left(founds(list@), off),
{
    let ghost all = founds(list@);
    let mut rest = list;
    let mut out: Vec<DepEdge> = Vec::new();
    let ghost mut done: int = 0;
    assert(edges(out@) =~= edges_left(all.take(0), off));
    while rest.len() > 0
        invariant
            0 <= done <= all.len(),
            rest@.len() == all.len() - done,
            founds(rest@) == all.skip(done),
            edges(out@) == edges_left(all.take(done), off),
        decreases rest@.len(),
    {
        let ghost rest_before = rest@;
        let ghost before = out@;
        let e = rest.remove(0);
        proof {
            let now = all.take(done + 1);
            assert(founds(rest_before)[0] == all.skip(done)[0]);
            assert(now.last() == e@);
            assert(now.drop_last() =~= all.take(done));
            assert(founds(rest@) =~= all.skip(done + 1)) by {
                assert forall|i: int| 0 <= i < rest@.len() implies (#[trigger] rest@[i])@
                    == all.skip(done + 1)[i] by {
                    assert(rest@[i] == rest_before[i + 1]);
                    assert(founds(rest_before)[i + 1] == all.skip(done)[i + 1]);
                }
            }
        }
        let ghost added = e.edge@;
        let stays = match off {
            Some(l) => e.on != l,
            None => true,
        };
        if stays {
            out.push(e.edge);
            assert(edges(out@) =~= edges(before).push(added));
        }
        proof {
            done = done + 1;
        }
    }
    proof {
        assert(all.take(done) =~= all);
    }
    out
}

/// Renders the accesses of a loop.
fn render_accesses(func: &FuncIr, accesses: &Vec<Access>, iv: &String) -> (r: Vec<String>)
    ensures
        texts(r@) == touch_views(accesses@).map_values(
            |t: Touch| access_text(*func, t, iv@),
        ),
{
    let mut out: Vec<String> = Vec::new();
    let mut k: usize = 0;
    let ghost want = touch_views(accesses@).map_values(|t: Touch| access_text(*func, t, iv@));
    while k < accesses.len()
        invariant
            want == touch_views(accesses@).map_values(|t: Touch| access_text(*func, t, iv@)),
            k <= accesses@.len(),
            texts(out@) == want.take(k as int),
        decreases accesses@.len() - k,
    {
        let line = render_access(func, &accesses[k], iv);
        proof {
            lemma_texts_push(out@, line);
            assert(touch_views(accesses@)[k as int] == accesses@[k as int]@);
            assert(want.take(k + 1) =~= want.take(k as int).push(want[k as int]));
        }
        out.push(line);
        k = k + 1;
    }
    assert(want.take(k as int) =~= want);
    out
}

/// Renders the blocks of a loop.
fn render_blocks(blocks: &Vec<BlockId>) -> (r: Vec<String>)
    ensures
        texts(r@) == blocks@.map_values(|b: BlockId| block_text(b)),
{
    let mut out: Vec<String> = Vec::new();
    let mut k: usize = 0;
    let ghost want = blocks@.map_values(|b: BlockId| block_text(b));
    while k < blocks.len()
        invariant
            want == blocks@.map_values(|b: BlockId| block_text(b)),
            k <= blocks@.len(),
            texts(out@) == want.take(k as int),
        decreases blocks@.len() - k,
    {
        let line = render_block(blocks[k]);
        proof {
            lemma_texts_push(out@, line);
            assert(want.take(k + 1) =~= want.take(k as int).push(want[k as int]));
        }
        out.push(line);
        k = k + 1;
    }
    assert(want.take(k as int) =~= want);
    out
}

/// The iterations of a counting loop.
fn iteration_range(c: &Option<CanonicalLoop>) -> (r: IterRange)
    ensures
        r == range_of(*c),
{
    match c {
        Some(l) => match (l.start, l.end) {
            (Bound::Const(lo), Bound::Const(hi)) => IterRange {
                lo: lo as i128,
                hi: hi as i128 - 1,
            },
            _ => IterRange { lo: WIDE_LO, hi: WIDE_HI },
        },
        None => IterRange { lo: 0, hi: 0 },
    }
}

/// Analysis can read the loop: its blocks are blocks of the function, and its
/// instructions can be numbered.
pub open spec fn analyzable(func: FuncIr, header: BlockId, blocks: Seq<BlockId>) -> bool {
    &&& func.has_block(header)
    &&& blocks_exist(func, blocks)
    &&& inst_count(func, blocks, blocks.len()) <= u32::MAX
}

/// Analyzes one loop.
#[verifier::rlimit(40)]
fn analyze_loop(func: &FuncIr, lp: &Loop) -> (r: LoopReport)
    requires
        func.wf(),
        analyzable(*func, lp.header, lp.blocks@),
    ensures
        r@ == report_of(*func, lp.id as int, lp.header, lp.blocks@, lp.depth),
{
    let c = canon(func, lp);
    let iv_name = match &c {
        Some(l) => local_name(func, l.iv),
        None => "?".to_owned(),
    };
    let accesses = match &c {
        Some(l) => collect(func, lp, l.iv_value_in_loop),
        None => Vec::new(),
    };
    let excluded = match &c {
        Some(l) => vec![l.iv],
        None => Vec::new(),
    };
    let recognized = find_reductions(func, &lp.blocks, excluded.as_slice());
    let range = iteration_range(&c);
    let notes = collect_shape_notes(func, lp, c.is_some());
    let mut pending = Pending { notes, raw: Vec::new(), waw: Vec::new() };
    let ghost want = report_of(*func, lp.id as int, lp.header, lp.blocks@, lp.depth);
    proof {
        let start = Collected {
            notes: shape_notes(*func, lp.header, lp.blocks@),
            raw: seq![],
            waw: seq![],
        };
        assert(pending@ =~= start);
        assert(touch_views(accesses@) =~= match c {
            Some(l) => accesses_of(*func, lp.blocks@, l.iv_value_in_loop),
            None => seq![],
        });
        assert(excluded@ =~= match c {
            Some(l) => seq![l.iv],
            None => seq![],
        });
    }
    test_all_accesses(func, lp.depth, range, &iv_name, &accesses, &mut pending);
    let Pending { notes, raw, waw } = pending;
    let acc_name: Option<String> = if recognized.len() > 0 {
        Some(local_name(func, recognized[0].var))
    } else {
        None
    };
    let exempt: Option<LocalId> = if recognized.len() > 0 && notes.len() == 0 {
        Some(recognized[0].var)
    } else {
        None
    };
    let raw_deps = drop_edges_on(exempt, raw);
    let waw_deps = drop_edges_on(exempt, waw);
    proof {
        assert(edges(raw_deps@) == want.raw_deps);
        assert(edges(waw_deps@) == want.waw_deps);
        assert(texts(notes@) == want.notes);
    }
    let verdict = if notes.len() > 0 {
        Verdict::Sequential(join(&notes, "; "))
    } else if raw_deps.len() > 0 {
        assert(edges(raw_deps@)[0] == raw_deps@[0]@);
        Verdict::Sequential(raw_deps[0].explain.clone())
    } else if waw_deps.len() > 0 {
        assert(edges(waw_deps@)[0] == waw_deps@[0]@);
        Verdict::Sequential(waw_deps[0].explain.clone())
    } else {
        match acc_name {
            Some(var) => Verdict::ReductionParallel(Reduction { op: recognized[0].op, var }),
            None => Verdict::SafeParallel,
        }
    };
    let lines = render_accesses(func, &accesses, &iv_name);
    let bounds = match &c {
        Some(l) => Some((bound_text(&l.start), bound_text(&l.end))),
        None => None,
    };
    let iv = if c.is_some() { Some(iv_name) } else { None };
    let report = LoopReport {
        loop_id: lp.id,
        depth: lp.depth,
        header: render_block(lp.header),
        blocks: render_blocks(&lp.blocks),
        iv,
        bounds,
        accesses: lines,
        raw_deps,
        war_deps: Vec::new(),
        waw_deps,
        notes,
        verdict,
    };
    proof {
        assert(edges(report.war_deps@) =~= seq![]);
        assert(report@ =~= want);
    }
    report
}

/// Analyzes every loop of a function in SSA form, in the order of the nest. Nested
/// loops get verdicts of their own.
pub fn analyze(func: &FuncIr, loops: &LoopInfo) -> (r: Vec<LoopReport>)
    requires
        func.wf(),
        forall|i: int|
            0 <= i < loops.loops@.len() ==> analyzable(
                *func,
                (#[trigger] loops.loops@[i]).header,
                loops.loops@[i].blocks@,
            ),
    ensures
        r@.len() == loops.loops@.len(),
        forall|i: int|
            0 <= i < r@.len() ==> (#[trigger] r@[i])@ == report_of(
                *func,
                loops.loops@[i].id as int,
                loops.loops@[i].header,
                loops.loops@[i].blocks@,
                loops.loops@[i].depth,
            ),
{
    let mut out: Vec<LoopReport> = Vec::new();
    let mut k: usize = 0;
    while k < loops.loops.len()
        invariant
            func.wf(),
            k <= loops.loops@.len(),
            forall|i: int|
                0 <= i < loops.loops@.len() ==> analyzable(
                    *func,
                    (#[trigger] loops.loops@[i]).header,
                    loops.loops@[i].blocks@,
                ),
            out@.len() == k,
            forall|i: int|
                0 <= i < k ==> (#[trigger] out@[i])@ == report_of(
                    *func,
                    loops.loops@[i].id as int,
                    loops.loops@[i].header,
                    loops.loops@[i].blocks@,
                    loops.loops@[i].depth,
                ),
        decreases loops.loops@.len() - k,
    {
        out.push(analyze_loop(func, &loops.loops[k]));
        k = k + 1;
    }
    out
}

// ---------------------------------------------------------------------------
// The plan
// ---------------------------------------------------------------------------

/// How one loop is executed.
#[derive(Clone, Copy, Debug, PartialEq, Eq, Structural)]
pub enum RegionKind {
    /// Iterations in any order.
    DoAll,
    /// Iterations in any order, each thread with its own accumulator.
    Reduction(ReductionOp),
}

/// One loop approved for parallel execution.
#[derive(Debug)]
pub struct RegionDesc {
    /// Position of the function in the program.
    pub func_idx: usize,
    pub header: BlockId,
    pub kind: RegionKind,
    /// The operator, for a reduction.
    pub reduction: Option<ReductionOp>,
    /// Name of the body function, such as `main.loop0.body`.
    pub body_fn_name: String,
    /// Number of the value that the loop starts from, where it is not constant.
    pub start_val: Option<u32>,
    /// Number of the value that the loop ends before, where it is not constant.
    pub end_val: Option<u32>,
}

/// The loops of a program that are approved for parallel execution.
#[derive(Debug)]
pub struct ParallelPlan {
    pub regions: Vec<RegionDesc>,
}

/// One approved loop as mathematical values.
#[verifier::ext_equal]
pub struct Region {
    pub func_idx: int,
    pub header: BlockId,
    pub kind: RegionKind,
    pub reduction: Option<ReductionOp>,
    pub body_fn_name: Seq<char>,
    pub start_val: Option<u32>,
    pub end_val: Option<u32>,
}

impl View for RegionDesc {
    type V = Region;

    open spec fn view(&self) -> Region {
        Region {
            func_idx: self.func_idx as int,
            header: self.header,
            kind: self.kind,
            reduction: self.reduction,
            body_fn_name: self.body_fn_name@,
            start_val: self.start_val,
            end_val: self.end_val,
        }
    }
}

/// Views of regions.
pub open spec fn regions(s: Seq<RegionDesc>) -> Seq<Region> {
    s.map_values(|r: RegionDesc| r@)
}

/// The number of a value that is not constant.
pub open spec fn symbol_of(b: Bound) -> Option<u32> {
    match b {
        Bound::Sym(v) => Some(v),
        Bound::Const(_) => None,
    }
}

/// No other loop of the nest lies strictly inside.
pub open spec fn innermost(info: LoopInfo, lp: Loop) -> bool {
    forall|i: int|
        0 <= i < info.loops@.len() ==> (#[trigger] info.loops@[i]).id == lp.id
            || info.loops@[i].blocks@.len() >= lp.blocks@.len() || !covers(
            lp.blocks@,
            info.loops@[i].blocks@,
        )
}

/// The name of the body function of a loop.
pub open spec fn body_name(func_name: Seq<char>, id: nat) -> Seq<char> {
    func_name + ".loop"@ + natural_text(id) + ".body"@
}

/// The report is on loop `id`.
pub open spec fn reports_on(id: usize) -> spec_fn(LoopReport) -> bool {
    |r: LoopReport| r.loop_id == id
}

/// How a verdict has a loop executed.
pub open spec fn kind_for(j: Judgement) -> Option<RegionKind> {
    match j {
        Judgement::Safe => Some(RegionKind::DoAll),
        Judgement::Reduces { op, .. } => Some(RegionKind::Reduction(op)),
        Judgement::Stays { .. } => None,
    }
}

/// The region of one loop, if it is approved: its report approves it, it counts, and
/// it is outermost or innermost.
pub open spec fn region_for(
    func: FuncIr,
    func_idx: int,
    info: LoopInfo,
    reports: Seq<LoopReport>,
    lp: Loop,
) -> Option<Region> {
    match (
        first_where(reports, reports_on(lp.id)),
        canonical(func, lp.header, lp.blocks@),
    ) {
        (Some(k), Some(c)) => match kind_for(reports[k].verdict@) {
            Some(kind) => if lp.depth == 1 || innermost(info, lp) {
                Some(
                    Region {
                        func_idx,
                        header: lp.header,
                        kind,
                        reduction: match kind {
                            RegionKind::DoAll => None,
                            RegionKind::Reduction(op) => Some(op),
                        },
                        body_fn_name: body_name(func.name@, lp.id as nat),
                        start_val: symbol_of(c.start),
                        end_val: symbol_of(c.end),
                    },
                )
            } else {
                None
            },
            None => None,
        },
        _ => None,
    }
}

/// The regions of the first `k` loops of a function.
pub open spec fn function_regions(
    func: FuncIr,
    func_idx: int,
    info: LoopInfo,
    reports: Seq<LoopReport>,
    k: nat,
) -> Seq<Region>
    decreases k,
{
    if k == 0 {
        seq![]
    } else {
        let before = function_regions(func, func_idx, info, reports, (k - 1) as nat);
        match region_for(func, func_idx, info, reports, info.loops@[k - 1]) {
            Some(r) => before.push(r),
            None => before,
        }
    }
}

/// The regions of the first `n` functions.
pub open spec fn program_regions(
    funcs: Seq<FuncIr>,
    loops: Seq<LoopInfo>,
    reports: Seq<Vec<LoopReport>>,
    n: nat,
) -> Seq<Region>
    decreases n,
{
    if n == 0 {
        seq![]
    } else {
        let i = n - 1;
        program_regions(funcs, loops, reports, i as nat) + function_regions(
            funcs[i],
            i,
            loops[i],
            reports[i]@,
            loops[i].loops@.len(),
        )
    }
}

/// How many functions have loops and reports.
pub open spec fn reported(
    funcs: Seq<FuncIr>,
    loops: Seq<LoopInfo>,
    reports: Seq<Vec<LoopReport>>,
) -> nat {
    if funcs.len() <= loops.len() && funcs.len() <= reports.len() {
        funcs.len()
    } else if loops.len() <= reports.len() {
        loops.len()
    } else {
        reports.len()
    }
}

/// Whether no other loop of the nest lies strictly inside.
fn is_innermost(info: &LoopInfo, lp: &Loop) -> (r: bool)
    ensures
        r == innermost(*info, *lp),
{
    let mut k: usize = 0;
    while k < info.loops.len()
        invariant
            k <= info.loops@.len(),
            forall|i: int|
                0 <= i < k ==> (#[trigger] info.loops@[i]).id == lp.id
                    || info.loops@[i].blocks@.len() >= lp.blocks@.len() || !covers(
                    lp.blocks@,
                    info.loops@[i].blocks@,
                ),
        decreases info.loops@.len() - k,
    {
        let c = &info.loops[k];
        if c.id != lp.id && c.blocks.len() < lp.blocks.len() && has_members(
            &lp.blocks,
            &c.blocks,
        ) {
            assert(info.loops@[k as int] == *c);
            return false;
        }
        k = k + 1;
    }
    true
}

/// The number of a value that is not constant.
fn bound_sym(b: &Bound) -> (r: Option<u32>)
    ensures
        r == symbol_of(*b),
{
    match b {
        Bound::Sym(v) => Some(*v),
        Bound::Const(_) => None,
    }
}

/// The position of the report on loop `id`.
fn find_report(reports: &Vec<LoopReport>, id: usize) -> (r: Option<usize>)
    ensures
        first_where(reports@, reports_on(id)) == (match r {
            Some(k) => Some(k as int),
            None => None,
        }),
        r matches Some(k) ==> k < reports@.len(),
{
    let mut k: usize = 0;
    while k < reports.len()
        invariant
            k <= reports@.len(),
            forall|i: int| 0 <= i < k ==> !reports_on(id)(#[trigger] reports@[i]),
        decreases reports@.len() - k,
    {
        if reports[k].loop_id == id {
            proof {
                lemma_first_where_is(reports@, reports_on(id), k as int);
            }
            return Some(k);
        }
        k = k + 1;
    }
    proof {
        lemma_first_where_none(reports@, reports_on(id));
    }
    None
}

/// The region of one loop, if it is approved.
fn approve(
    func: &FuncIr,
    func_idx: usize,
    info: &LoopInfo,
    reports: &Vec<LoopReport>,
    lp: &Loop,
) -> (r: Option<RegionDesc>)
    requires
        func.has_block(lp.header),
    ensures
        r matches Some(d) ==> region_for(*func, func_idx as int, *info, reports@, *lp) == Some(d@),
        r is None ==> region_for(*func, func_idx as int, *info, reports@, *lp) is None,
{
    let k: usize = match find_report(reports, lp.id) {
        Some(k) => k,
        None => {
            return None;
        },
    };
    let c = match canon(func, lp) {
        Some(c) => c,
        None => {
            return None;
        },
    };
    let (kind, reduction): (RegionKind, Option<ReductionOp>) = match &reports[k].verdict {
        Verdict::SafeParallel => (RegionKind::DoAll, None),
        Verdict::ReductionParallel(r) => (RegionKind::Reduction(r.op), Some(r.op)),
        Verdict::Sequential(_) => {
            return None;
        },
    };
    if lp.depth != 1 && !is_innermost(info, lp) {
        return None;
    }
    let mut body_fn_name = func.name.clone();
    push_text(&mut body_fn_name, ".loop");
    push_natural(&mut body_fn_name, lp.id as u128);
    push_text(&mut body_fn_name, ".body");
    Some(
        RegionDesc {
            func_idx,
            header: lp.header,
            kind,
            reduction,
            body_fn_name,
            start_val: bound_sym(&c.start),
            end_val: bound_sym(&c.end),
        },
    )
}

/// Builds the plan from the loops and the reports of every function.
///
/// A loop enters the plan when it counts, its report approves it, and it is outermost
/// or innermost: running a loop in the middle of a nest in parallel would serialize
/// every level below it. Sequential loops never enter.
#[verifier::rlimit(40)]
pub fn build_plan(
    funcs: &Vec<FuncIr>,
    loops: &Vec<LoopInfo>,
    reports: &Vec<Vec<LoopReport>>,
) -> (r: ParallelPlan)
    requires
        forall|i: int, j: int|
            0 <= i < funcs@.len() && i < loops@.len() && 0 <= j < loops@[i].loops@.len()
                ==> funcs@[i].has_block((#[trigger] loops@[i].loops@[j]).header),
    ensures
        regions(r.regions@) == program_regions(
            funcs@,
            loops@,
            reports@,
            reported(funcs@, loops@, reports@),
        ),
{
    let mut out: Vec<RegionDesc> = Vec::new();
    let mut i: usize = 0;
    assert(regions(out@) =~= seq![]);
    while i < funcs.len() && i < loops.len() && i < reports.len()
        invariant
            forall|i: int, j: int|
                0 <= i < funcs@.len() && i < loops@.len() && 0 <= j < loops@[i].loops@.len()
                    ==> funcs@[i].has_block((#[trigger] loops@[i].loops@[j]).header),
            i <= reported(funcs@, loops@, reports@),
            regions(out@) == program_regions(funcs@, loops@, reports@, i as nat),
        decreases funcs@.len() - i,
    {
        let info = &loops[i];
        let ghost start = regions(out@);
        let mut k: usize = 0;
        assert(start + seq![] =~= start);
        while k < info.loops.len()
            invariant
                forall|i: int, j: int|
                    0 <= i < funcs@.len() && i < loops@.len() && 0 <= j < loops@[i].loops@.len()
                        ==> funcs@[i].has_block((#[trigger] loops@[i].loops@[j]).header),
                i < funcs@.len(),
                i < loops@.len(),
                i < reports@.len(),
                *info == loops@[i as int],
                k <= info.loops@.len(),
                regions(out@) == start + function_regions(
                    funcs@[i as int],
                    i as int,
                    *info,
                    reports@[i as int]@,
                    k as nat,
                ),
            decreases info.loops@.len() - k,
        {
            assert(loops@[i as int].loops@[k as int] == info.loops@[k as int]);
            if let Some(d) = approve(&funcs[i], i, info, &reports[i], &info.loops[k]) {
                let ghost before = out@;
                let ghost added = d@;
                out.push(d);
                proof {
                    let got = function_regions(
                        funcs@[i as int],
                        i as int,
                        *info,
                        reports@[i as int]@,
                        k as nat,
                    );
                    assert(regions(out@) =~= regions(before).push(added));
                    assert(start + got.push(added) =~= (start + got).push(added));
                }
            }
            k = k + 1;
        }
        i = i + 1;
    }
    ParallelPlan { regions: out }
}

} // verus!
