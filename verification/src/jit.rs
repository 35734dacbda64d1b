//! Compilation of a whole program: what is declared, what every function and every
//! body of a region is lowered to, and what the host has to register.
use vstd::prelude::*;

use crate::bodies::law_bodies_can_be_lowered;
use crate::clif::{
    body_sig, body_signature, builtin_names, builtin_signature, callee_views, dispatch_names,
    host_sig, params_below, sig_of, signature_of, Callee, CalleeV, ClifFunc,
};
use crate::ctx::CTX_ARRAY_BASE;
use crate::dispatch::{combine_for, combined_by, Combine};
use crate::graph::back_edge;
use crate::ir::{BlockId, FuncIr};
use crate::lower::{
    can_lower, hook_fits, is_clif, is_lowered, lowerable, lowered, named, plain, setting,
    translate_body_fn, translate_fn_rt, Low,
};
use crate::outline::RKind;
use crate::parallel::{
    candidates, hook_of, is_candidate, is_planned, lemma_prepared, parts_of, plan_fits, prepare,
    prepared, HookV, PlannedRegion, RegionIds, RtHook, SpecMeta,
};
use crate::plan::{ParallelPlan, RegionDesc};
use crate::search::{first_where, lemma_first_where, lemma_first_where_is, lemma_first_where_none};
use crate::text::{is_text, push_text};

verus! {

/// What the host registers for a region once code has its place.
#[derive(Debug)]
pub struct RegionEntry {
    pub region_id: i64,
    /// The body, by its position among the callees.
    pub body: usize,
    pub combine: Combine,
    pub meta: SpecMeta,
}

/// A compiled program that is ready to be placed. Functions and bodies are the first callees, in order; the rest
/// are functions of the host.
#[derive(Debug)]
pub struct JitEngine {
    pub callees: Vec<Callee>,
    pub functions: Vec<ClifFunc>,
    pub bodies: Vec<ClifFunc>,
    pub regions: Vec<RegionEntry>,
    /// `main`, by its position among the callees.
    pub main: usize,
}

/// A region of function `i`.
pub open spec fn of_func(i: usize) -> spec_fn(PlannedRegion) -> bool {
    |r: PlannedRegion| r.func_idx == i
}

/// The region that function `i` hands to the host: its first one.
pub open spec fn hook_at(regions: Seq<PlannedRegion>, i: usize) -> Option<HookV> {
    match first_where(regions, of_func(i)) {
        Some(k) => Some(hook_of(regions[k])),
        None => None,
    }
}

/// The functions of the program.
pub open spec fn fn_callees(program: Seq<FuncIr>) -> Seq<CalleeV> {
    program.map_values(|f: FuncIr| CalleeV { name: f.name@, sig: sig_of(f) })
}

/// The bodies of the regions.
pub open spec fn body_callees(regions: Seq<PlannedRegion>) -> Seq<CalleeV> {
    regions.map_values(
        |r: PlannedRegion| CalleeV { name: r.body_fn_name@, sig: body_sig() },
    )
}

/// Functions of the host.
pub open spec fn host_callees(names: Seq<Seq<char>>) -> Seq<CalleeV> {
    names.map_values(|n: Seq<char>| CalleeV { name: n, sig: host_sig(n)->0 })
}

/// Everything that is declared, in order.
pub open spec fn declared(program: Seq<FuncIr>, regions: Seq<PlannedRegion>) -> Seq<CalleeV> {
    fn_callees(program) + body_callees(regions) + host_callees(builtin_names()) + host_callees(
        dispatch_names(),
    )
}

/// What function `i` is lowered to.
pub open spec fn fn_low(
    program: Seq<FuncIr>,
    regions: Seq<PlannedRegion>,
    unchecked: bool,
    i: int,
) -> Result<Low, Seq<char>> {
    let f = program[i];
    lowered(
        f,
        unchecked,
        declared(program, regions),
        seq![],
        sig_of(f),
        setting(f, hook_at(regions, i as usize), sig_of(f).returns),
    )
}

/// A body that can be lowered: it takes the iteration and the context.
pub open spec fn body_fits(f: FuncIr) -> bool {
    lowerable(f) && params_below(f, f.at(f.entry).phis@.len()).len() <= 2
}

/// What the body of region `i` is lowered to.
pub open spec fn body_low(
    program: Seq<FuncIr>,
    regions: Seq<PlannedRegion>,
    unchecked: bool,
    i: int,
) -> Result<Low, Seq<char>> {
    let r = regions[i];
    lowered(
        r.body,
        unchecked,
        declared(program, regions),
        r.array_prebind@,
        body_sig(),
        setting(r.body, None, seq![]),
    )
}

/// The first error among the first `k` functions.
pub open spec fn fn_fault(
    program: Seq<FuncIr>,
    regions: Seq<PlannedRegion>,
    unchecked: bool,
    k: nat,
) -> Option<Seq<char>>
    decreases k,
{
    if k == 0 {
        None
    } else {
        match fn_fault(program, regions, unchecked, (k - 1) as nat) {
            Some(m) => Some(m),
            None => match fn_low(program, regions, unchecked, k - 1) {
                Ok(_) => None,
                Err(m) => Some(m),
            },
        }
    }
}

/// The first error among the first `k` bodies.
pub open spec fn body_fault(
    program: Seq<FuncIr>,
    regions: Seq<PlannedRegion>,
    unchecked: bool,
    k: nat,
) -> Option<Seq<char>>
    decreases k,
{
    if k == 0 {
        None
    } else {
        match body_fault(program, regions, unchecked, (k - 1) as nat) {
            Some(m) => Some(m),
            None => match body_low(program, regions, unchecked, k - 1) {
                Ok(_) => None,
                Err(m) => Some(m),
            },
        }
    }
}

/// Why a program does not compile: a function, a body, or no `main`.
pub open spec fn compile_fault(
    program: Seq<FuncIr>,
    regions: Seq<PlannedRegion>,
    unchecked: bool,
) -> Option<Seq<char>> {
    match fn_fault(program, regions, unchecked, program.len()) {
        Some(m) => Some(m),
        None => match body_fault(program, regions, unchecked, regions.len()) {
            Some(m) => Some(m),
            None => if first_where(declared(program, regions), named("main"@)) is None {
                Some("program has no fn main()"@)
            } else {
                None
            },
        },
    }
}

/// What the dispatcher is told of a region.
pub open spec fn meta_of(r: PlannedRegion) -> SpecMeta {
    SpecMeta {
        len_bytes: (CTX_ARRAY_BASE + 16 * r.layout.arrays@.len() + 8
            * r.layout.scalars@.len()) as i64,
        acc: match r.kind {
            RKind::DoAll => None,
            RKind::Reduction(s) => Some((s.width, s.float)),
        },
        seed: r.seed,
    }
}

/// The program as it is compiled.
pub open spec fn is_compiled(
    c: JitEngine,
    program: Seq<FuncIr>,
    regions: Seq<PlannedRegion>,
    unchecked: bool,
) -> bool {
    let all = declared(program, regions);
    &&& callee_views(c.callees@) == all
    &&& c.functions@.len() == program.len()
    &&& forall|i: int|
        0 <= i < program.len() ==> is_clif(
            #[trigger] c.functions@[i],
            program[i].entry,
            sig_of(program[i]),
            fn_low(program, regions, unchecked, i)->Ok_0,
        )
    &&& c.bodies@.len() == regions.len()
    &&& forall|i: int|
        0 <= i < regions.len() ==> is_clif(
            #[trigger] c.bodies@[i],
            regions[i].body.entry,
            body_sig(),
            body_low(program, regions, unchecked, i)->Ok_0,
        )
    &&& c.regions@.len() == regions.len()
    &&& forall|i: int|
        0 <= i < regions.len() ==> {
            let e = #[trigger] c.regions@[i];
            let r = regions[i];
            &&& e.region_id == r.region_id
            &&& first_where(all, named(r.body_fn_name@)) == Some(e.body as int)
            &&& e.combine == combined_by(r.kind)
            &&& e.meta == meta_of(r)
        }
    &&& first_where(all, named("main"@)) == Some(c.main as int)
}

/// The regions fit the program.
pub open spec fn regions_fit(program: Seq<FuncIr>, regions: Seq<PlannedRegion>) -> bool {
    forall|k: int|
        0 <= k < regions.len() ==> {
            let r = #[trigger] regions[k];
            &&& r.layout.packed()
            &&& body_fits(r.body)
            &&& r.func_idx < program.len() ==> hook_fits(
                program[r.func_idx as int],
                hook_of(r),
            )
        }
}

/// Names of functions of the host.
fn host_names() -> (r: Vec<&'static str>)
    ensures
        r@.len() == builtin_names().len() + dispatch_names().len(),
        forall|k: int|
            0 <= k < r@.len() ==> (#[trigger] r@[k])@ == (builtin_names() + dispatch_names())[k],
{
    let v: Vec<&'static str> = vec![
        "helix_print_i64",
        "helix_print_f32",
        "helix_print_f64",
        "helix_print_bool",
        "helix_zeros",
        "helix_len",
        "helix_panic",
        "helix_stash_i",
        "helix_stash_f",
        "helix_stash_arr",
        "helix_dispatch",
        "helix_read_i64",
        "helix_read_i32",
        "helix_read_f64",
        "helix_read_f32",
        "helix_ld_i64",
        "helix_ld_i32",
        "helix_ld_f64",
        "helix_ld_f32",
        "helix_acc_load_i64",
        "helix_acc_load_i32",
        "helix_acc_load_f64",
        "helix_acc_load_f32",
        "helix_acc_store_i64",
        "helix_acc_store_i32",
        "helix_acc_store_f64",
        "helix_acc_store_f32",
    ];
    v
}

/// Every function of the host has a signature.
proof fn lemma_host_sigs(k: int)
    requires
        0 <= k < (builtin_names() + dispatch_names()).len(),
    ensures
        host_sig((builtin_names() + dispatch_names())[k]) is Some,
{
}

/// A copy of a text.
fn copy_text(s: &String) -> (r: String)
    ensures
        r@ == s@,
{
    s.as_str().to_owned()
}

/// Declares everything, in order.
#[verifier::rlimit(40)]
fn declare(program: &Vec<FuncIr>, regions: &Vec<PlannedRegion>) -> (r: Vec<Callee>)
    requires
        forall|i: int| 0 <= i < program@.len() ==> lowerable(#[trigger] program@[i]),
    ensures
        callee_views(r@) == declared(program@, regions@),
{
    let mut out: Vec<Callee> = Vec::new();
    let mut i: usize = 0;
    while i < program.len()
        invariant
            forall|i: int| 0 <= i < program@.len() ==> lowerable(#[trigger] program@[i]),
            i <= program@.len(),
            out@.len() == i,
            forall|j: int| 0 <= j < i ==> (#[trigger] out@[j])@ == fn_callees(program@)[j],
        decreases program@.len() - i,
    {
        let f = &program[i];
        let c = Callee { name: copy_text(&f.name), sig: signature_of(f) };
        out.push(c);
        i = i + 1;
    }
    let ghost n = program@.len() as int;
    let mut k: usize = 0;
    while k < regions.len()
        invariant
            n == program@.len(),
            k <= regions@.len(),
            out@.len() == n + k,
            forall|j: int| 0 <= j < n ==> (#[trigger] out@[j])@ == fn_callees(program@)[j],
            forall|j: int|
                n <= j < n + k ==> (#[trigger] out@[j])@ == body_callees(regions@)[j - n],
        decreases regions@.len() - k,
    {
        let c = Callee { name: copy_text(&regions[k].body_fn_name), sig: body_signature() };
        out.push(c);
        k = k + 1;
    }
    let ghost m = n + regions@.len();
    let names = host_names();
    let ghost all = builtin_names() + dispatch_names();
    let mut h: usize = 0;
    while h < names.len()
        invariant
            n == program@.len(),
            m == n + regions@.len(),
            all == builtin_names() + dispatch_names(),
            h <= names@.len(),
            names@.len() == all.len(),
            forall|k: int| 0 <= k < names@.len() ==> (#[trigger] names@[k])@ == all[k],
            out@.len() == m + h,
            forall|j: int| 0 <= j < n ==> (#[trigger] out@[j])@ == fn_callees(program@)[j],
            forall|j: int| n <= j < m ==> (#[trigger] out@[j])@ == body_callees(regions@)[j - n],
            forall|j: int| m <= j < m + h ==> (#[trigger] out@[j])@ == host_callees(all)[j - m],
        decreases names@.len() - h,
    {
        proof {
            lemma_host_sigs(h as int);
        }
        let name = names[h];
        if let Some(sig) = builtin_signature(name) {
            let c = Callee { name: name.to_owned(), sig };
            out.push(c);
        }
        h = h + 1;
    }
    proof {
        let want = declared(program@, regions@);
        assert(callee_views(out@).len() == want.len());
        assert forall|j: int| 0 <= j < want.len() implies #[trigger] callee_views(out@)[j]
            == want[j] by {
            assert(callee_views(out@)[j] == out@[j]@);
            if j >= m {
                assert(host_callees(all)[j - m] == want[j]);
            }
        }
        assert(callee_views(out@) =~= want);
    }
    out
}

/// The first callee of that name.
fn find_callee(callees: &Vec<Callee>, name: &str) -> (r: Option<usize>)
    ensures
        match r {
            Some(k) => first_where(callee_views(callees@), named(name@)) == Some(k as int),
            None => first_where(callee_views(callees@), named(name@)) is None,
        },
{
    let ghost p = named(name@);
    let ghost views = callee_views(callees@);
    let mut k: usize = 0;
    while k < callees.len()
        invariant
            p == named(name@),
            views == callee_views(callees@),
            k <= callees@.len(),
            forall|j: int| 0 <= j < k ==> !p(#[trigger] views[j]),
        decreases callees@.len() - k,
    {
        if is_text(&callees[k].name, name) {
            proof {
                assert(p(views[k as int]));
                lemma_first_where_is(views, p, k as int);
            }
            return Some(k);
        }
        k = k + 1;
    }
    proof {
        lemma_first_where_none(views, p);
    }
    None
}

/// The hook of function `i`.
fn find_hook(regions: &Vec<PlannedRegion>, i: usize) -> (r: Option<RtHook>)
    ensures
        match hook_at(regions@, i) {
            Some(h) => r matches Some(x) && x@ == h,
            None => r is None,
        },
        r is Some ==> exists|k: int|
            0 <= k < regions@.len() && (#[trigger] regions@[k]).func_idx == i && r->0@
                == hook_of(regions@[k]),
{
    let ghost p = of_func(i);
    let mut k: usize = 0;
    while k < regions.len()
        invariant
            p == of_func(i),
            k <= regions@.len(),
            forall|j: int| 0 <= j < k ==> !p(#[trigger] regions@[j]),
        decreases regions@.len() - k,
    {
        if regions[k].func_idx == i {
            proof {
                lemma_first_where_is(regions@, p, k as int);
            }
            return Some(RtHook::of(&regions[k]));
        }
        k = k + 1;
    }
    proof {
        lemma_first_where_none(regions@, p);
    }
    None
}

/// Lowers every function of the program.
#[verifier::rlimit(40)]
fn lower_functions(
    program: &Vec<FuncIr>,
    regions: &Vec<PlannedRegion>,
    unchecked: bool,
    callees: &Vec<Callee>,
) -> (r: Result<Vec<ClifFunc>, String>)
    requires
        forall|i: int| 0 <= i < program@.len() ==> lowerable(#[trigger] program@[i]),
        regions_fit(program@, regions@),
        callee_views(callees@) == declared(program@, regions@),
    ensures
        match fn_fault(program@, regions@, unchecked, program@.len()) {
            Some(m) => r matches Err(s) && s@ == m,
            None => r matches Ok(v) && v@.len() == program@.len() && forall|i: int|
                0 <= i < program@.len() ==> is_clif(
                    #[trigger] v@[i],
                    program@[i].entry,
                    sig_of(program@[i]),
                    fn_low(program@, regions@, unchecked, i)->Ok_0,
                ),
        },
{
    let mut out: Vec<ClifFunc> = Vec::new();
    let mut i: usize = 0;
    while i < program.len()
        invariant
            forall|i: int| 0 <= i < program@.len() ==> lowerable(#[trigger] program@[i]),
            regions_fit(program@, regions@),
            callee_views(callees@) == declared(program@, regions@),
            i <= program@.len(),
            out@.len() == i,
            fn_fault(program@, regions@, unchecked, i as nat) is None,
            forall|j: int|
                0 <= j < i ==> is_clif(
                    #[trigger] out@[j],
                    program@[j].entry,
                    sig_of(program@[j]),
                    fn_low(program@, regions@, unchecked, j)->Ok_0,
                ),
        decreases program@.len() - i,
    {
        let f = &program[i];
        let hook = find_hook(regions, i);
        let hook_ref: Option<&RtHook> = match &hook {
            Some(h) => Some(h),
            None => None,
        };
        proof {
            if hook is Some {
                let k = choose|k: int|
                    0 <= k < regions@.len() && (#[trigger] regions@[k]).func_idx == i && hook->0@
                        == hook_of(regions@[k]);
                assert(regions@[k].layout.packed());
                assert(hook_fits(program@[i as int], hook->0@));
            }
            assert(plain(hook_ref) == hook_at(regions@, i));
        }
        let got = translate_fn_rt(f, unchecked, callees, hook_ref);
        proof {
            assert(is_lowered(
                got,
                f.entry,
                sig_of(*f),
                fn_low(program@, regions@, unchecked, i as int),
            ));
        }
        match got {
            Ok(c) => {
                out.push(c);
            },
            Err(m) => {
                proof {
                    lemma_fn_fault_stays(
                        program@,
                        regions@,
                        unchecked,
                        (i + 1) as nat,
                        program@.len(),
                    );
                }
                return Err(m);
            },
        }
        i = i + 1;
    }
    Ok(out)
}

/// Lowers the body of a region.
fn lower_body(r: &PlannedRegion, unchecked: bool, callees: &Vec<Callee>) -> (out: Result<
    ClifFunc,
    String,
>)
    requires
        body_fits(r.body),
    ensures
        is_lowered(
            out,
            r.body.entry,
            body_sig(),
            lowered(
                r.body,
                unchecked,
                callee_views(callees@),
                r.array_prebind@,
                body_sig(),
                setting(r.body, None, seq![]),
            ),
        ),
{
    translate_body_fn(&r.body, unchecked, callees, &r.array_prebind)
}

/// Lowers the bodies of all regions.
#[verifier::rlimit(40)]
fn lower_bodies(
    program: &Vec<FuncIr>,
    regions: &Vec<PlannedRegion>,
    unchecked: bool,
    callees: &Vec<Callee>,
) -> (r: Result<Vec<ClifFunc>, String>)
    requires
        callee_views(callees@) == declared(program@, regions@),
        regions_fit(program@, regions@),
    ensures
        match body_fault(program@, regions@, unchecked, regions@.len()) {
            Some(m) => r matches Err(s) && s@ == m,
            None => r matches Ok(v) && v@.len() == regions@.len() && forall|i: int|
                0 <= i < regions@.len() ==> is_clif(
                    #[trigger] v@[i],
                    regions@[i].body.entry,
                    body_sig(),
                    body_low(program@, regions@, unchecked, i)->Ok_0,
                ),
        },
{
    let mut out: Vec<ClifFunc> = Vec::new();
    let mut i: usize = 0;
    while i < regions.len()
        invariant
            callee_views(callees@) == declared(program@, regions@),
            regions_fit(program@, regions@),
            i <= regions@.len(),
            out@.len() == i,
            body_fault(program@, regions@, unchecked, i as nat) is None,
            forall|j: int|
                0 <= j < i ==> is_clif(
                    #[trigger] out@[j],
                    regions@[j].body.entry,
                    body_sig(),
                    body_low(program@, regions@, unchecked, j)->Ok_0,
                ),
        decreases regions@.len() - i,
    {
        let got = lower_body(&regions[i], unchecked, callees);
        proof {
            assert(is_lowered(
                got,
                regions@[i as int].body.entry,
                body_sig(),
                body_low(program@, regions@, unchecked, i as int),
            ));
        }
        match got {
            Ok(c) => {
                out.push(c);
            },
            Err(m) => {
                proof {
                    lemma_body_fault_stays(
                        program@,
                        regions@,
                        unchecked,
                        (i + 1) as nat,
                        regions@.len(),
                    );
                }
                return Err(m);
            },
        }
        i = i + 1;
    }
    Ok(out)
}

/// What the host registers.
#[verifier::rlimit(40)]
fn register_all(
    program: &Vec<FuncIr>,
    regions: &Vec<PlannedRegion>,
    callees: &Vec<Callee>,
) -> (r: Vec<RegionEntry>)
    requires
        regions_fit(program@, regions@),
        callee_views(callees@) == declared(program@, regions@),
    ensures
        r@.len() == regions@.len(),
        forall|i: int|
            0 <= i < regions@.len() ==> {
                let e = #[trigger] r@[i];
                let g = regions@[i];
                &&& e.region_id == g.region_id
                &&& first_where(declared(program@, regions@), named(g.body_fn_name@)) == Some(
                    e.body as int,
                )
                &&& e.combine == combined_by(g.kind)
                &&& e.meta == meta_of(g)
            },
{
    let ghost all = declared(program@, regions@);
    let mut out: Vec<RegionEntry> = Vec::new();
    let mut i: usize = 0;
    while i < regions.len()
        invariant
            regions_fit(program@, regions@),
            all == declared(program@, regions@),
            callee_views(callees@) == all,
            i <= regions@.len(),
            out@.len() == i,
            forall|j: int|
                0 <= j < i ==> {
                    let e = #[trigger] out@[j];
                    let g = regions@[j];
                    &&& e.region_id == g.region_id
                    &&& first_where(all, named(g.body_fn_name@)) == Some(e.body as int)
                    &&& e.combine == combined_by(g.kind)
                    &&& e.meta == meta_of(g)
                },
        decreases regions@.len() - i,
    {
        let r = &regions[i];
        proof {
            assert(regions@[i as int].layout.packed());
            let p = named(r.body_fn_name@);
            lemma_first_where(all, p);
            assert(p(all[program@.len() + i]));
        }
        if let Some(body) = find_callee(callees, r.body_fn_name.as_str()) {
            let e = RegionEntry {
                region_id: r.region_id,
                body,
                combine: combine_for(r.kind),
                meta: r.spec_meta(),
            };
            out.push(e);
        }
        i = i + 1;
    }
    out
}

/// Compiles a program whose regions were taken out.
pub fn compile_regions(
    program: &Vec<FuncIr>,
    regions: &Vec<PlannedRegion>,
    unchecked: bool,
) -> (r: Result<JitEngine, String>)
    requires
        forall|i: int| 0 <= i < program@.len() ==> lowerable(#[trigger] program@[i]),
        regions_fit(program@, regions@),
    ensures
        match compile_fault(program@, regions@, unchecked) {
            Some(m) => r matches Err(s) && s@ == m,
            None => r matches Ok(c) && is_compiled(c, program@, regions@, unchecked),
        },
{
    let callees = declare(program, regions);
    let functions = match lower_functions(program, regions, unchecked, &callees) {
        Ok(v) => v,
        Err(m) => {
            return Err(m);
        },
    };
    let bodies = match lower_bodies(program, regions, unchecked, &callees) {
        Ok(v) => v,
        Err(m) => {
            return Err(m);
        },
    };
    let entries = register_all(program, regions, &callees);
    match find_callee(&callees, "main") {
        Some(main) => Ok(JitEngine { callees, functions, bodies, regions: entries, main }),
        None => Err("program has no fn main()".to_owned()),
    }
}

impl JitEngine {
    /// Compiles a program: takes the planned regions out, and lowers everything. Regions
    /// that cannot be taken out run sequentially.
    pub fn compile(
        program: &Vec<FuncIr>,
        plan: &ParallelPlan,
        unchecked: bool,
        ids: &mut RegionIds,
    ) -> (r: Result<JitEngine, String>)
        requires
            forall|i: int| 0 <= i < program@.len() ==> lowerable(#[trigger] program@[i]),
            plan_fits(plan.regions@, program@),
        ensures
            final(ids).next == candidates(
                plan.regions@,
                program@,
                old(ids).next,
                plan.regions@.len(),
            ).1,
            exists|regions: Seq<PlannedRegion>|
                {
                    &&& #[trigger] are_planned(plan.regions@, program@, old(ids).next, regions)
                    &&& match compile_fault(program@, regions, unchecked) {
                        Some(m) => r matches Err(s) && s@ == m,
                        None => r matches Ok(c) && is_compiled(c, program@, regions, unchecked),
                    }
                },
    {
        let regions = prepare(plan, program, ids);
        proof {
            lemma_planned_fit(plan.regions@, program@, old(ids).next, regions@);
        }
        let out = compile_regions(program, &regions, unchecked);
        proof {
            assert(are_planned(plan.regions@, program@, old(ids).next, regions@));
        }
        out
    }
}

/// The regions that the preparation of a plan takes out.
pub open spec fn are_planned(
    descs: Seq<RegionDesc>,
    program: Seq<FuncIr>,
    first: i64,
    regions: Seq<PlannedRegion>,
) -> bool {
    &&& regions.len() == prepared(descs, program, first).len()
    &&& forall|i: int|
        0 <= i < regions.len() ==> is_planned(
            descs,
            program,
            prepared(descs, program, first)[i],
            #[trigger] regions[i],
        )
}

/// Regions that were taken out fit the program.
proof fn lemma_planned_fit(
    descs: Seq<RegionDesc>,
    program: Seq<FuncIr>,
    first: i64,
    regions: Seq<PlannedRegion>,
)
    requires
        forall|i: int| 0 <= i < program.len() ==> lowerable(#[trigger] program[i]),
        plan_fits(descs, program),
        are_planned(descs, program, first, regions),
    ensures
        regions_fit(program, regions),
{
    assert forall|k: int| 0 <= k < regions.len() implies {
        let r = #[trigger] regions[k];
        &&& r.layout.packed()
        &&& body_fits(r.body)
        &&& r.func_idx < program.len() ==> hook_fits(program[r.func_idx as int], hook_of(r))
    } by {
        reveal(is_planned);
        lemma_prepared(descs, program, first);
        let r = regions[k];
        let c = prepared(descs, program, first)[k];
        assert(is_candidate(descs, program, c));
        assert(is_planned(descs, program, c, r));
        let d = descs[c.desc];
        let p = parts_of(program, d)->0;
        let f = program[d.func_idx as int];
        assert(r.layout.packed());
        assert(f.at(d.header).term.targets()[1] == r.exit);
        if d.func_idx < program.len() {
            assert(lowerable(program[d.func_idx as int]));
            let b = choose|b: BlockId| back_edge(f, b, d.header);
            let i = choose|i: int|
                0 <= i < f.at(b).term.targets().len() && f.at(b).term.targets()[i] == d.header;
            assert(f.has_block(f.at(b).term.targets()[i]));
            assert(f.edge(d.header, r.exit));
            law_bodies_can_be_lowered(f, d.header, d.kind, r.body);
        }
    }
}

/// An error stays the first one.
proof fn lemma_fn_fault_stays(
    program: Seq<FuncIr>,
    regions: Seq<PlannedRegion>,
    unchecked: bool,
    k: nat,
    n: nat,
)
    requires
        k <= n,
        fn_fault(program, regions, unchecked, k) is Some,
    ensures
        fn_fault(program, regions, unchecked, n) == fn_fault(program, regions, unchecked, k),
    decreases n,
{
    if k < n {
        lemma_fn_fault_stays(program, regions, unchecked, k, (n - 1) as nat);
    }
}

/// An error stays the first one.
proof fn lemma_body_fault_stays(
    program: Seq<FuncIr>,
    regions: Seq<PlannedRegion>,
    unchecked: bool,
    k: nat,
    n: nat,
)
    requires
        k <= n,
        body_fault(program, regions, unchecked, k) is Some,
    ensures
        body_fault(program, regions, unchecked, n) == body_fault(program, regions, unchecked, k),
    decreases n,
{
    if k < n {
        lemma_body_fault_stays(program, regions, unchecked, k, (n - 1) as nat);
    }
}

} // verus!
