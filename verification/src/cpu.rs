//! Machine functions at work: memory, calls of the host, and control that goes from
//! instruction to instruction.
use vstd::prelude::*;

use crate::clif::{scalar_ty, ClifTy, OpV, Val};
use crate::floats::FloatWorld;
use crate::lower::Low;
use crate::operators::{machine_value, scalar, type_of, whole};
use crate::value::Value;

verus! {

/// Values in memory, by the address of their first byte.
pub type Memory = Map<int, Value>;

/// Memory, and all that the host keeps.
#[verifier::reject_recursive_types(H)]
pub struct Scene<H> {
    pub mem: Memory,
    pub host: H,
}

/// What the host does when it is called.
#[verifier::reject_recursive_types(H)]
pub enum Reply<H> {
    /// It gives back values.
    Gives(Seq<Value>, Scene<H>),
    /// The program ends.
    Stops(Scene<H>),
}

/// What machine code runs on: floating-point operations, and the functions that can be
/// called, by their names.
#[verifier::reject_recursive_types(H)]
pub struct Machine<H> {
    pub floats: FloatWorld,
    pub host: spec_fn(Seq<char>, Seq<Value>, Scene<H>) -> Reply<H>,
}

/// The size of a value in bytes.
pub open spec fn bytes_of(v: Value) -> int {
    match v {
        Value::I32(_) => 4,
        Value::F32(_) => 4,
        Value::Bool(_) => 1,
        _ => 8,
    }
}

/// The bytes from `a` on and the bytes from `b` on have one in common.
pub open spec fn overlap(a: int, m: int, b: int, n: int) -> bool {
    a < b + n && b < a + m
}

/// Memory with a value written. What the value covers in part is lost.
pub open spec fn written(mem: Memory, a: int, v: Value) -> Memory {
    Map::new(
        |x: int|
            x == a || (mem.dom().contains(x) && !overlap(x, bytes_of(mem[x]), a, bytes_of(v))),
        |x: int|
            if x == a {
                v
            } else {
                mem[x]
            },
    )
}

/// The value of a type at an address.
pub open spec fn read(mem: Memory, a: int, t: ClifTy) -> Option<Value> {
    if mem.dom().contains(a) && scalar(mem[a]) && scalar_ty(type_of(mem[a])) == t {
        Some(mem[a])
    } else {
        None
    }
}

/// The values of the first `k` parameters are those of the arguments.
pub open spec fn passed_on(
    params: Seq<Val>,
    args: Seq<Val>,
    env: Map<usize, Value>,
    k: nat,
) -> Map<usize, Value>
    decreases k,
{
    if k == 0 {
        env
    } else {
        passed_on(params, args, env, (k - 1) as nat).insert(params[k - 1].0, env[args[k - 1].0])
    }
}

/// What machine values are.
pub open spec fn values(xs: Seq<Val>, env: Map<usize, Value>) -> Seq<Value> {
    xs.map_values(|x: Val| env[x.0])
}

/// Where a run is.
#[verifier::reject_recursive_types(H)]
pub enum Config<H> {
    /// At an instruction of a block, with the values of all machine values.
    At(int, int, Map<usize, Value>, Scene<H>),
    /// Through, with what the function gives back.
    Returned(Seq<Value>, Scene<H>),
    /// The host ended the program.
    Stopped(Scene<H>),
    /// Nothing is said of how it goes on.
    Lost,
}

/// The name of an import.
pub open spec fn callee_name(p: Low, f: usize) -> Seq<char> {
    p.callees[p.imports[f as int] as int].name
}

/// One instruction. Functions give back one value at most.
pub open spec fn tick<H>(m: Machine<H>, p: Low, c: Config<H>) -> Config<H> {
    match c {
        Config::At(b, k, env, sc) => if !(0 <= b < p.blocks.len() && 0 <= k
            < p.blocks[b].insts.len()) {
            Config::Lost
        } else {
            let i = p.blocks[b].insts[k];
            match i.op {
                OpV::Load(t, a) => match read(sc.mem, whole(env[a.0]), t) {
                    Some(v) => Config::At(b, k + 1, env.insert(i.first, v), sc),
                    None => Config::Lost,
                },
                OpV::Store(x, a) => Config::At(
                    b,
                    k + 1,
                    env,
                    Scene { mem: written(sc.mem, whole(env[a.0]), env[x.0]), host: sc.host },
                ),
                OpV::Call(f, xs) => match (m.host)(callee_name(p, f), values(xs, env), sc) {
                    Reply::Gives(rs, now) => if rs.len() != i.count {
                        Config::Lost
                    } else if rs.len() == 0 {
                        Config::At(b, k + 1, env, now)
                    } else {
                        Config::At(b, k + 1, env.insert(i.first, rs[0]), now)
                    },
                    Reply::Stops(now) => Config::Stopped(now),
                },
                OpV::Jump(t, xs) => Config::At(
                    t as int,
                    0,
                    passed_on(p.blocks[t as int].params, xs, env, xs.len()),
                    sc,
                ),
                OpV::Brif(c, t, xs, f, ys) => if env[c.0] == Value::Bool(true) {
                    Config::At(
                        t as int,
                        0,
                        passed_on(p.blocks[t as int].params, xs, env, xs.len()),
                        sc,
                    )
                } else {
                    Config::At(
                        f as int,
                        0,
                        passed_on(p.blocks[f as int].params, ys, env, ys.len()),
                        sc,
                    )
                },
                OpV::Return(xs) => Config::Returned(values(xs, env), sc),
                op => Config::At(
                    b,
                    k + 1,
                    env.insert(i.first, machine_value(m.floats, op, env)),
                    sc,
                ),
            }
        },
        c => c,
    }
}

/// So many instructions.
pub open spec fn ticks<H>(m: Machine<H>, p: Low, c: Config<H>, n: nat) -> Config<H>
    decreases n,
{
    if n == 0 {
        c
    } else {
        tick(m, p, ticks(m, p, c, (n - 1) as nat))
    }
}

/// The run comes from one place to the other.
pub open spec fn comes<H>(m: Machine<H>, p: Low, c: Config<H>, d: Config<H>) -> bool {
    exists|n: nat| #[trigger] ticks(m, p, c, n) == d
}

proof fn lemma_ticks_on<H>(m: Machine<H>, p: Low, c: Config<H>, j: nat, k: nat)
    ensures
        ticks(m, p, ticks(m, p, c, j), k) == ticks(m, p, c, j + k),
    decreases k,
{
    if k > 0 {
        lemma_ticks_on(m, p, c, j, (k - 1) as nat);
        assert(j + k - 1 == j + (k - 1) as nat);
    }
}

/// A run goes on.
pub proof fn lemma_comes_on<H>(m: Machine<H>, p: Low, c: Config<H>, d: Config<H>, e: Config<H>)
    requires
        comes(m, p, c, d),
        comes(m, p, d, e),
    ensures
        comes(m, p, c, e),
{
    let j = choose|n: nat| #[trigger] ticks(m, p, c, n) == d;
    let k = choose|n: nat| #[trigger] ticks(m, p, d, n) == e;
    lemma_ticks_on(m, p, c, j, k);
    assert(ticks(m, p, c, j + k) == e);
}

/// A run is where it is, and one instruction later it is there.
pub proof fn lemma_comes<H>(m: Machine<H>, p: Low, c: Config<H>)
    ensures
        comes(m, p, c, c),
        comes(m, p, c, tick(m, p, c)),
{
    assert(ticks(m, p, c, 0) == c);
    assert(ticks(m, p, c, 1) == tick(m, p, ticks(m, p, c, 0)));
}

} // verus!
