//! What machine code calls: tables, lines, runtime errors, contexts.
use helix::clif::{builtin_signature, clif_ty, elem_size as element_bytes, BinaryOp, Callee, ClifTy, Op};
use helix::ctx::{CTX_ACC_OFF, CTX_ARRAY_BASE};
use helix::deps::{Dir, DirVec};
use helix::dispatch::{
    cell_count, combine_bits, combine_i32, combine_i64, thread_budget, Combine, CombineTy, DispatchTables, CELL_WORDS,
    MAX_CELLS,
};
use helix::floats::{FloatOp, Precision};
use helix::host::{
    bool_line, ctx_read, elem_size, message_for, AllocAction, HostTables, PanicCode, PanicHook, PanicRoute, PrintBuffer, PrintSink,
};
use helix::ir::{
    BinOp, BlockData, BlockId, Constant, ElemTy, FuncIr, Inst, LocalId, Phi, Term, Ty, TypeTables, ValueId,
};
use helix::loops::find_loops;
use helix::lower::{can_lower, translate_fn};
use helix::numbers::{is_word, parse_u64, trim};
use helix::parallel::{RegionIds, SpecMeta};
use helix::pipeline::can_analyze;
use helix::reduce::ReductionOp;
use helix::traps;
use helix::traps::{bytes_for_zeros, panic_message, TrapAction, TrapRecorder};

#[test]
fn codes_round_trip() {
    for c in [PanicCode::Bounds, PanicCode::DivZero, PanicCode::DivOverflow, PanicCode::NegZeros] {
        assert_eq!(PanicCode::from_raw(c.raw()), Some(c));
    }
    assert_eq!(PanicCode::from_raw(0), None);
    assert_eq!(PanicCode::from_raw(5), None);
    assert_eq!(message_for(PanicCode::Bounds.raw()), "array index out of bounds");
    assert_eq!(message_for(PanicCode::DivZero.raw()), "integer division by zero");
    assert_eq!(message_for(PanicCode::DivOverflow.raw()), "integer division overflow (i64::MIN / -1)");
    assert_eq!(message_for(PanicCode::NegZeros.raw()), "negative zeros() length");
}

#[test]
fn hooks_get_runtime_errors() {
    let mut h: PanicHook<u8> = PanicHook::new();
    match h.helix_panic(PanicCode::Bounds.raw(), 12) {
        PanicRoute::Exit(t) => assert_eq!(t, "runtime error: array index out of bounds at line 12"),
        PanicRoute::Hook => panic!("no hook is installed"),
    }
    assert_eq!(h.set_panic_hook(7), None);
    assert_eq!(h.set_panic_hook(8), Some(7));
    assert!(matches!(h.helix_panic(1, 12), PanicRoute::Hook));
    h.clear_panic_hook();
    assert_eq!(h.hook, None);
}

#[test]
fn lines_are_captured_or_handed_on() {
    let mut p = PrintSink::new();
    assert_eq!(p.emit_line("a".to_string()), Some("a".to_string()));
    p.capture_prints();
    assert_eq!(p.emit_line("b".to_string()), None);
    assert_eq!(p.emit_line(bool_line(1)), None);
    assert_eq!(p.emit_line(bool_line(0)), None);
    assert_eq!(p.end_capture(), vec!["b", "true", "false"]);
    assert!(p.end_capture().is_empty());
    assert_eq!(p.emit_line("c".to_string()), Some("c".to_string()));
}

#[test]
fn arrays_are_recorded_by_their_tags() {
    let mut t = HostTables::new();
    assert_eq!(t.arr_lookup(3), (0, 0));
    t.arr_record(3, 4096, 10);
    assert_eq!(t.arr_lookup(3), (4096, 10));
    assert!(matches!(t.plan_alloc_zeros(-1, 8, 3), AllocAction::Trap(c) if c == PanicCode::NegZeros.raw()));
    assert!(matches!(t.plan_alloc_zeros(3, 4, 3), AllocAction::Bytes(16)));
    assert_eq!(t.arr_lookup(3), (4096, 10));
    assert!(matches!(t.plan_alloc_zeros(0, 8, 3), AllocAction::Null));
    assert_eq!(t.arr_lookup(3), (0, 0));
    t.finish_alloc_zeros(4, 8192, 2);
    assert_eq!(t.arr_lookup(4), (8192, 2));
    t.reset_tables();
    assert_eq!(t.arr_lookup(4), (0, 0));
}

#[test]
fn captures_keep_their_positions() {
    let mut t = HostTables::new();
    t.helix_stash_i64(2, 9);
    t.helix_stash_i64(-1, 5);
    t.helix_stash_f64(1, 1.5f64.to_bits());
    assert_eq!(t.take_captures(), (vec![5, 0, 9], vec![0, 1.5f64.to_bits()]));
    t.helix_stash_i64(0, 1);
    t.clear_captures();
    assert_eq!(t.take_captures(), (vec![], vec![]));
}

#[test]
fn contexts_are_little_endian() {
    let bytes = vec![0xff, 0x01, 0x02, 0x03, 0x04, 0x00, 0x00, 0x00, 0x80];
    assert_eq!(ctx_read(&bytes, 1, 4), 0x0403_0201);
    assert_eq!(ctx_read(&bytes, 1, 8), 0x8000_0000_0403_0201);
    assert_eq!(ctx_read(&bytes, 0, 0), 0);
    assert_eq!(elem_size(ElemTy::Bool), 8);
    assert_eq!(element_bytes(ElemTy::Bool), 1);
    assert_eq!(element_bytes(ElemTy::F32), 4);
    assert_eq!(clif_ty(Ty::Bool), ClifTy::I8);
}

#[test]
fn the_recorder_keeps_the_last_error() {
    let mut r = TrapRecorder::new();
    match r.helix_panic(traps::BOUNDS, 7, 3) {
        TrapAction::Exit(t) => assert_eq!(t, "runtime error: index 7 out of bounds for array of length 3"),
        TrapAction::Resume => panic!("not armed"),
    }
    assert_eq!(r.take_last_trap(), None);
    assert_eq!(r.take_last_panic().as_deref(), Some("index 7 out of bounds for array of length 3"));
    assert_eq!(r.take_last_panic(), None);
    r.arm_trap_recorder();
    assert!(matches!(r.helix_panic(traps::DIV_BY_ZERO, 0, 0), TrapAction::Resume));
    assert_eq!(r.take_last_trap(), Some((traps::DIV_BY_ZERO, 0, 0)));
    assert_eq!(r.take_last_trap(), None);
    assert!(matches!(r.helix_panic(traps::DIV_OVERFLOW, 1, 2), TrapAction::Resume));
    r.reset();
    assert_eq!(r.take_last_trap(), None);
    r.disarm_trap_recorder();
    assert!(matches!(r.helix_panic(traps::NEG_ZEROS, -3, 0), TrapAction::Exit(_)));
    assert_eq!(panic_message(traps::DIV_BY_ZERO, 0, 0), "integer division by zero");
    let codes = [
        traps::PanicCode::DivByZero.code(),
        traps::PanicCode::IdivOverflow.code(),
        traps::PanicCode::Bounds.code(),
        traps::PanicCode::NegativeZeros.code(),
    ];
    assert_eq!(codes, [traps::DIV_BY_ZERO, traps::DIV_OVERFLOW, traps::BOUNDS, traps::NEG_ZEROS]);
    assert_eq!(traps::PanicCode::DivByZero.message(), "integer division by zero");
}

#[test]
fn arrays_take_at_least_a_byte() {
    assert_eq!(bytes_for_zeros(0, 8), 1);
    assert_eq!(bytes_for_zeros(3, 8), 24);
    assert_eq!(bytes_for_zeros(-1, 8), usize::MAX - 1);
    assert_eq!(bytes_for_zeros(i64::MAX, 8), i64::MAX as usize);
}

/// A number of double precision at single precision.
fn half(bits: u64) -> u64 {
    u64::from((f64::from_bits(bits) as f32).to_bits())
}

fn no_floats(_: FloatOp, _: Precision, _: u64, _: u64) -> u64 {
    unreachable!()
}

#[test]
fn bits_are_combined_at_their_type() {
    let of = |op, t| Combine::Of(op, t);
    let join = |op: FloatOp, p: Precision, a: u64, b: u64| match (op, p) {
        (FloatOp::Add, Precision::Double) => (f64::from_bits(a) + f64::from_bits(b)).to_bits(),
        (FloatOp::Max, Precision::Single) => {
            u64::from(f32::from_bits(a as u32).max(f32::from_bits(b as u32)).to_bits())
        }
        _ => unreachable!(),
    };
    assert_eq!(combine_bits(Combine::Noop, 3, 4, &join), 3);
    assert_eq!(combine_bits(of(ReductionOp::Mul, CombineTy::I64), 3, -4i64 as u64, &join), -12i64 as u64);
    assert_eq!(combine_bits(of(ReductionOp::Min, CombineTy::I32), 3, u64::from(-4i32 as u32), &join), 0xffff_fffc);
    let (x, y) = (1.5f64.to_bits(), 2.25f64.to_bits());
    assert_eq!(combine_bits(of(ReductionOp::Add, CombineTy::F64), x, y, &join), 3.75f64.to_bits());
    let (x, y) = (u64::from(1.5f32.to_bits()), u64::from((-9.0f32).to_bits()));
    assert_eq!(combine_bits(of(ReductionOp::Max, CombineTy::F32), x, y, &join), x);
}

#[test]
fn contexts_are_packed_and_read_back() {
    let mut t = DispatchTables::new();
    assert!(t.pack(5, 1, &half).is_none());
    let len_bytes = CTX_ARRAY_BASE + 16 + 8;
    t.register_spec(5, SpecMeta { len_bytes, acc: Some((8, false)), seed: Some((4, 8, false)) });
    t.helix_stash_arr(0, 4096, 12);
    t.helix_stash_i(4, -3);
    let mut p = t.pack(5, 3, &half).expect("known region");
    assert_eq!(p.ctx_words, 5);
    assert_eq!(p.mem.len(), 5 + 3 * CELL_WORDS);
    assert_eq!(&p.mem[2..5], &[4096, 12, -3i64 as u64]);
    p.bind_cells(777, Combine::Of(ReductionOp::Add, CombineTy::I64));
    assert_eq!(p.mem[5], 777);
    assert_eq!(p.mem[6], -3i64 as u64);
    assert_eq!(p.mem[5 + CELL_WORDS], 777);
    assert_eq!(p.mem[6 + CELL_WORDS], 0);
    p.mem[6] = 40;
    p.mem[6 + CELL_WORDS] = 7;
    p.mem[6 + 2 * CELL_WORDS] = -5i64 as u64;
    p.gather(3, Combine::Of(ReductionOp::Add, CombineTy::I64), &no_floats);
    assert_eq!(p.mem[6 + CELL_WORDS], 7);
    assert_eq!(p.mem[6], 42);
    t.park(5, p);
    assert_eq!(t.helix_read_i64(5), 42);
    assert_eq!(t.helix_read_i32(5), 42);
    assert_eq!(t.helix_read_bits(5), 42);
    assert_eq!(t.helix_read_i64(6), 0);
    assert_eq!(CTX_ACC_OFF, 8);
    t.reset_tables();
    assert_eq!(t.helix_read_i64(5), 0);
    assert!(t.pack(5, 1, &half).is_none());
}

#[test]
fn cells_start_from_values_that_leave_the_total() {
    let first = |c: Combine, seed: u64| {
        let mut t = DispatchTables::new();
        t.register_spec(1, SpecMeta { len_bytes: 24, acc: Some((8, false)), seed: Some((2, 8, false)) });
        t.helix_stash_f(2, seed);
        let mut p = t.pack(1, 2, &half).unwrap();
        p.bind_cells(0, c);
        (p.mem[4], p.mem[4 + CELL_WORDS])
    };
    assert_eq!(first(Combine::Of(ReductionOp::Mul, CombineTy::I64), 5), (5, 1));
    assert_eq!(first(Combine::Of(ReductionOp::Min, CombineTy::I64), 5), (5, 5));
    let x = 2.5f64.to_bits();
    assert_eq!(first(Combine::Of(ReductionOp::Add, CombineTy::F64), x), (x, (-0.0f64).to_bits()));
    assert_eq!(first(Combine::Of(ReductionOp::Mul, CombineTy::F64), x), (x, 1.0f64.to_bits()));
    assert_eq!(first(Combine::Of(ReductionOp::Add, CombineTy::F32), x), (x, u64::from((-0.0f32).to_bits())));
    assert_eq!(first(Combine::Of(ReductionOp::Mul, CombineTy::F32), x), (x, u64::from(1.0f32.to_bits())));
    let mut t = DispatchTables::new();
    t.register_spec(2, SpecMeta { len_bytes: 24, acc: Some((4, true)), seed: Some((2, 4, true)) });
    t.helix_stash_f(2, x);
    assert_eq!(t.pack(2, 1, &half).unwrap().seed, Some(u64::from(2.5f32.to_bits())));
    t.register_spec(3, SpecMeta { len_bytes: 24, acc: Some((4, false)), seed: Some((2, 4, false)) });
    t.helix_stash_i(2, -1);
    assert_eq!(t.pack(3, 1, &half).unwrap().seed, Some(0xffff_ffff));
}

#[test]
fn partial_results_wrap_around() {
    assert_eq!(combine_i64(ReductionOp::Add, i64::MAX, 1), i64::MIN);
    assert_eq!(combine_i64(ReductionOp::Mul, i64::MAX, 2), -2);
    assert_eq!(combine_i64(ReductionOp::Min, -1, 1), -1);
    assert_eq!(combine_i64(ReductionOp::Max, -1, 1), 1);
    assert_eq!(combine_i32(ReductionOp::Add, i32::MAX, 1), i32::MIN);
    assert_eq!(combine_i32(ReductionOp::Mul, i32::MIN, 2), 0);
    let walk = |xs: &[i64], from: i64| xs.iter().fold(from, |a, b| combine_i64(ReductionOp::Mul, a, *b));
    let xs = [i64::MAX, -7, 3, i64::MIN + 1, 11];
    let whole = walk(&xs, 13);
    assert_eq!(combine_i64(ReductionOp::Mul, walk(&xs[..2], 13), walk(&xs[2..], 1)), whole);
    assert_eq!(cell_count(0), 1);
    assert_eq!(cell_count(12), 12);
    assert_eq!(cell_count(1000), MAX_CELLS);
}

#[test]
fn regions_get_numbers_of_their_own() {
    let mut ids = RegionIds::new();
    assert_eq!((ids.next_region_id(), ids.next_region_id(), ids.next_region_id()), (1, 2, 3));
}

#[test]
fn directions_and_operators() {
    assert!(DirVec::star().is_star());
    assert!(!DirVec::exact(Dir::Eq).is_star());
    assert!(ReductionOp::Add.is_floating_point_risky() && ReductionOp::Mul.is_floating_point_risky());
    assert!(!ReductionOp::Min.is_floating_point_risky() && !ReductionOp::Max.is_floating_point_risky());
}

#[test]
fn numbers_and_words() {
    assert_eq!(parse_u64("18446744073709551615"), Some(u64::MAX));
    assert_eq!(parse_u64("18446744073709551616"), None);
    assert_eq!(parse_u64("+7"), Some(7));
    assert_eq!(parse_u64(""), None);
    assert_eq!(parse_u64("1x"), None);
    assert_eq!(trim(" \t a b \r\n"), "a b");
    assert!(is_word("POOL", "pool") && !is_word("pools", "pool"));
}

/// `for i in 0..n { for j in 0..n {} }` as blocks: 0 enters, 1 and 3 are headers.
fn nest() -> FuncIr {
    let b = |insts: Vec<Inst>, phis: Vec<Phi>, term: Term, preds: Vec<u32>| BlockData {
        phis,
        insts,
        term,
        preds: preds.into_iter().map(BlockId).collect(),
    };
    let v = ValueId;
    let phi = |dst: u32, var: u32, args: Vec<(u32, u32)>| Phi {
        dst: v(dst),
        var: LocalId(var),
        args: args.into_iter().map(|(b, x)| (BlockId(b), v(x))).collect(),
    };
    let lt = |dst: u32, a: u32| Inst::Bin { op: BinOp::Lt, dst: v(dst), a: v(a), b: v(3) };
    let inc = |dst: u32, a: u32| Inst::Bin { op: BinOp::Add, dst: v(dst), a: v(a), b: v(4) };
    FuncIr {
        name: "main".to_string(),
        ret: Ty::Unit,
        blocks: vec![
            b(
                vec![
                    Inst::Const { dst: v(2), c: Constant::I64(0) },
                    Inst::Const { dst: v(3), c: Constant::I64(9) },
                    Inst::Const { dst: v(4), c: Constant::I64(1) },
                ],
                vec![],
                Term::Jump(BlockId(1), vec![v(2)]),
                vec![],
            ),
            b(
                vec![lt(6, 5)],
                vec![phi(5, 0, vec![(0, 2), (5, 10)])],
                Term::Branch { cond: v(6), t: BlockId(2), f: BlockId(6) },
                vec![0, 5],
            ),
            b(vec![], vec![], Term::Jump(BlockId(3), vec![v(2)]), vec![1]),
            b(
                vec![lt(8, 7)],
                vec![phi(7, 1, vec![(2, 2), (4, 9)])],
                Term::Branch { cond: v(8), t: BlockId(4), f: BlockId(5) },
                vec![2, 4],
            ),
            b(vec![inc(9, 7)], vec![], Term::Jump(BlockId(3), vec![v(9)]), vec![3]),
            b(vec![inc(10, 5)], vec![], Term::Jump(BlockId(1), vec![v(10)]), vec![3]),
            b(vec![], vec![], Term::Return(None), vec![1]),
        ],
        entry: BlockId(0),
        next_value: 11,
        n_locals: 2,
        n_source_locals: 2,
        types: TypeTables {
            val_tys: [vec![Ty::I64; 6], vec![Ty::Bool, Ty::I64, Ty::Bool, Ty::I64, Ty::I64]].concat(),
            local_tys: vec![Ty::I64; 2],
            local_names: vec!["i".to_string(), "j".to_string()],
        },
    }
}

#[test]
fn loops_are_found_by_block_and_depth() {
    let f = nest();
    assert!(can_analyze(&f));
    let li = find_loops(&f);
    assert_eq!(li.loops.iter().map(|l| (l.header.0, l.depth, l.parent)).collect::<Vec<_>>(), vec![
        (1, 1, None),
        (3, 2, Some(0))
    ]);
    assert_eq!(li.innermost_containing(BlockId(4)).map(|l| l.id), Some(0));
    assert_eq!(li.innermost_containing(BlockId(6)).map(|l| l.id), None);
    assert_eq!(li.at_depth(2).iter().map(|l| l.id).collect::<Vec<_>>(), vec![1]);
    assert!(li.at_depth(3).is_empty());
}

#[test]
fn every_edge_feeds_every_phi() {
    let f = nest();
    assert!(can_lower(&f));
    assert_eq!(translate_fn(&f, false, &vec![]).unwrap_err(), "callee 'helix_panic' was never declared");
    let name = "helix_panic".to_string();
    let sig = builtin_signature(&name).expect("known function of the host");
    let c = translate_fn(&f, false, &vec![Callee { name, sig }]).expect("lowers");
    assert_eq!(c.sig.params.len() + c.sig.returns.len(), 0);
    for b in &c.blocks {
        match &b.insts.last().expect("every block ends").op {
            Op::Jump(t, args) => assert_eq!(args.len(), c.blocks[*t].params.len()),
            Op::Brif(_, t, targs, e, eargs) => {
                assert_eq!(targs.len(), c.blocks[*t].params.len());
                assert_eq!(eargs.len(), c.blocks[*e].params.len());
            }
            Op::Return(vs) => assert!(vs.is_empty()),
            op => panic!("{op:?} does not end a block"),
        }
    }
    assert!(c.blocks.iter().flat_map(|b| &b.insts).any(|i| matches!(i.op, Op::Binary(BinaryOp::Iadd, _, _))));
    let mut bad = nest();
    bad.blocks[0].term = Term::Jump(BlockId(1), vec![]);
    bad.blocks[1].phis[0].args.remove(0);
    assert!(!can_lower(&bad));
    bad.blocks[0].term = Term::Jump(BlockId(70), vec![]);
    assert!(!can_analyze(&bad));
}

#[test]
fn drained_buffers_go_on_collecting() {
    let text = |p: Precision, bits: u64| match p {
        Precision::Single => format!("{:?}", f32::from_bits(bits as u32)),
        Precision::Double => format!("{:?}", f64::from_bits(bits)),
    };
    let mut b = PrintBuffer::new();
    b.helix_print_i64(7);
    assert_eq!(b.take_prints(), vec!["7"]);
    b.helix_print_i64(i64::MIN);
    b.helix_print_f64(0.1f64.to_bits(), &text);
    b.helix_print_f32(u64::from(0.1f32.to_bits()), &text);
    b.helix_print_bool(0);
    b.helix_print_bool(2);
    assert_eq!(b.take_prints(), vec!["-9223372036854775808", "0.1", "0.1", "false", "true"]);
    assert!(b.take_prints().is_empty());
    b.helix_print_bool(1);
    assert_eq!(b.take_prints(), vec!["true"]);
}

#[test]
fn threads_are_bounded_by_the_machine() {
    assert_eq!(thread_budget(8, None, 4), 4);
    assert_eq!(thread_budget(8, None, 16), 8);
    assert_eq!(thread_budget(-1, None, 16), 1);
    assert_eq!(thread_budget(8, Some(2), 16), 2);
    assert_eq!(thread_budget(8, Some(12), 16), 12);
    assert_eq!(thread_budget(8, Some(0), 16), 1);
    assert_eq!(thread_budget(8, Some(u64::MAX), 16), 16);
    assert_eq!(thread_budget(8, None, 0), 1);
}
