//! Whole programs: from text to what they print, and to the machine code that prints it.
//!
//! A small front end reads the language; the library does the rest.
use std::collections::HashMap;

use helix::adapter::adapt_program;
use helix::ast::{Block, ElsePart, Expr, FnDef, Ident, Item, Program, Stmt, SynType, Target, TypedFnDef, TypedProgram};
use helix::campaign::{analyze_plan, parity_holds, verdict_gate};
use helix::clif::{BinaryOp, ClifFunc, ClifTy, ConvertOp, FloatCond, IntCond, Op, UnaryOp, Val};
use helix::dispatch::{cell_count, DispatchTables, CELL_WORDS};
use helix::error::{LineMap, Span};
use helix::floats::{FloatOp, Floats, Precision};
use helix::host::{bool_line, PrintSink};
use helix::interp::RunOutput;
use helix::ir::{
    BinOp, BlockData, BlockId, Call, Constant, ElemTy, FuncIr, Inst, Load, LocalId, Phi, Term, Ty, TypeTables, UnOp,
    ValueId,
};
use helix::jit::JitEngine;
use helix::kernels::{registry, ExpectedVerdict};
use helix::loops::find_loops;
use helix::parallel::{extract, RegionIds};
use helix::pipeline::{analyze_program, can_analyze, can_compile, Analysis};
use helix::plan::{LoopReport, ParallelPlan, RegionDesc, RegionKind, Verdict};
use helix::reduce::ReductionOp;
use helix::run::{run, run_with_source};
use helix::triad::{chunks, participants};
use helix::traps::{bytes_for_zeros, TrapAction, TrapRecorder, BOUNDS, DIV_BY_ZERO, DIV_OVERFLOW, NEG_ZEROS};
use helix::tree::{
    AdaptedFn, AdaptedProgram, Builtin, EBlock, EElse, EExpr, EExprKind, EStmt, ETarget, SymId, SymKind, Symbol,
    TypedConstDef,
};
use helix::value::{ConstLit, FNV_OFFSET};
use helix::variants::{
    interp_variant, native_availability, native_variant, printed_checksum, ExecVariant, NativeAvailability, NativeRun,
};

// ---------------------------------------------------------------------------
// Reading
// ---------------------------------------------------------------------------

#[derive(Clone, Debug, PartialEq)]
enum Tok {
    Name(String),
    Int(i64),
    Float(f64),
    Sym(&'static str),
    End,
}

struct Lexed {
    tok: Tok,
    span: Span,
}

const SYMBOLS: [&str; 27] = [
    "->", "..", "&&", "||", "==", "!=", "<=", ">=", "<", ">", "=", "+", "-", "*", "/", "%", "!", "(", ")", "{", "}",
    "[", "]", ",", ";", ":", ".",
];

fn span(start: usize, end: usize) -> Span {
    Span { start: start as u32, end: end as u32 }
}

fn lex(src: &str) -> Result<Vec<Lexed>, String> {
    let b = src.as_bytes();
    let mut out = Vec::new();
    let mut i = 0usize;
    while i < b.len() {
        let c = b[i];
        if c.is_ascii_whitespace() {
            i += 1;
        } else if c == b'/' && i + 1 < b.len() && b[i + 1] == b'/' {
            while i < b.len() && b[i] != b'\n' {
                i += 1;
            }
        } else if c.is_ascii_alphabetic() || c == b'_' {
            let s = i;
            while i < b.len() && (b[i].is_ascii_alphanumeric() || b[i] == b'_') {
                i += 1;
            }
            out.push(Lexed { tok: Tok::Name(src[s..i].to_string()), span: span(s, i) });
        } else if c.is_ascii_digit() {
            let s = i;
            let mut float = false;
            while i < b.len() && b[i].is_ascii_digit() {
                i += 1;
            }
            if i + 1 < b.len() && b[i] == b'.' && b[i + 1].is_ascii_digit() {
                float = true;
                i += 1;
                while i < b.len() && b[i].is_ascii_digit() {
                    i += 1;
                }
            }
            if i < b.len() && (b[i] == b'e' || b[i] == b'E') {
                float = true;
                i += 1;
                if i < b.len() && (b[i] == b'+' || b[i] == b'-') {
                    i += 1;
                }
                while i < b.len() && b[i].is_ascii_digit() {
                    i += 1;
                }
            }
            let text = &src[s..i];
            let tok = if float {
                Tok::Float(text.parse().map_err(|_| format!("bad number {text}"))?)
            } else {
                Tok::Int(text.parse().map_err(|_| format!("bad number {text}"))?)
            };
            out.push(Lexed { tok, span: span(s, i) });
        } else {
            let sym = SYMBOLS.iter().find(|s| src[i..].starts_with(**s)).ok_or(format!("bad character at {i}"))?;
            out.push(Lexed { tok: Tok::Sym(sym), span: span(i, i + sym.len()) });
            i += sym.len();
        }
    }
    out.push(Lexed { tok: Tok::End, span: span(i, i) });
    Ok(out)
}

/// What the declarations of a function say: parameters and result.
struct Head {
    name: String,
    params: Vec<(String, Ty)>,
    ret: Ty,
}

/// A program with the declarations that the syntax trees leave out.
struct Parsed {
    program: Program,
    heads: Vec<Head>,
    consts: Vec<(String, Ty, ConstLit)>,
}

/// Binary operators, those that bind loosest first.
const LEVELS: [&[(&str, BinOp)]; 6] = [
    &[("||", BinOp::Or)],
    &[("&&", BinOp::And)],
    &[("==", BinOp::Eq), ("!=", BinOp::Ne)],
    &[("<", BinOp::Lt), ("<=", BinOp::Le), (">", BinOp::Gt), (">=", BinOp::Ge)],
    &[("+", BinOp::Add), ("-", BinOp::Sub)],
    &[("*", BinOp::Mul), ("/", BinOp::Div), ("%", BinOp::Rem)],
];

struct Parser {
    toks: Vec<Lexed>,
    at: usize,
}

fn meaning(t: SynType) -> Ty {
    match t {
        SynType::I32 => Ty::I32,
        SynType::I64 => Ty::I64,
        SynType::F32 => Ty::F32,
        SynType::F64 => Ty::F64,
        SynType::Bool => Ty::Bool,
        SynType::Array(e) => Ty::Array(e),
        SynType::Unit => Ty::Unit,
    }
}

fn expr_span(e: &Expr) -> Span {
    match e {
        Expr::IntLit(_, s) | Expr::FloatLit(_, s) | Expr::Bool(_, s) => *s,
        Expr::Var(i) => i.span,
        Expr::Unary(_, _, s) | Expr::Bin(_, _, _, s) | Expr::Index(_, _, s) | Expr::Cast(_, _, s) => *s,
        Expr::Call { span, .. } => *span,
    }
}

impl Parser {
    fn peek(&self) -> &Tok {
        &self.toks[self.at].tok
    }

    fn here(&self) -> Span {
        self.toks[self.at].span
    }

    fn before(&self) -> u32 {
        self.toks[self.at - 1].span.end
    }

    fn is(&self, s: &str) -> bool {
        match self.peek() {
            Tok::Sym(x) => *x == s,
            Tok::Name(x) => x == s,
            _ => false,
        }
    }

    fn eat(&mut self, s: &str) -> bool {
        let yes = self.is(s);
        if yes {
            self.at += 1;
        }
        yes
    }

    fn expect(&mut self, s: &str) -> Result<(), String> {
        if self.eat(s) {
            Ok(())
        } else {
            Err(format!("expected {s}, found {:?}", self.peek()))
        }
    }

    fn ident(&mut self) -> Result<Ident, String> {
        let span = self.here();
        match self.peek() {
            Tok::Name(n) => {
                let name = n.clone();
                self.at += 1;
                Ok(Ident { name, span })
            }
            t => Err(format!("expected a name, found {t:?}")),
        }
    }

    fn ty(&mut self) -> Result<SynType, String> {
        let array = self.eat("[");
        let name = self.ident()?.name;
        if array {
            self.expect("]")?;
        }
        let t = match name.as_str() {
            "i32" => (SynType::I32, ElemTy::I32),
            "i64" => (SynType::I64, ElemTy::I64),
            "f32" => (SynType::F32, ElemTy::F32),
            "f64" => (SynType::F64, ElemTy::F64),
            "bool" => (SynType::Bool, ElemTy::Bool),
            _ => return Err(format!("unknown type {name}")),
        };
        Ok(if array { SynType::Array(t.1) } else { t.0 })
    }

    fn program(&mut self) -> Result<Parsed, String> {
        let mut p = Parsed { program: Program { items: vec![] }, heads: vec![], consts: vec![] };
        while *self.peek() != Tok::End {
            if self.eat("const") {
                let name = self.ident()?;
                self.expect(":")?;
                let ty = meaning(self.ty()?);
                self.expect("=")?;
                let neg = self.eat("-");
                let value = match self.peek().clone() {
                    Tok::Int(n) => ConstLit::Int(if neg { -n } else { n }),
                    Tok::Float(x) => ConstLit::Float((if neg { -x } else { x }).to_bits()),
                    Tok::Name(n) => ConstLit::Bool(n == "true"),
                    t => return Err(format!("bad constant {t:?}")),
                };
                self.at += 1;
                self.expect(";")?;
                p.consts.push((name.name.clone(), ty, value));
                p.program.items.push(Item::Const(name));
            } else {
                self.expect("fn")?;
                let name = self.ident()?;
                self.expect("(")?;
                let mut params = vec![];
                while !self.eat(")") {
                    let n = self.ident()?.name;
                    self.expect(":")?;
                    params.push((n, meaning(self.ty()?)));
                    if !self.is(")") {
                        self.expect(",")?;
                    }
                }
                let ret = if self.eat("->") { meaning(self.ty()?) } else { Ty::Unit };
                p.heads.push(Head { name: name.name.clone(), params, ret });
                let body = self.block()?;
                p.program.items.push(Item::Fn(FnDef { name, body }));
            }
        }
        Ok(p)
    }

    fn block(&mut self) -> Result<Block, String> {
        self.expect("{")?;
        let mut stmts = vec![];
        while !self.eat("}") {
            stmts.push(self.stmt()?);
        }
        Ok(Block { stmts })
    }

    fn if_stmt(&mut self) -> Result<Stmt, String> {
        self.expect("if")?;
        let cond = self.expr()?;
        let then_blk = self.block()?;
        let else_part = if self.eat("else") {
            Some(Box::new(if self.is("if") {
                ElsePart::If(Box::new(self.if_stmt()?))
            } else {
                ElsePart::Block(self.block()?)
            }))
        } else {
            None
        };
        Ok(Stmt::If { cond, then_blk, else_part })
    }

    fn stmt(&mut self) -> Result<Stmt, String> {
        let start = self.here().start;
        if self.is("{") {
            return Ok(Stmt::Block(self.block()?));
        }
        if self.is("if") {
            return self.if_stmt();
        }
        if self.eat(";") {
            return Ok(Stmt::Empty);
        }
        if self.is("const") {
            return Err("constants stand at the top level".to_string());
        }
        if self.eat("let") {
            let name = self.ident()?;
            let ty = if self.eat(":") { Some(self.ty()?) } else { None };
            self.expect("=")?;
            let init = self.expr()?;
            self.expect(";")?;
            return Ok(Stmt::Let { name, ty, init });
        }
        if self.eat("for") {
            let iv = self.ident()?;
            self.expect("in")?;
            let s = self.expr()?;
            self.expect("..")?;
            let end = self.expr()?;
            let body = self.block()?;
            return Ok(Stmt::For { iv, start: s, end, body });
        }
        if self.eat("return") {
            let value = if self.is(";") { None } else { Some(self.expr()?) };
            self.expect(";")?;
            return Ok(Stmt::Return { value, span: Span { start, end: self.before() } });
        }
        let e = self.expr()?;
        if self.eat("=") {
            let sp = expr_span(&e);
            let target = match e {
                Expr::Var(base) => Target { base, index: None, span: sp },
                Expr::Index(base, i, _) => Target { base, index: Some(i), span: sp },
                _ => return Err("cannot assign".to_string()),
            };
            let value = self.expr()?;
            self.expect(";")?;
            return Ok(Stmt::Assign { target, value });
        }
        self.expect(";")?;
        Ok(Stmt::Expr(e))
    }

    fn expr(&mut self) -> Result<Expr, String> {
        self.level(0)
    }

    fn level(&mut self, k: usize) -> Result<Expr, String> {
        if k == LEVELS.len() {
            return self.unary();
        }
        let mut l = self.level(k + 1)?;
        while let Some((_, op)) = LEVELS[k].iter().find(|(s, _)| self.is(s)) {
            self.at += 1;
            let r = self.level(k + 1)?;
            let sp = Span { start: expr_span(&l).start, end: expr_span(&r).end };
            l = Expr::Bin(*op, Box::new(l), Box::new(r), sp);
        }
        Ok(l)
    }

    fn unary(&mut self) -> Result<Expr, String> {
        let start = self.here().start;
        let op = if self.eat("-") {
            UnOp::Neg
        } else if self.eat("!") {
            UnOp::Not
        } else {
            return self.cast();
        };
        let e = self.unary()?;
        let end = expr_span(&e).end;
        Ok(Expr::Unary(op, Box::new(e), Span { start, end }))
    }

    fn cast(&mut self) -> Result<Expr, String> {
        let mut e = self.primary()?;
        while self.eat("as") {
            let t = self.ty()?;
            let sp = Span { start: expr_span(&e).start, end: self.before() };
            e = Expr::Cast(Box::new(e), t, sp);
        }
        Ok(e)
    }

    fn primary(&mut self) -> Result<Expr, String> {
        let sp = self.here();
        match self.peek().clone() {
            Tok::Int(n) => {
                self.at += 1;
                Ok(Expr::IntLit(n, sp))
            }
            Tok::Float(x) => {
                self.at += 1;
                Ok(Expr::FloatLit(x.to_bits(), sp))
            }
            Tok::Name(n) if n == "true" || n == "false" => {
                self.at += 1;
                Ok(Expr::Bool(n == "true", sp))
            }
            Tok::Name(_) => {
                let id = self.ident()?;
                if self.eat("(") {
                    let mut args = vec![];
                    while !self.eat(")") {
                        args.push(self.expr()?);
                        if !self.is(")") {
                            self.expect(",")?;
                        }
                    }
                    let span = Span { start: sp.start, end: self.before() };
                    Ok(Expr::Call { callee: id, args, span })
                } else if self.eat("[") {
                    let i = self.expr()?;
                    self.expect("]")?;
                    let span = Span { start: sp.start, end: self.before() };
                    Ok(Expr::Index(id, Box::new(i), span))
                } else {
                    Ok(Expr::Var(id))
                }
            }
            Tok::Sym("(") => {
                self.at += 1;
                let e = self.expr()?;
                self.expect(")")?;
                Ok(e)
            }
            t => Err(format!("expected an expression, found {t:?}")),
        }
    }
}

fn parse_str(src: &str) -> Result<Parsed, String> {
    let toks = lex(src)?;
    Parser { toks, at: 0 }.program()
}

// ---------------------------------------------------------------------------
// Checking: symbols and types of declarations
// ---------------------------------------------------------------------------

struct Checker<'a> {
    heads: &'a [Head],
    symbols: Vec<Symbol>,
    scopes: Vec<HashMap<String, Ty>>,
}

impl Checker<'_> {
    fn declare(&mut self, name: &str, kind: SymKind, ty: Ty) {
        self.symbols.push(Symbol { name: name.to_string(), kind, ty });
        self.scopes.last_mut().unwrap().insert(name.to_string(), ty);
    }

    fn lookup(&self, name: &str) -> Result<Ty, String> {
        self.scopes.iter().rev().find_map(|s| s.get(name)).copied().ok_or(format!("unknown name {name}"))
    }

    fn ty(&self, e: &Expr) -> Result<Ty, String> {
        Ok(match e {
            Expr::IntLit(..) => Ty::I64,
            Expr::FloatLit(..) => Ty::F64,
            Expr::Bool(..) => Ty::Bool,
            Expr::Var(i) => self.lookup(&i.name)?,
            Expr::Unary(_, x, _) => self.ty(x)?,
            Expr::Bin(op, a, b, _) => match op {
                BinOp::Add | BinOp::Sub | BinOp::Mul | BinOp::Div | BinOp::Rem => {
                    let (x, y) = (self.ty(a)?, self.ty(b)?);
                    if matches!(**a, Expr::IntLit(..) | Expr::FloatLit(..)) { y } else { x }
                }
                _ => Ty::Bool,
            },
            Expr::Index(base, _, _) => match self.lookup(&base.name)? {
                Ty::Array(ElemTy::I32) => Ty::I32,
                Ty::Array(ElemTy::I64) => Ty::I64,
                Ty::Array(ElemTy::F32) => Ty::F32,
                Ty::Array(ElemTy::F64) => Ty::F64,
                Ty::Array(ElemTy::Bool) => Ty::Bool,
                t => return Err(format!("{} of type {t:?} has no elements", base.name)),
            },
            Expr::Cast(_, t, _) => meaning(*t),
            Expr::Call { callee, args, .. } => match callee.name.as_str() {
                "print" => Ty::Unit,
                "len" => Ty::I64,
                "sqrt" | "abs" | "min" | "max" => self.ty(&args[0])?,
                "zeros" => return Err("zeros needs a declared type".to_string()),
                n => self.heads.iter().find(|h| h.name == n).ok_or(format!("unknown function {n}"))?.ret,
            },
        })
    }

    fn block(&mut self, b: &Block) -> Result<(), String> {
        self.scopes.push(HashMap::new());
        for s in &b.stmts {
            self.stmt(s)?;
        }
        self.scopes.pop();
        Ok(())
    }

    fn stmt(&mut self, s: &Stmt) -> Result<(), String> {
        match s {
            Stmt::Let { name, ty, init } => {
                let t = match ty {
                    Some(t) => meaning(*t),
                    None => self.ty(init)?,
                };
                self.declare(&name.name, SymKind::Local, t);
            }
            Stmt::If { then_blk, else_part, .. } => {
                self.block(then_blk)?;
                match else_part.as_deref() {
                    Some(ElsePart::If(s)) => self.stmt(s)?,
                    Some(ElsePart::Block(b)) => self.block(b)?,
                    None => {}
                }
            }
            Stmt::For { iv, body, .. } => {
                self.scopes.push(HashMap::new());
                self.declare(&iv.name, SymKind::LoopVar, Ty::I64);
                self.block(body)?;
                self.scopes.pop();
            }
            Stmt::Block(b) => self.block(b)?,
            Stmt::Expr(e) => {
                self.ty(e)?;
            }
            Stmt::Assign { target, .. } => {
                self.lookup(&target.base.name)?;
            }
            Stmt::Return { .. } | Stmt::Empty => {}
        }
        Ok(())
    }
}

fn check(p: &Parsed) -> Result<TypedProgram, String> {
    let consts: Vec<TypedConstDef> = p
        .consts
        .iter()
        .enumerate()
        .map(|(i, (name, ty, value))| TypedConstDef { sym: SymId(i as u32), name: name.clone(), ty: *ty, value: *value })
        .collect();
    let mut funcs = vec![];
    let mut heads = p.heads.iter();
    for item in &p.program.items {
        let Item::Fn(f) = item else { continue };
        let head = heads.next().unwrap();
        let mut c = Checker { heads: &p.heads, symbols: vec![], scopes: vec![HashMap::new()] };
        for (name, ty, _) in &p.consts {
            c.declare(name, SymKind::Const, *ty);
        }
        let mut params = vec![];
        for (name, ty) in &head.params {
            params.push((SymId(c.symbols.len() as u32), *ty));
            c.declare(name, SymKind::Param, *ty);
        }
        c.block(&f.body)?;
        funcs.push(TypedFnDef { name: head.name.clone(), params, ret: head.ret, symbols: c.symbols });
    }
    Ok(TypedProgram { funcs, consts })
}

// ---------------------------------------------------------------------------
// Running on the interpreter
// ---------------------------------------------------------------------------

/// Parses, checks and runs a program. Runtime errors are rendered with their lines.
fn run_src(src: &str) -> Result<RunOutput, String> {
    let parsed = parse_str(src)?;
    let typed = check(&parsed)?;
    let floats = Floats { ops: float_op, fmt: float_text };
    match run_with_source(&Ok(parsed.program), &typed, &floats) {
        Ok(out) => Ok(out),
        Err(e) => Err(e.render(src)),
    }
}

/// Floating-point operations on bit patterns.
fn float_op(op: FloatOp, p: Precision, a: u64, b: u64) -> u64 {
    match p {
        Precision::Single => {
            let (x, y) = (f32::from_bits(a as u32), f32::from_bits(b as u32));
            let f = |v: f32| u64::from(v.to_bits());
            match op {
                FloatOp::Add => f(x + y),
                FloatOp::Sub => f(x - y),
                FloatOp::Mul => f(x * y),
                FloatOp::Div => f(x / y),
                FloatOp::Lt => u64::from(x < y),
                FloatOp::Gt => u64::from(x > y),
                FloatOp::Le => u64::from(x <= y),
                FloatOp::Ge => u64::from(x >= y),
                FloatOp::Eq => u64::from(x == y),
                FloatOp::Ne => u64::from(x != y),
                FloatOp::Neg => f(-x),
                FloatOp::Abs => f(x.abs()),
                FloatOp::Sqrt => f(x.sqrt()),
                FloatOp::Min => f(x.min(y)),
                FloatOp::Max => f(x.max(y)),
                FloatOp::FromInt => f((a as i64) as f32),
                FloatOp::ToI32 => (x as i32) as i64 as u64,
                FloatOp::ToI64 => (x as i64) as u64,
                FloatOp::FromOther => f(f64::from_bits(a) as f32),
            }
        }
        Precision::Double => {
            let (x, y) = (f64::from_bits(a), f64::from_bits(b));
            let f = |v: f64| v.to_bits();
            match op {
                FloatOp::Add => f(x + y),
                FloatOp::Sub => f(x - y),
                FloatOp::Mul => f(x * y),
                FloatOp::Div => f(x / y),
                FloatOp::Lt => u64::from(x < y),
                FloatOp::Gt => u64::from(x > y),
                FloatOp::Le => u64::from(x <= y),
                FloatOp::Ge => u64::from(x >= y),
                FloatOp::Eq => u64::from(x == y),
                FloatOp::Ne => u64::from(x != y),
                FloatOp::Neg => f(-x),
                FloatOp::Abs => f(x.abs()),
                FloatOp::Sqrt => f(x.sqrt()),
                FloatOp::Min => f(x.min(y)),
                FloatOp::Max => f(x.max(y)),
                FloatOp::FromInt => f((a as i64) as f64),
                FloatOp::ToI32 => (x as i32) as i64 as u64,
                FloatOp::ToI64 => (x as i64) as u64,
                FloatOp::FromOther => f(f64::from(f32::from_bits(a as u32))),
            }
        }
    }
}

/// How floating-point numbers are printed.
fn float_text(p: Precision, bits: u64) -> String {
    match p {
        Precision::Single => format!("{:?}", f32::from_bits(bits as u32)),
        Precision::Double => format!("{:?}", f64::from_bits(bits)),
    }
}

// ---------------------------------------------------------------------------
// Building the intermediate form
// ---------------------------------------------------------------------------

struct Builder<'a> {
    program: &'a AdaptedProgram,
    func: &'a AdaptedFn,
    blocks: Vec<BlockData>,
    cur: Option<usize>,
    val_tys: Vec<Ty>,
    local_tys: Vec<Ty>,
    local_names: Vec<String>,
    env: HashMap<u32, ValueId>,
}

fn count_short(e: &EExpr) -> usize {
    match &e.kind {
        EExprKind::Unary(_, x) | EExprKind::Index(_, x) | EExprKind::Cast(x, _) => count_short(x),
        EExprKind::Bin(op, a, b) => {
            count_short(a) + count_short(b) + usize::from(matches!(op, BinOp::And | BinOp::Or))
        }
        EExprKind::Call(ETarget::Builtin(_, args)) | EExprKind::Call(ETarget::User { args, .. }) => {
            args.iter().map(count_short).sum()
        }
        _ => 0,
    }
}

fn count_else(e: &Option<EElse>) -> usize {
    match e {
        Some(EElse::If(i)) => count_short(&i.cond) + count_block(&i.then_blk) + count_else(&i.else_arm),
        Some(EElse::Block(b)) => count_block(b),
        None => 0,
    }
}

fn count_block(b: &EBlock) -> usize {
    b.stmts
        .iter()
        .map(|s| match s {
            EStmt::Let { init, .. } => count_short(init),
            EStmt::Assign { index, value, .. } => {
                index.as_ref().map_or(0, |i| count_short(i)) + count_short(value)
            }
            EStmt::If { cond, then_blk, else_arm } => count_short(cond) + count_block(then_blk) + count_else(else_arm),
            EStmt::For { start, end, body, .. } => count_short(start) + count_short(end) + count_block(body),
            EStmt::Return { value, .. } => value.as_ref().map_or(0, count_short),
            EStmt::Effect(e) => count_short(e),
            EStmt::Nested(b) => count_block(b),
        })
        .sum()
}

fn assigned_else(e: &Option<EElse>, out: &mut Vec<u32>) {
    match e {
        Some(EElse::If(i)) => {
            assigned(&i.then_blk, out);
            assigned_else(&i.else_arm, out);
        }
        Some(EElse::Block(b)) => assigned(b, out),
        None => {}
    }
}

/// The variables that statements assign.
fn assigned(b: &EBlock, out: &mut Vec<u32>) {
    for s in &b.stmts {
        match s {
            EStmt::Assign { base, index: None, .. } => out.push(base.0),
            EStmt::If { then_blk, else_arm, .. } => {
                assigned(then_blk, out);
                assigned_else(else_arm, out);
            }
            EStmt::For { body, .. } => assigned(body, out),
            EStmt::Nested(b) => assigned(b, out),
            _ => {}
        }
    }
}

impl Builder<'_> {
    fn value(&mut self, t: Ty) -> ValueId {
        self.val_tys.push(t);
        ValueId(self.val_tys.len() as u32 - 1)
    }

    fn block(&mut self) -> usize {
        self.blocks.push(BlockData { phis: vec![], insts: vec![], term: Term::Return(None), preds: vec![] });
        self.blocks.len() - 1
    }

    fn emit(&mut self, i: Inst) {
        let b = self.cur.unwrap();
        self.blocks[b].insts.push(i);
    }

    fn constant(&mut self, t: Ty, c: Constant) -> ValueId {
        let dst = self.value(t);
        self.emit(Inst::Const { dst, c });
        dst
    }

    fn literal(&mut self, t: Ty, c: ConstLit) -> ValueId {
        let k = match (c, t) {
            (ConstLit::Int(n), Ty::I32) => Constant::I32(n as i32),
            (ConstLit::Int(n), _) => Constant::I64(n),
            (ConstLit::Float(b), Ty::F32) => Constant::F32((f64::from_bits(b) as f32).to_bits()),
            (ConstLit::Float(b), _) => Constant::F64(b),
            (ConstLit::Bool(x), _) => Constant::Bool(x),
        };
        self.constant(t, k)
    }

    /// Ends the current block with a jump that feeds the phis.
    fn jump(&mut self, to: usize, args: Vec<ValueId>) {
        let b = self.cur.unwrap();
        for (k, v) in args.iter().enumerate() {
            self.blocks[to].phis[k].args.push((BlockId(b as u32), *v));
        }
        self.blocks[to].preds.push(BlockId(b as u32));
        self.blocks[b].term = Term::Jump(BlockId(to as u32), args);
    }

    fn branch(&mut self, cond: ValueId, t: usize, f: usize) {
        let b = self.cur.unwrap();
        self.blocks[t].preds.push(BlockId(b as u32));
        self.blocks[f].preds.push(BlockId(b as u32));
        self.blocks[b].term = Term::Branch { cond, t: BlockId(t as u32), f: BlockId(f as u32) };
    }

    fn phi(&mut self, b: usize, var: u32) -> ValueId {
        let dst = self.value(self.local_tys[var as usize]);
        self.blocks[b].phis.push(Phi { dst, var: LocalId(var), args: vec![] });
        dst
    }

    fn index(&mut self, e: &EExpr) -> ValueId {
        let v = self.expr(e);
        if e.ty == Ty::I64 {
            return v;
        }
        let dst = self.value(Ty::I64);
        self.emit(Inst::Cast { dst, val: v, to: Ty::I64 });
        dst
    }

    fn call(&mut self, dst: Option<ValueId>, callee: &str, args: Vec<ValueId>, arr_refs: Vec<LocalId>) {
        self.emit(Inst::Call(Call { dst, callee: callee.to_string(), args, arr_refs }));
    }

    fn short(&mut self, and: bool, a: &EExpr, b: &EExpr) -> ValueId {
        let var = self.local_tys.len() as u32;
        self.local_tys.push(Ty::Bool);
        self.local_names.push(format!("tmp{var}"));
        let l = self.expr(a);
        let rhs = self.block();
        let skip = self.block();
        let merge = self.block();
        let dst = self.phi(merge, var);
        if and {
            self.branch(l, rhs, skip);
        } else {
            self.branch(l, skip, rhs);
        }
        self.cur = Some(skip);
        let c = self.constant(Ty::Bool, Constant::Bool(!and));
        self.jump(merge, vec![c]);
        self.cur = Some(rhs);
        let r = self.expr(b);
        self.jump(merge, vec![r]);
        self.cur = Some(merge);
        dst
    }

    fn expr(&mut self, e: &EExpr) -> ValueId {
        match &e.kind {
            EExprKind::IntLit(n) => self.literal(e.ty, ConstLit::Int(*n)),
            EExprKind::FloatLit(b) => self.literal(e.ty, ConstLit::Float(*b)),
            EExprKind::BoolLit(x) => self.literal(e.ty, ConstLit::Bool(*x)),
            EExprKind::Var(s) => match self.func.symbols[s.0 as usize].kind {
                SymKind::Const => {
                    let c = self.program.consts.iter().find(|c| c.sym == *s).unwrap();
                    self.literal(c.ty, c.value)
                }
                _ => self.env[&s.0],
            },
            EExprKind::ArrayRef(s) => ValueId(s.0),
            EExprKind::Unary(op, x) => {
                let a = self.expr(x);
                let dst = self.value(e.ty);
                self.emit(Inst::Unary { op: *op, dst, a });
                dst
            }
            EExprKind::Bin(op, a, b) => {
                if matches!(op, BinOp::And | BinOp::Or) {
                    return self.short(*op == BinOp::And, a, b);
                }
                let a = self.expr(a);
                let b = self.expr(b);
                let dst = self.value(e.ty);
                self.emit(Inst::Bin { op: *op, dst, a, b });
                dst
            }
            EExprKind::Index(s, i) => {
                let idx = self.index(i);
                let dst = self.value(e.ty);
                self.emit(Inst::Load(Load { dst, arr: LocalId(s.0), idx }));
                dst
            }
            EExprKind::Cast(x, t) => {
                let val = self.expr(x);
                let dst = self.value(*t);
                self.emit(Inst::Cast { dst, val, to: *t });
                dst
            }
            EExprKind::Call(ETarget::Builtin(b, args)) => {
                let vals: Vec<ValueId> = args.iter().map(|a| self.expr(a)).collect();
                let name = match b {
                    Builtin::Print => "print",
                    Builtin::Zeros => "zeros",
                    Builtin::Len => "len",
                    Builtin::Sqrt => "sqrt",
                    Builtin::Abs => "abs",
                    Builtin::Min => "min",
                    Builtin::Max => "max",
                };
                if *b == Builtin::Print {
                    self.call(None, name, vals, vec![]);
                    return ValueId(0);
                }
                let dst = self.value(e.ty);
                self.call(Some(dst), name, vals, vec![]);
                dst
            }
            EExprKind::Call(ETarget::User { idx, args }) => {
                let vals: Vec<ValueId> = args.iter().map(|a| self.expr(a)).collect();
                let f = &self.program.funcs[*idx as usize];
                let dst = if f.ret == Ty::Unit { None } else { Some(self.value(f.ret)) };
                let name = f.name.clone();
                self.call(dst, &name, vals, vec![]);
                dst.unwrap_or(ValueId(0))
            }
        }
    }

    fn stmts(&mut self, b: &EBlock) {
        for s in &b.stmts {
            if self.cur.is_none() {
                return;
            }
            self.stmt(s);
        }
    }

    fn fork(&mut self, cond: &EExpr, then_blk: &EBlock, else_arm: &Option<EElse>) {
        let c = self.expr(cond);
        let t = self.block();
        let f = self.block();
        self.branch(c, t, f);
        let before = self.env.clone();
        self.cur = Some(t);
        self.stmts(then_blk);
        let (t_end, t_env) = (self.cur, std::mem::replace(&mut self.env, before.clone()));
        self.cur = Some(f);
        match else_arm {
            Some(EElse::If(i)) => self.fork(&i.cond, &i.then_blk, &i.else_arm),
            Some(EElse::Block(b)) => self.stmts(b),
            None => {}
        }
        let (f_end, f_env) = (self.cur, std::mem::replace(&mut self.env, before.clone()));
        if t_end.is_none() && f_end.is_none() {
            return;
        }
        if let (Some(t_end), Some(f_end)) = (t_end, f_end) {
            let merge = self.block();
            let mut vars: Vec<u32> = before.keys().copied().filter(|k| t_env[k] != f_env[k]).collect();
            vars.sort();
            for v in &vars {
                let dst = self.phi(merge, *v);
                self.env.insert(*v, dst);
            }
            for k in before.keys().filter(|k| !vars.contains(k)) {
                self.env.insert(*k, t_env[k]);
            }
            self.cur = Some(t_end);
            self.jump(merge, vars.iter().map(|v| t_env[v]).collect());
            self.cur = Some(f_end);
            self.jump(merge, vars.iter().map(|v| f_env[v]).collect());
            self.cur = Some(merge);
        } else {
            let env = if t_end.is_some() { t_env } else { f_env };
            self.env = env;
            self.cur = t_end.or(f_end);
        }
    }

    fn stmt(&mut self, s: &EStmt) {
        match s {
            EStmt::Let { sym, init } => {
                if let EExprKind::Call(ETarget::Builtin(Builtin::Zeros, args)) = &init.kind {
                    let n = self.index(&args[0]);
                    self.call(None, "zeros", vec![n], vec![LocalId(sym.0)]);
                    return;
                }
                let v = self.expr(init);
                self.env.insert(sym.0, v);
            }
            EStmt::Assign { base, index, value, .. } => match index {
                Some(i) => {
                    let idx = self.index(i);
                    let val = self.expr(value);
                    self.emit(Inst::Store { arr: LocalId(base.0), idx, val });
                }
                None => {
                    let v = self.expr(value);
                    self.env.insert(base.0, v);
                }
            },
            EStmt::If { cond, then_blk, else_arm } => self.fork(cond, then_blk, else_arm),
            EStmt::For { iv, start, end, body, .. } => {
                let s = self.index(start);
                let e = self.index(end);
                let mut vars = vec![];
                assigned(body, &mut vars);
                vars.retain(|v| self.env.contains_key(v));
                vars.sort();
                vars.dedup();
                let header = self.block();
                let iv_val = self.phi(header, iv.0);
                let mut feed = vec![s];
                for v in &vars {
                    feed.push(self.env[v]);
                }
                let carried: Vec<ValueId> = vars.iter().map(|v| self.phi(header, *v)).collect();
                self.jump(header, feed);
                self.env.insert(iv.0, iv_val);
                for (v, x) in vars.iter().zip(&carried) {
                    self.env.insert(*v, *x);
                }
                let after = self.env.clone();
                self.cur = Some(header);
                let cond = self.value(Ty::Bool);
                self.emit(Inst::Bin { op: BinOp::Lt, dst: cond, a: iv_val, b: e });
                let inside = self.block();
                let exit = self.block();
                self.branch(cond, inside, exit);
                self.cur = Some(inside);
                self.stmts(body);
                if self.cur.is_some() {
                    let latch = self.block();
                    self.jump(latch, vec![]);
                    self.cur = Some(latch);
                    let one = self.constant(Ty::I64, Constant::I64(1));
                    let next = self.value(Ty::I64);
                    self.emit(Inst::Bin { op: BinOp::Add, dst: next, a: iv_val, b: one });
                    let mut back = vec![next];
                    for v in &vars {
                        back.push(self.env[v]);
                    }
                    self.jump(header, back);
                }
                self.env = after;
                self.env.remove(&iv.0);
                self.cur = Some(exit);
            }
            EStmt::Return { value, .. } => {
                let v = value.as_ref().map(|e| self.expr(e));
                let b = self.cur.unwrap();
                self.blocks[b].term = Term::Return(v);
                self.cur = None;
            }
            EStmt::Effect(e) => {
                self.expr(e);
            }
            EStmt::Nested(b) => self.stmts(b),
        }
    }
}

fn build_fn(program: &AdaptedProgram, f: &AdaptedFn) -> FuncIr {
    let source = f.symbols.len();
    let locals = source + count_block(&f.body);
    let mut val_tys: Vec<Ty> = f.symbols.iter().map(|s| s.ty).collect();
    val_tys.resize(locals, Ty::Bool);
    let mut b = Builder {
        program,
        func: f,
        blocks: vec![],
        cur: None,
        val_tys,
        local_tys: f.symbols.iter().map(|s| s.ty).collect(),
        local_names: f.symbols.iter().map(|s| s.name.clone()).collect(),
        env: HashMap::new(),
    };
    let entry = b.block();
    b.cur = Some(entry);
    for (sym, _) in &f.params {
        let v = b.phi(entry, sym.0);
        b.env.insert(sym.0, v);
    }
    b.stmts(&f.body);
    assert_eq!(b.local_tys.len(), locals);
    for d in &mut b.blocks {
        d.preds.sort();
    }
    FuncIr {
        name: f.name.clone(),
        ret: f.ret,
        blocks: b.blocks,
        entry: BlockId(0),
        next_value: b.val_tys.len() as u32,
        n_locals: locals,
        n_source_locals: source,
        types: TypeTables { val_tys: b.val_tys, local_tys: b.local_tys, local_names: b.local_names },
    }
}

/// The functions of a program in the form that is analyzed and compiled.
fn compile_ir(src: &str) -> Vec<FuncIr> {
    let parsed = parse_str(src).expect("parse");
    let typed = check(&parsed).expect("sema");
    let tree = adapt_program(&parsed.program, &typed).expect("tree");
    tree.funcs.iter().map(|f| build_fn(&tree, f)).collect()
}

/// Everything that is known of the loops of a program.
fn analysis_of(irs: &Vec<FuncIr>) -> Analysis {
    assert!(irs.iter().all(can_analyze));
    analyze_program(irs)
}

// ---------------------------------------------------------------------------
// Running machine code
// ---------------------------------------------------------------------------

/// Where memory starts.
const BASE: u64 = 4096;

struct Machine<'a> {
    engine: &'a JitEngine,
    mem: Vec<u8>,
    tables: DispatchTables,
    traps: TrapRecorder,
    prints: PrintSink,
    /// Regions that were dispatched.
    dispatched: usize,
    /// Participants of a region.
    threads: usize,
}

/// A number of double precision at single precision.
fn demote(bits: u64) -> u64 {
    float_op(FloatOp::FromOther, Precision::Single, bits, 0)
}

fn size_of_ty(t: ClifTy) -> usize {
    match t {
        ClifTy::I8 => 1,
        ClifTy::I32 | ClifTy::F32 => 4,
        ClifTy::I64 | ClifTy::F64 => 8,
    }
}

/// The bits of an integer at the width of the type.
fn narrow(t: ClifTy, n: i64) -> u64 {
    match t {
        ClifTy::I8 => (n as u8) as u64,
        ClifTy::I32 | ClifTy::F32 => (n as u32) as u64,
        ClifTy::I64 | ClifTy::F64 => n as u64,
    }
}

/// The integer that bits of the type stand for.
fn signed(t: ClifTy, b: u64) -> i64 {
    match t {
        ClifTy::I8 => (b as u8 as i8) as i64,
        ClifTy::I32 | ClifTy::F32 => (b as u32 as i32) as i64,
        ClifTy::I64 | ClifTy::F64 => b as i64,
    }
}

fn precision(t: ClifTy) -> Precision {
    if t == ClifTy::F32 {
        Precision::Single
    } else {
        Precision::Double
    }
}

impl<'a> Machine<'a> {
    fn new(engine: &'a JitEngine) -> Self {
        let mut tables = DispatchTables::new();
        for r in &engine.regions {
            tables.register_spec(r.region_id, r.meta);
        }
        Machine {
            engine,
            mem: vec![],
            tables,
            traps: TrapRecorder::new(),
            prints: PrintSink::new(),
            dispatched: 0,
            threads: 1,
        }
    }

    fn reserve(&mut self, bytes: usize) -> u64 {
        let at = BASE + self.mem.len() as u64;
        self.mem.resize(self.mem.len() + bytes.div_ceil(8) * 8 + 8, 0);
        at
    }

    fn read(&self, at: u64, n: usize) -> u64 {
        let i = (at - BASE) as usize;
        let mut b = [0u8; 8];
        b[..n].copy_from_slice(&self.mem[i..i + n]);
        u64::from_le_bytes(b)
    }

    fn write(&mut self, at: u64, n: usize, v: u64) {
        let i = (at - BASE) as usize;
        self.mem[i..i + n].copy_from_slice(&v.to_le_bytes()[..n]);
    }

    fn line(&mut self, s: String) {
        assert!(self.prints.emit_line(s).is_none());
    }

    fn halt(&mut self, code: i64, a: i64, b: i64) {
        match self.traps.helix_panic(code, a, b) {
            TrapAction::Resume => {}
            TrapAction::Exit(text) => panic!("program ended: {text}"),
        }
    }

    fn dispatch(&mut self, start: i64, end: i64, region: i64) -> u64 {
        self.dispatched += 1;
        let entry = self.engine.regions.iter().position(|r| r.region_id == region).expect("known region");
        let body = self.engine.regions[entry].body;
        let combine = self.engine.regions[entry].combine;
        let mut packed = self.tables.pack(region, cell_count(self.threads), &demote).expect("spec");
        let words = packed.mem.len();
        let at = self.reserve(words * 8);
        packed.bind_cells(at, combine);
        for (k, w) in packed.mem.iter().enumerate() {
            self.write(at + 8 * k as u64, 8, *w);
        }
        let cell = |p: usize| at + 8 * (packed.ctx_words + p * CELL_WORDS) as u64;
        let mut ran = 1;
        if start < end {
            let n = (end - start) as usize;
            let parts = chunks(n, participants(n, self.threads));
            ran = parts.len();
            for (p, (lo, hi)) in parts.iter().enumerate() {
                for i in *lo..*hi {
                    self.call(body, &[(start + i as i64) as u64, cell(p)]);
                }
            }
        }
        for k in 0..words {
            packed.mem[k] = self.read(at + 8 * k as u64, 8);
        }
        packed.gather(ran, combine, &float_op);
        self.tables.park(region, packed);
        region as u64
    }

    fn host(&mut self, name: &str, a: &[u64]) -> Vec<u64> {
        match name {
            "helix_print_i64" => self.line((a[0] as i64).to_string()),
            "helix_print_f32" => self.line(float_text(Precision::Single, a[0])),
            "helix_print_f64" => self.line(float_text(Precision::Double, a[0])),
            "helix_print_bool" => self.line(bool_line(a[0] as i64)),
            "helix_zeros" => {
                let n = a[0] as i64;
                if n < 0 {
                    self.halt(NEG_ZEROS, n, 0);
                }
                let bytes = bytes_for_zeros(n, a[1] as i64);
                return vec![self.reserve(bytes)];
            }
            "helix_len" => return vec![a[1]],
            "helix_panic" => self.halt(a[0] as i64, a[1] as i64, a[2] as i64),
            "helix_stash_i" => self.tables.helix_stash_i(a[0] as i64, a[1] as i64),
            "helix_stash_f" => self.tables.helix_stash_f(a[0] as i64, a[1]),
            "helix_stash_arr" => self.tables.helix_stash_arr(a[0] as i64, a[1] as i64, a[2] as i64),
            "helix_dispatch" => return vec![self.dispatch(a[0] as i64, a[1] as i64, a[2] as i64)],
            "helix_read_i64" => return vec![self.tables.helix_read_i64(a[0] as i64) as u64],
            "helix_read_i32" => return vec![(self.tables.helix_read_i32(a[0] as i64) as u32) as u64],
            "helix_read_f64" => return vec![self.tables.helix_read_bits(a[0] as i64)],
            "helix_read_f32" => return vec![(self.tables.helix_read_bits(a[0] as i64) as u32) as u64],
            "helix_ld_i64" | "helix_ld_f64" => {
                let ctx = self.read(a[0], 8);
                return vec![self.read(ctx.wrapping_add(a[1]), 8)];
            }
            "helix_ld_i32" => {
                let ctx = self.read(a[0], 8);
                return vec![self.read(ctx.wrapping_add(a[1]), 8) & 0xffff_ffff];
            }
            "helix_ld_f32" => {
                let ctx = self.read(a[0], 8);
                return vec![demote(self.read(ctx.wrapping_add(a[1]), 8))];
            }
            "helix_acc_load_i64" | "helix_acc_load_f64" => return vec![self.read(a[0] + 8, 8)],
            "helix_acc_load_i32" | "helix_acc_load_f32" => return vec![self.read(a[0] + 8, 4)],
            "helix_acc_store_i64" | "helix_acc_store_f64" => self.write(a[0] + 8, 8, a[1]),
            "helix_acc_store_i32" | "helix_acc_store_f32" => self.write(a[0] + 8, 4, a[1]),
            n => panic!("no host function {n}"),
        }
        vec![]
    }

    /// Calls a callee by its position.
    fn call(&mut self, callee: usize, args: &[u64]) -> Vec<u64> {
        let engine = self.engine;
        let fns = engine.functions.len();
        if callee < fns {
            self.run(&engine.functions[callee], args)
        } else if callee < fns + engine.bodies.len() {
            self.run(&engine.bodies[callee - fns], args)
        } else {
            self.host(&engine.callees[callee].name, args)
        }
    }

    fn run(&mut self, f: &ClifFunc, args: &[u64]) -> Vec<u64> {
        let mut v = vec![0u64; f.tys.len()];
        let mut b = f.entry;
        let mut feed: Vec<u64> = args.to_vec();
        loop {
            let block = &f.blocks[b];
            assert_eq!(block.params.len(), feed.len());
            for (p, x) in block.params.iter().zip(&feed) {
                v[p.0] = *x;
            }
            let mut next = None;
            for inst in &block.insts {
                let pick = |vals: &Vec<Val>| -> Vec<u64> { vals.iter().map(|x| v[x.0]).collect() };
                let out: Vec<u64> = match &inst.op {
                    Op::Iconst(t, n) => vec![narrow(*t, *n)],
                    Op::F32const(bits) => vec![u64::from(*bits)],
                    Op::F64const(bits) => vec![*bits],
                    Op::Unary(o, x) => {
                        let (t, a) = (f.tys[x.0], v[x.0]);
                        vec![match o {
                            UnaryOp::Ineg => narrow(t, signed(t, a).wrapping_neg()),
                            UnaryOp::Fneg => float_op(FloatOp::Neg, precision(t), a, 0),
                            UnaryOp::Fabs => float_op(FloatOp::Abs, precision(t), a, 0),
                            UnaryOp::Sqrt => float_op(FloatOp::Sqrt, precision(t), a, 0),
                        }]
                    }
                    Op::Binary(o, x, y) => {
                        let t = f.tys[x.0];
                        let (a, c) = (v[x.0], v[y.0]);
                        let (i, j) = (signed(t, a), signed(t, c));
                        vec![match o {
                            BinaryOp::Iadd => narrow(t, i.wrapping_add(j)),
                            BinaryOp::Isub => narrow(t, i.wrapping_sub(j)),
                            BinaryOp::Imul => narrow(t, i.wrapping_mul(j)),
                            BinaryOp::Sdiv => narrow(t, i / j),
                            BinaryOp::Srem => narrow(t, i % j),
                            BinaryOp::Band => a & c,
                            BinaryOp::Bor => a | c,
                            BinaryOp::Bxor => a ^ c,
                            BinaryOp::Fadd => float_op(FloatOp::Add, precision(t), a, c),
                            BinaryOp::Fsub => float_op(FloatOp::Sub, precision(t), a, c),
                            BinaryOp::Fmul => float_op(FloatOp::Mul, precision(t), a, c),
                            BinaryOp::Fdiv => float_op(FloatOp::Div, precision(t), a, c),
                        }]
                    }
                    Op::IntCompare(c, x, y) => {
                        let t = f.tys[x.0];
                        let (i, j) = (signed(t, v[x.0]), signed(t, v[y.0]));
                        vec![u64::from(match c {
                            IntCond::Equal => i == j,
                            IntCond::NotEqual => i != j,
                            IntCond::LessThan => i < j,
                            IntCond::GreaterThanOrEqual => i >= j,
                            IntCond::GreaterThan => i > j,
                            IntCond::LessThanOrEqual => i <= j,
                        })]
                    }
                    Op::FloatCompare(c, x, y) => {
                        let p = precision(f.tys[x.0]);
                        let (a, d) = (v[x.0], v[y.0]);
                        let ask = |o: FloatOp| float_op(o, p, a, d);
                        vec![match c {
                            FloatCond::Equal => ask(FloatOp::Eq),
                            FloatCond::NotEqual => ask(FloatOp::Ne),
                            FloatCond::LessThan => ask(FloatOp::Lt),
                            FloatCond::GreaterThanOrEqual => ask(FloatOp::Ge),
                            FloatCond::GreaterThan => ask(FloatOp::Gt),
                            FloatCond::LessThanOrEqual => ask(FloatOp::Le),
                            FloatCond::Unordered => {
                                float_op(FloatOp::Ne, p, a, a) | float_op(FloatOp::Ne, p, d, d)
                            }
                        }]
                    }
                    Op::Select(c, x, y) => vec![if v[c.0] != 0 { v[x.0] } else { v[y.0] }],
                    Op::Convert(o, t, x) => {
                        let (from, a) = (f.tys[x.0], v[x.0]);
                        vec![match o {
                            ConvertOp::Sextend => narrow(*t, signed(from, a)),
                            ConvertOp::Uextend => a,
                            ConvertOp::Ireduce => narrow(*t, a as i64),
                            ConvertOp::FcvtFromSint => {
                                float_op(FloatOp::FromInt, precision(*t), signed(from, a) as u64, 0)
                            }
                            ConvertOp::FcvtToSintSat => {
                                let op = if *t == ClifTy::I32 { FloatOp::ToI32 } else { FloatOp::ToI64 };
                                narrow(*t, float_op(op, precision(from), a, 0) as i64)
                            }
                            ConvertOp::Fpromote | ConvertOp::Fdemote => {
                                float_op(FloatOp::FromOther, precision(*t), a, 0)
                            }
                        }]
                    }
                    Op::Load(t, a) => vec![self.read(v[a.0], size_of_ty(*t))],
                    Op::Store(x, a) => {
                        self.write(v[a.0], size_of_ty(f.tys[x.0]), v[x.0]);
                        vec![]
                    }
                    Op::Call(i, xs) => {
                        let args = pick(xs);
                        self.call(f.imports[*i], &args)
                    }
                    Op::Brif(c, t, ts, e, es) => {
                        next = Some(if v[c.0] != 0 { (*t, pick(ts)) } else { (*e, pick(es)) });
                        vec![]
                    }
                    Op::Jump(t, ts) => {
                        next = Some((*t, pick(ts)));
                        vec![]
                    }
                    Op::Return(xs) => return pick(xs),
                };
                assert_eq!(out.len(), inst.count);
                for (k, x) in out.iter().enumerate() {
                    v[inst.first + k] = *x;
                }
            }
            let (to, vals) = next.expect("every block ends");
            b = to;
            feed = vals;
        }
    }

    /// Runs `main` and gives back what it printed.
    fn run_main(&mut self) -> Vec<String> {
        self.prints.capture_prints();
        self.call(self.engine.main, &[]);
        self.prints.end_capture()
    }
}

/// A program that is ready to run, with the loops of the plan taken out.
fn compiled(irs: &Vec<FuncIr>, plan: &ParallelPlan, unchecked: bool) -> JitEngine {
    assert!(irs.iter().all(can_compile));
    let mut ids = RegionIds::new();
    JitEngine::compile(irs, plan, unchecked, &mut ids).expect("JIT compile")
}

fn no_plan() -> ParallelPlan {
    ParallelPlan { regions: vec![] }
}

fn jit_lines(src: &str) -> Vec<String> {
    let engine = compiled(&compile_ir(src), &no_plan(), false);
    Machine::new(&engine).run_main()
}

/// What a program prints with its loops dispatched, and how many loops the plan holds.
fn jit_lines_with_plan(src: &str) -> (Vec<String>, usize) {
    jit_lines_on(src, 1)
}

/// The same, on several participants.
fn jit_lines_on(src: &str, threads: usize) -> (Vec<String>, usize) {
    let irs = compile_ir(src);
    let plan = analysis_of(&irs).plan;
    let engine = compiled(&irs, &plan, false);
    let mut m = Machine::new(&engine);
    m.threads = threads;
    let lines = m.run_main();
    assert!(engine.regions.len() <= plan.regions.len());
    assert_eq!(m.dispatched > 0, !engine.regions.is_empty());
    (lines, plan.regions.len())
}

/// The same source on both backends; the lines must be the same.
fn assert_parity(src: &str) -> (Vec<String>, Vec<String>) {
    let interp = run_src(src).expect("interpreter failed (test bug)").printed;
    let jitd = jit_lines(src);
    assert_eq!(jitd, interp, "JIT output differs from interpreter");
    (jitd, interp)
}

/// The plan, the sequential code and the interpreter print the same.
fn assert_parallel_parity(src: &str, expect_regions: usize) -> Vec<String> {
    let interp = run_src(src).expect("interp run").printed;
    let seq = jit_lines(src);
    let (par, regions) = jit_lines_with_plan(src);
    assert_eq!(regions, expect_regions, "plan region count");
    assert_eq!(par, seq, "planned JIT vs sequential JIT");
    assert_eq!(par, interp, "planned JIT vs interpreter");
    par
}

/// Runs with the recorder armed; the runtime error, if there was one.
fn trapped_with(src: &str, unchecked: bool) -> Option<(i64, i64, i64)> {
    let engine = compiled(&compile_ir(src), &no_plan(), unchecked);
    let mut m = Machine::new(&engine);
    m.traps.arm_trap_recorder();
    m.run_main();
    let trap = m.traps.take_last_trap();
    m.traps.disarm_trap_recorder();
    trap
}

fn trapped(src: &str) -> Option<(i64, i64, i64)> {
    trapped_with(src, false)
}

// ---------------------------------------------------------------------------
// Runs and their surroundings
// ---------------------------------------------------------------------------

#[test]
fn trap_preserves_printed_lines_for_jit_parity() {
    let src = "fn main() {\n    print(1);\n    print(2);\n    let q = 10 / 0;\n}\n";
    let parsed = parse_str(src).unwrap();
    let typed = check(&parsed).unwrap();
    let floats = Floats { ops: float_op, fmt: float_text };
    let err = run_with_source(&Ok(parsed.program), &typed, &floats).expect_err("must trap");
    assert_eq!(err.printed_so_far, vec!["1", "2"]);
    assert_eq!(err.render(src), "runtime error: integer division by zero at line 4");
}

#[test]
fn contract_run_entry_works_for_call_free_programs() {
    let out = run_src("fn main() {\n    let x = 6;\n    let y = 7;\n    let z = 0;\n}\n").unwrap();
    assert!(out.printed.is_empty());
}

#[test]
fn nothing_runs_without_the_text_of_the_program() {
    let parsed = parse_str("fn main() { print(1); }").unwrap();
    let typed = check(&parsed).unwrap();
    let err = run(&typed).expect_err("no text");
    assert!(err.render("").contains("no source text available"));
    let floats = Floats { ops: float_op, fmt: float_text };
    let err = run_with_source(&Err("at 3".to_string()), &typed, &floats).expect_err("no tree");
    assert!(err.render("").contains("source no longer parses (at 3); cannot build evaluation tree"));
    let other = parse_str("fn main() { let x = 1; }").unwrap();
    let err = run_with_source(&Ok(other.program), &typed, &floats).expect_err("no tree");
    assert!(err.render("").contains("source and typed program do not correspond"));
}

#[test]
fn base_cases_of_a_recursive_function() {
    for (n, want) in [(0i64, "0"), (1, "1"), (10, "55"), (14, "377")] {
        let src = format!(
            "fn fib(n: i64) -> i64 {{\n if n < 2 {{ return n; }}\n return fib(n-1)+fib(n-2);\n}}\nfn main() {{ print(fib({n})); }}\n"
        );
        assert_eq!(run_src(&src).unwrap().printed, vec![want], "fib({n})");
    }
}

#[test]
fn constants_stand_at_the_top_level() {
    assert!(parse_str("fn main() { const N: i64 = 4; print(N); }").is_err());
    assert_eq!(run_src("const N: i64 = 4;\nfn main() { print(N * N); }").unwrap().printed, vec!["16"]);
}

// ---------------------------------------------------------------------------
// Verdicts
// ---------------------------------------------------------------------------

/// The reports on the first function of a program.
fn analyze_src(src: &str) -> Vec<LoopReport> {
    let mut a = analysis_of(&compile_ir(src));
    a.reports.swap_remove(0)
}

fn all_edges(r: &LoopReport) -> usize {
    r.raw_deps.len() + r.war_deps.len() + r.waw_deps.len()
}

#[test]
fn user_call_with_side_effect_vetoes_parallelization() {
    let src = r#"
        fn tag(x: i64) -> i64 {
            print(x);
            return x;
        }
        fn main() {
            let a: [i64] = zeros(8);
            for i in 0..8 {
                a[i] = tag(i);
            }
            print(a[3]);
        }
    "#;
    let funcs = compile_ir(src);
    let main = funcs.iter().position(|f| f.name == "main").unwrap();
    let a = analysis_of(&funcs);
    assert!(!a.loops[main].loops.is_empty(), "test bug: no loop found");
    for rep in &a.reports[main] {
        assert!(
            matches!(rep.verdict, Verdict::Sequential(_)),
            "user-call loop must be SEQUENTIAL, got {:?}",
            rep.verdict
        );
        assert!(
            rep.notes.iter().any(|n| n.contains("non-pure")),
            "expected a non-pure-call note, notes: {:?}",
            rep.notes
        );
    }
}

#[test]
fn pure_builtin_calls_do_not_veto() {
    let src = r#"
        fn main() {
            let n = 64;
            let a: [f64] = zeros(n);
            let out: [f64] = zeros(n);
            for i in 0..n {
                out[i] = sqrt(abs(a[i])) + min(1.0, 2.0);
            }
            print(out[7]);
        }
    "#;
    let reps = analyze_src(src);
    assert!(reps.iter().any(|r| matches!(r.verdict, Verdict::SafeParallel)), "{reps:?}");
}

#[test]
fn the_plan_holds_the_approved_loops() {
    let funcs = compile_ir(&kernel_source("scale", 64));
    let a = analysis_of(&funcs);
    let approved = a.reports.iter().flatten().filter(|r| !matches!(r.verdict, Verdict::Sequential(_))).count();
    assert_eq!(a.plan.regions.len(), approved);
    let reg = &a.plan.regions[0];
    assert_eq!(reg.kind, RegionKind::DoAll);
    assert!(reg.reduction.is_none());
    assert_eq!(reg.func_idx, 0);
}

#[test]
fn nests_keep_their_depths_and_inner_loops_their_parents() {
    let funcs = compile_ir(&kernel_source("matmul", 8));
    let li = find_loops(&funcs[0]);
    let mut depths: Vec<u32> = li.loops.iter().map(|l| l.depth).collect();
    depths.sort();
    assert!(depths.contains(&2) && depths.contains(&3), "{depths:?}");
    for (k, l) in li.loops.iter().enumerate() {
        assert_eq!(l.id, k);
        match l.parent {
            None => assert_eq!(l.depth, 1),
            Some(p) => {
                assert_eq!(l.depth, li.loops[p].depth + 1);
                assert!(l.blocks.iter().all(|b| li.loops[p].blocks.contains(b)));
            }
        }
    }
    let sizes: Vec<usize> = li.loops.iter().map(|l| l.blocks.len()).collect();
    assert!(sizes.windows(2).all(|w| w[0] >= w[1]), "{sizes:?}");
}

#[test]
fn counting_loops_name_their_variable_and_bounds() {
    let reps = analyze_src("fn main() { let s = 0; for k in 3..9 { s = s + k; } print(s); }");
    assert_eq!(reps.len(), 1);
    assert_eq!(reps[0].iv.as_deref(), Some("k"));
    let (lo, hi) = reps[0].bounds.as_ref().expect("bounds");
    assert_eq!((lo.as_str(), hi.as_str()), ("3", "9"));
}

// ---------------------------------------------------------------------------
// Machine code
// ---------------------------------------------------------------------------

fn jit_prints(src: &str) -> Vec<String> {
    jit_lines(src)
}

#[test]
fn healthy_program_records_no_trap() {
    let src = "fn main() {\n    let a: [i64] = zeros(2);\n    a[1] = 6;\n    print(a[1]);\n    print(8 / 2);\n}\n";
    assert_eq!(jit_prints(src), vec!["6", "4"]);
    assert_eq!(trapped(src), None, "guards must stay silent on in-range accesses and safe divisions");
}

#[test]
fn unchecked_strips_bounds_but_keeps_division_guards() {
    let trap = trapped_with("fn main() {\n    let z = 0;\n    print(5 / z);\n}\n", true);
    assert_eq!(
        trap.map(|(c, _, _)| c),
        Some(DIV_BY_ZERO),
        "--unchecked removes bounds guards only; division traps stay"
    );
}

#[test]
fn arrays_of_negative_length_trap() {
    let (code, n, _) = trapped("fn main() {\n    let n = 0 - 3;\n    let a: [f64] = zeros(n);\n}\n").expect("must trap");
    assert_eq!((code, n), (NEG_ZEROS, -3));
}

#[test]
fn i32_min_div_minus_one_guard_matches_interp_width() {
    let src = r#"
        fn main() {
            let m: i64 = 0 - 2147483648;
            let m32 = m as i32;
            let minus1 = (0 - 1) as i32;
            let q = m32 / minus1;
            print(q);
        }
    "#;
    let err = run_src(src).expect_err("interp traps");
    assert!(err.contains("integer division overflow"));
    assert_eq!(trapped(src).expect("machine code traps").0, DIV_OVERFLOW);
}

#[test]
fn unchecked_mode_still_compiles_and_runs() {
    let src = r#"
        fn main() {
            let a: [i64] = zeros(4);
            for i in 0..4 {
                a[i] = i * i;
            }
            print(a[3]);
        }
    "#;
    let engine = compiled(&compile_ir(src), &no_plan(), true);
    assert_eq!(Machine::new(&engine).run_main(), vec!["9"]);
}

#[test]
fn empty_program_without_main_is_rejected() {
    let mut irs = compile_ir("fn main() { print(1); }");
    irs.retain(|f| f.name != "main");
    let mut ids = RegionIds::new();
    let err = JitEngine::compile(&irs, &no_plan(), false, &mut ids).expect_err("no main");
    assert!(err.contains("main"), "{err}");
}

#[test]
fn if_in_loop_carried_assignment_matches_interpreter() {
    let src = r#"
        fn main() {
            let count = 0;
            for i in 0..10 {
                if i > 3 {
                    count = count + 1;
                }
            }
            print(count);
        }
    "#;
    let expected = run_src(src).expect("interp run").printed;
    assert_eq!(expected, vec!["6"]);
    assert_eq!(jit_lines(src), expected);
}

#[test]
fn if_else_in_loop_accumulator_matches_interpreter() {
    let src = r#"
        fn main() {
            let acc = 0;
            for i in 1..8 {
                if i % 2 == 0 {
                    acc = acc + i;
                } else {
                    acc = acc + 10 * i;
                }
            }
            print(acc);
        }
    "#;
    let expected = run_src(src).expect("interp run").printed;
    assert_eq!(jit_lines(src), expected);
}

#[test]
fn parallel_dot_reduction_f64_within_eps() {
    let src = r#"
        fn main() {
            let n = 100000;
            let a: [f64] = zeros(n);
            let b: [f64] = zeros(n);
            for i in 0..n {
                a[i] = 1.0;
                b[i] = 2.0;
            }
            let dot = 0.0;
            for i in 0..n {
                dot = dot + a[i] * b[i];
            }
            print(dot);
        }
    "#;
    let (par, regions) = jit_lines_with_plan(src);
    assert_eq!(regions, 2);
    let got: f64 = par[0].parse().expect("f64 parse of dot output");
    let want = 200_000.0f64;
    let rel = ((got - want) / want).abs();
    assert!(rel < 1e-9, "dot {got} vs {want} (rel {rel})");
}

#[test]
fn captured_scalars_of_every_type_reach_the_bodies() {
    let src = r#"
        fn main() {
            let n = 16;
            let k = 3;
            let s: f64 = 1.5;
            let m = 7 as i32;
            let h: f32 = 0.25;
            let a: [f64] = zeros(n);
            let b: [i32] = zeros(n);
            let c: [f32] = zeros(n);
            for i in 0..n {
                a[i] = s * (i + k) as f64;
                b[i] = m;
                c[i] = h * (i as f32);
            }
            print(a[5]);
            print(b[9]);
            print(c[6]);
        }
    "#;
    assert_eq!(assert_parallel_parity(src, 1), vec!["12.0", "7", "1.5"]);
}

#[test]
fn accumulators_start_from_what_stood_before_the_loop() {
    let cases = [
        ("let v = 100;", "v = min(v, 20 - i);", "5"),
        ("let v = 3;", "v = max(v, i * 2);", "30"),
        ("let v = 7;", "v = v + i;", "127"),
        ("let v = 7;", "v = v - i;", "-113"),
        ("let v = 2.0;", "v = v * 2.0;", "131072.0"),
        ("let v = 0.5;", "v = v + i as f64;", "120.5"),
        ("let v = 9 as i32;", "v = v + (i as i32);", "129"),
        ("let v: f32 = 0.5;", "v = v + (i as f32);", "120.5"),
        ("let v: f32 = 0.5;", "v = max(v, (i as f32));", "15.0"),
    ];
    for (before, inside, want) in cases {
        let src = format!("fn main() {{\n    {before}\n    for i in 0..16 {{\n        {inside}\n    }}\n    print(v);\n}}\n");
        assert_eq!(assert_parallel_parity(&src, 1), vec![want], "{inside}");
        for threads in [2, 3, 8, 40] {
            assert_eq!(jit_lines_on(&src, threads).0, vec![want], "{inside} on {threads}");
        }
    }
}

#[test]
fn helix_nthreads_1_and_8_identical_integer_output() {
    let src = r#"
        fn main() {
            let n = 100000;
            let a: [i64] = zeros(n);
            for i in 0..n {
                a[i] = i * 3 - 7;
            }
            let total = 0;
            for i in 0..n {
                total = total + a[i];
            }
            let lo = 0;
            for i in 0..n {
                if i == 41 { lo = a[i]; }
            }
            print(total);
            print(lo);
            print(a[99999]);
        }
    "#;
    let one = jit_lines_on(src, 1).0;
    let eight = jit_lines_on(src, 8).0;
    assert_eq!(one, eight, "NTHREADS override must not change results");
}

#[test]
fn bodies_trap_at_the_same_place() {
    let src = "fn main() {\n    let n = 8;\n    let a: [i64] = zeros(4);\n    for i in 0..n {\n        a[i] = i;\n    }\n}\n";
    let irs = compile_ir(src);
    let plan = analysis_of(&irs).plan;
    assert_eq!(plan.regions.len(), 1);
    let engine = compiled(&irs, &plan, false);
    let mut m = Machine::new(&engine);
    m.traps.arm_trap_recorder();
    m.run_main();
    assert_eq!(m.traps.take_last_trap(), Some((BOUNDS, 7, 4)));
}

// ---------------------------------------------------------------------------
// Benchmarked kernels
// ---------------------------------------------------------------------------

fn kernel_source(name: &str, size: i64) -> String {
    registry().iter().find(|k| k.name == name).expect("kernel").source_at_size(size)
}

#[test]
fn every_kernel_prints_the_same_everywhere() {
    for k in registry() {
        let size = if k.name == "jacobi_2d" || k.name == "matmul" { 8 } else { 1000 };
        let src = k.source_at_size(size);
        let interp = run_src(&src).unwrap_or_else(|e| panic!("{}: {e}", k.name)).printed;
        assert_eq!(jit_lines(&src), interp, "{}", k.name);
        assert_eq!(jit_lines_with_plan(&src).0, interp, "{}", k.name);
    }
}

// ---------------------------------------------------------------------------
// Values, traps and calls
// ---------------------------------------------------------------------------

#[test]
fn prints_and_checksum_are_stable_across_runs() {
    let src = r#"
        fn main() {
            let a: [i64] = zeros(4);
            a[0] = 5;
            a[3] = -2;
            print(a[0]);
            print(a[1]);
            print(a[2]);
            print(a[3]);
        }
    "#;
    let first = run_src(src).unwrap();
    let second = run_src(src).unwrap();
    assert_eq!(first.printed, vec!["5", "0", "0", "-2"]);
    assert_eq!(first.checksum, second.checksum);
    assert_ne!(first.checksum, FNV_OFFSET);
}

#[test]
fn callee_writes_escape_to_caller_arrays() {
    let src = r#"
        fn poke(a: [i64]) {
            a[1] = 42;
        }
        fn main() {
            let xs: [i64] = zeros(3);
            poke(xs);
            print(xs[1]);
        }
    "#;
    assert_eq!(run_src(src).unwrap().printed, vec!["42"]);
}

#[test]
fn casts_saturating_values() {
    let src = r#"
        fn main() {
            print((-1.0e300) as i32);   // saturates to i32::MIN
            print(1.0e300 as i32);      // saturates to i32::MAX
            print((-1.0e300) as i64);   // saturates to i64::MIN
            print((0.0 / 0.0) as i64);   // NaN -> 0
            print(2147483647.6 as i32); // rounds toward zero then clamps
            print(3.9 as i64);          // truncates toward zero
        }
    "#;
    let out = run_src(src).unwrap();
    assert_eq!(
        out.printed,
        vec![
            "-2147483648",          // f64 -1e300 saturates at i32::MIN
            "2147483647",           // f64 +1e300 saturates at i32::MAX
            "-9223372036854775808", // f64 -1e300 saturates at i64::MIN
            "0",                    // NaN -> 0
            "2147483647",           // 2147483647.6 truncates out of range -> clamp MAX
            "3",                    // plain truncate
        ]
    );
}

#[test]
fn oob_read_reports_line() {
    let err = run_src("fn main() {\n    let a: [i64] = zeros(2);\n    print(a[7]);\n}\n")
        .expect_err("must trap");
    assert!(
        err.contains("index 7 out of bounds"),
        "wrong message: {err}"
    );
    assert!(err.contains("at line 3"), "wrong message: {err}");
}

#[test]
fn div_by_zero_reports_line() {
    let err = run_src("fn main() {\n    let q = 10 / 0;\n}\n").expect_err("must trap");
    assert_eq!(err, "runtime error: integer division by zero at line 2");
}

#[test]
fn i64_min_over_minus_one_traps() {
    let src = r#"
        fn main() {
            let half = 4611686018427387904; // 2^62
            let m = 0 - half - half;        // wrapping to i64::MIN
            let q = m / -1;
            print(q);
        }
    "#;
    let err = run_src(src).expect_err("must trap");
    let lines = LineMap::new(src);
    let want = format!(
        "runtime error: integer division overflow (i64::MIN / -1) at line {}",
        lines.line_of(src.find("m / -1").unwrap() as u32)
    );
    assert_eq!(err, want);
}

#[test]
fn negative_zeros_traps() {
    let err = run_src("fn main() {\n    let n = -3;\n    let a: [f64] = zeros(n);\n}\n")
        .expect_err("must trap");
    assert!(
        err.contains("zeros(-3)") && err.contains("at line 3"),
        "wrong message: {err}"
    );
}

// ---------------------------------------------------------------------------
// Semantics
// ---------------------------------------------------------------------------

#[test]
fn row_recurrence_interpreter_semantics() {
    let src = r#"
        const R: i64 = 16;
        const C: i64 = 16;
        fn main() {
            let n = R * C;
            let a: [f64] = zeros(n);
            a[0] = 1.0;
            for i in 1..R {
                for j in 0..C {
                    a[i * C + j] = a[(i - 1) * C + j] * 2.0;
                }
            }
            print(a[15 * C + 0]);
        }
    "#;
    let out = run_src(src).unwrap();
    assert_eq!(out.printed, vec!["32768.0"]);
}

#[test]
fn i32_arrays_store_and_widen() {
    let src = r#"
        fn main() {
            let a: [i32] = zeros(4);
            a[0] = 7 as i32;
            a[1] = (0 - 3) as i32;
            let i: i32 = 2;
            a[i] = 42 as i32;
            print(a[0]);
            print(a[1]);
            print(a[i]);
            print((a[i]) as i64);
        }
    "#;
    let out = run_src(src).unwrap();
    assert_eq!(out.printed, vec!["7", "-3", "42", "42"]);
}

#[test]
fn min_max_ieee_nan_semantics() {
    let src = r#"
        fn main() {
            print(min(3.0, 7.0));
            print(max(3.0, 7.0));
            print(min(0.0 / 0.0, 5.0));   // NaN loses
            print(max(5.0, 0.0 / 0.0));   // NaN loses
            print(min(4, 9));
            print(max(-4, -9));
        }
    "#;
    let out = run_src(src).unwrap();
    assert_eq!(out.printed, vec!["3.0", "7.0", "5.0", "5.0", "4", "-4"]);
}

#[test]
fn sqrt_negative_is_nan_not_error() {
    let src = r#"
        fn main() {
            print(sqrt(4.0));
            print(sqrt(-1.0));
            print(sqrt(2.25 as f32));
        }
    "#;
    let out = run_src(src).unwrap();
    assert_eq!(out.printed, vec!["2.0", "NaN", "1.5"]);
}

#[test]
fn len_builtin_reports_allocation_size() {
    let src = r#"
        fn main() {
            let a: [bool] = zeros(13);
            print(len(a));
            print(a[12]);
        }
    "#;
    let out = run_src(src).unwrap();
    assert_eq!(out.printed, vec!["13", "false"]);
}

#[test]
fn shadowing_scopes_resolve_to_nearest_binding() {
    let src = r#"
        fn main() {
            let x = 1;
            if true {
                let x = 2;
                print(x);
            }
            print(x);
            for x in 0..1 {
                print(x);   // loop var shadows outer x
            }
            print(x);       // loop scope gone
        }
    "#;
    let out = run_src(src).unwrap();
    assert_eq!(out.printed, vec!["2", "1", "0", "1"]);
}

#[test]
fn else_if_chain_takes_exactly_one_branch() {
    let src = r#"
        fn classify(n: i64) -> i64 {
            if n < 0 {
                return 0 - 1;
            } else if n == 0 {
                return 0;
            } else if n < 10 {
                return 1;
            } else {
                return 2;
            }
        }
        fn main() {
            print(classify(0 - 5));
            print(classify(0));
            print(classify(7));
            print(classify(50));
        }
    "#;
    let out = run_src(src).unwrap();
    assert_eq!(out.printed, vec!["-1", "0", "1", "2"]);
}

#[test]
fn array_passing_is_by_reference_both_ways() {
    let src = r#"
        fn fill(a: [f64], v: f64) {
            for i in 0..len(a) {
                a[i] = v;
            }
        }
        fn main() {
            let xs: [f64] = zeros(3);
            fill(xs, 2.5);
            print(xs[0]);
            print(xs[1]);
            print(xs[2]);
        }
    "#;
    let out = run_src(src).unwrap();
    assert_eq!(out.printed, vec!["2.5", "2.5", "2.5"]);
}

#[test]
fn wrapping_arithmetic_is_two_complement() {
    let src = r#"
        fn main() {
            let big = 9223372036854775807;
            print(big + 1);          // wraps to MIN
            print((0 - big) - 2);    // MIN-1 wraps to MAX
        }
    "#;
    let out = run_src(src).unwrap();
    assert_eq!(
        out.printed,
        vec!["-9223372036854775808", "9223372036854775807"]
    );
}

#[test]
fn float_division_never_traps() {
    let src = r#"
        fn main() {
            print(1.0 / 0.0);
            print(-1.0 / 0.0);
            print(0.0 / 0.0);
            print(1.0 / 3.0);
        }
    "#;
    let out = run_src(src).unwrap();
    assert_eq!(
        out.printed,
        vec!["inf", "-inf", "NaN", "0.3333333333333333"]
    );
}

#[test]
fn bool_ops_and_equality() {
    let src = r#"
        fn main() {
            print(true && false);
            print(true || false);
            print(!true);
            print(1 == 1);
            print(1 != 1);
            print(true == false);
            print(!(3 < 2) && (4 >= 4));
        }
    "#;
    let out = run_src(src).unwrap();
    assert_eq!(
        out.printed,
        vec!["false", "true", "false", "true", "false", "false", "true"]
    );
}

#[test]
fn operators_agree_on_both_backends() {
    let src = r#"
        fn main() {
            let big = 9223372036854775807;
            print(big + 1);
            print((0 - big) - 2);
            print(big * 3);
            print(-7 / 2);
            print(-7 % 2);
            print((3000000000 as i32) as i64);
            print(-2.75 as i64);
            print((7 as f64) / 2.0);
            print(1.0 / 0.0);
            print(0.0 / 0.0 == 0.0 / 0.0);
            print(!(3 < 2) && (4 >= 4));
            print(min(3, -4) + max(3, -4));
        }
    "#;
    let (machine, _) = assert_parity(src);
    assert_eq!(
        machine,
        vec![
            "-9223372036854775808",
            "9223372036854775807",
            "9223372036854775805",
            "-3",
            "-1",
            "-1294967296",
            "-2",
            "3.5",
            "inf",
            "false",
            "true",
            "-1",
        ]
    );
}

#[test]
fn checksum_differs_for_different_programs() {
    let a = run_src("fn main() { print(1); }").unwrap();
    let b = run_src("fn main() { print(2); }").unwrap();
    assert_ne!(a.checksum, b.checksum);
}

#[test]
fn oob_write_traps_with_statement_span() {
    let err = run_src("fn main() {\n    let a: [i64] = zeros(2);\n    a[5] = 1;\n}\n")
        .expect_err("must trap");
    assert_eq!(
        err,
        "runtime error: index 5 out of bounds for array of length 2 at line 3"
    );
}

#[test]
fn rem_overflow_edge_also_traps() {
    let src = r#"
        fn main() {
            let half = 4611686018427387904;
            let m = 0 - half - half;
            print(m % -1);
        }
    "#;
    let err = run_src(src).expect_err("must trap");
    assert!(
        err.contains("integer division overflow"),
        "wrong message: {err}"
    );
}

#[test]
fn negative_index_traps() {
    let src = r#"
        fn main() {
            let a: [f64] = zeros(4);
            let i = 0 - 2;
            print(a[i]);
        }
    "#;
    let err = run_src(src).expect_err("must trap");
    assert_eq!(
        err,
        "runtime error: index -2 out of bounds for array of length 4 at line 5"
    );
}

#[test]
fn unit_fn_and_bare_return() {
    let src = r#"
        fn noisy(n: i64) {
            if n > 0 {
                print(n);
                return;
            }
            print(0 - n);
        }
        fn main() {
            noisy(5);
            noisy(0 - 3);
        }
    "#;
    let out = run_src(src).unwrap();
    assert_eq!(out.printed, vec!["5", "3"]);
}

#[test]
fn nested_calls_evaluate_args_left_to_right() {
    let src = r#"
        fn trace(v: i64) -> i64 {
            print(v);
            return v;
        }
        fn add2(a: i64, b: i64) -> i64 {
            return a + b;
        }
        fn main() {
            let s = add2(trace(11), trace(22));
            print(s);
        }
    "#;
    let out = run_src(src).unwrap();
    assert_eq!(out.printed, vec!["11", "22", "33"]);
}

#[test]
fn deep_recursion_hits_clean_limit() {
    let src = "fn spin(n: i64) -> i64 {\n    return spin(n + 1);\n}\nfn main() {\n    print(spin(0));\n}\n";
    let err = run_src(src).expect_err("must exhaust");
    assert!(err.contains("call stack exhausted"), "wrong message: {err}");
}

#[test]
fn checksum_reflects_array_contents() {
    let mk = |v: i64| {
        format!(
            "fn main() {{\n    let a: [i64] = zeros(2);\n    a[0] = {v};\n    print(a[1]);\n}}\n"
        )
    };
    let one = run_src(&mk(1)).unwrap();
    let two = run_src(&mk(2)).unwrap();
    assert_eq!(one.printed, two.printed); // identical stdout...
    assert_ne!(one.checksum, two.checksum); // ...different final state
}

#[test]
fn nested_block_statement_executes_and_scopes() {
    let src = r#"
        fn main() {
            let x = 1;
            {
                print(x);      // outer x visible inside
                let x = 2;
                print(x);
            }
            print(x);          // inner shadowing gone
        }
    "#;
    let out = run_src(src).unwrap();
    assert_eq!(out.printed, vec!["1", "2", "1"]);
}

#[test]
fn i32_division_traps_use_i32_bounds_message_shape() {
    let src = r#"
        fn main() {
            let half: i64 = 1073741824;
            let m: i64 = 0 - half - half;
            print((m as i32) / ((-1) as i32));
        }
    "#;
    let err = run_src(src).expect_err("must trap");
    assert!(
        err.contains("integer division overflow"),
        "wrong message: {err}"
    );
}

// ---------------------------------------------------------------------------
// Verdicts on small shapes
// ---------------------------------------------------------------------------

#[test]
fn accumulator_used_elsewhere_disqualifies_reduction() {
    let reps = analyze_src(
        "fn main() {
            let n = 100;
            let b: [i64] = zeros(n);
            let s = 0;
            for i in 0..n {
                s = s + i;
                b[i] = s * 2;
            }
        }",
    );
    assert!(
        reps.iter()
            .all(|r| !matches!(r.verdict, Verdict::ReductionParallel(_))),
        "extra use of accumulator must veto: {reps:?}"
    );
}

#[test]
fn accumulator_as_subscript_disqualifies_reduction() {
    let reps = analyze_src(
        "fn main() {
            let n = 100;
            let b: [i64] = zeros(n);
            let s = 0;
            for i in 0..10 {
                s = s + 1;
                b[s] = i;
            }
        }",
    );
    assert!(
        reps.iter()
            .all(|r| !matches!(r.verdict, Verdict::ReductionParallel(_))),
        "accumulator feeding an index must veto"
    );
}

#[test]
fn self_squaring_is_not_a_mul_reduction() {
    let reps = analyze_src(
        "fn main() {
            let n = 8;
            let s = 2;
            for i in 0..n {
                s = s * s;
            }
        }",
    );
    assert!(
        reps.iter()
            .all(|r| !matches!(r.verdict, Verdict::ReductionParallel(_))),
        "x = x*x must not approve"
    );
}

#[test]
fn print_in_body_vetoes_everything() {
    let reps = analyze_src(
        "fn main() {
            let n = 4;
            let a: [i64] = zeros(8);
            let s = 0;
            for i in 0..n {
                s = s + i;
                print(s);
            }
        }",
    );
    let r = &reps[0];
    let Verdict::Sequential(reason) = &r.verdict else {
        panic!("print must force Sequential");
    };
    assert!(reason.contains("side effect"), "{reason}");
    assert!(r.notes.iter().any(|n| n.contains("side effect")));
}

#[test]
fn sub_reduction_folds_into_add_family() {
    let reps = analyze_src(
        "fn main() {
            let n = 20;
            let t = 0;
            for i in 0..n {
                t = t - i * 3;
            }
            print(t);
        }",
    );
    let r = &reps[0];
    let Verdict::ReductionParallel(red) = &r.verdict else {
        panic!("subtraction is a sum of negated terms: {:?}", r.verdict);
    };
    assert_eq!(red.op, ReductionOp::Add);
    assert_eq!(red.var, "t");
}

#[test]
fn mul_reduction_recognized() {
    let reps = analyze_src(
        "fn main() {
            let n = 50;
            let f = 1.0;
            for i in 1..n {
                f = f * (i + 2) as f64;
            }
            print(f);
        }",
    );
    let r = &reps[0];
    let Verdict::ReductionParallel(red) = &r.verdict else {
        panic!("product loop should reduce: {}", r.summary_line());
    };
    assert_eq!(red.op, ReductionOp::Mul);
}

#[test]
fn max_reduction_recognized_when_dominant() {
    let reps = analyze_src(
        "fn main() {
            let n = 10;
            let a: [f64] = zeros(n);
            let lo = 1.0e300;
            let hi = 0.0;
            for i in 0..n {
                lo = min(lo, a[i]);
                hi = max(hi, lo);
            }
            print(hi);
        }",
    );
    let reds: Vec<_> = reps
        .iter()
        .filter(|r| matches!(r.verdict, Verdict::ReductionParallel(_)))
        .collect();
    assert_eq!(reds.len(), 1);
}

#[test]
fn two_independent_add_reductions_coexist() {
    let reps = analyze_src(
        "fn main() {
            let n = 50;
            let a: [i64] = zeros(n);
            let p = 0;
            let q = 0;
            for i in 0..n {
                p = p + i;
                q = q + a[i];
            }
            print(p + q);
        }",
    );
    let r = &reps[0];
    assert!(
        matches!(r.verdict, Verdict::ReductionParallel(_)),
        "{}",
        r.summary_line()
    );
    assert_eq!(all_edges(r), 0);
}

#[test]
fn anti_and_output_dependences_are_reported_separately() {
    let reps = analyze_src(
        "fn main() {
            let n = 100;
            let a: [i64] = zeros(n);
            for i in 0..n - 1 {
                a[i + 1] = 7;
                a[i] = a[i + 1];
            }
        }",
    );
    let r = &reps[0];
    let Verdict::Sequential(_) = &r.verdict else {
        panic!("carried edges must reject");
    };
    assert_eq!(r.waw_deps.len(), 1, "a[i+1]=7 then a[i]=... next iter WAW");
    assert!(!r.raw_deps.is_empty(), "flow edge survives too");
    assert_eq!(r.waw_deps[0].distance, Some(1));
}

#[test]
fn distance_zero_same_iteration_pairs_are_not_carried() {
    let reps = analyze_src(
        "fn main() {
            let n = 32;
            let y: [f64] = zeros(n);
            for i in 0..n {
                y[i] = y[i] * 2.0;
            }
        }",
    );
    let r = &reps[0];
    assert_eq!(all_edges(r), 0, "same-iteration traffic is not carried");
    assert!(matches!(r.verdict, Verdict::SafeParallel));
}

#[test]
fn rar_never_a_dependence() {
    let reps = analyze_src(
        "fn main() {
            let n = 32;
            let a: [i64] = zeros(16);
            let acc = 0;
            for i in 0..n {
                acc = acc + a[i];
            }
        }",
    );
    assert!(reps.iter().all(|r| matches!(
        r.verdict,
        Verdict::SafeParallel | Verdict::ReductionParallel(_)
    )));
}

#[test]
fn scattered_writes_stay_sequential() {
    let src = "fn main() {
            let n = 8;
            let a: [i64] = zeros(n);
            let b: [i64] = zeros(n);
            for i in 0..n {
                a[b[i]] = i;
            }
            print(a[0]);
        }";
    let r = &analyze_src(src)[0];
    assert!(matches!(r.verdict, Verdict::Sequential(_)), "{:?}", r.verdict);
    assert_eq!(run_src(src).unwrap().printed, vec!["7"]);
    assert_eq!(jit_prints(src), vec!["7"]);
}

#[test]
fn touches_of_one_element_are_carried() {
    let body = |text: &str| {
        format!("fn main() {{ let n = 8; let a: [i64] = zeros(9); for i in 0..n {{ {text} }} print(a[0]); }}")
    };
    let r = &analyze_src(&body("a[0] = a[0] + i;"))[0];
    assert!(matches!(r.verdict, Verdict::Sequential(_)));
    assert_eq!((r.raw_deps.len(), r.waw_deps.len()), (1, 1));
    assert_eq!(r.raw_deps[0].distance, None);
    assert_eq!(r.raw_deps[0].direction, "<=>");
    assert_eq!(r.raw_deps[0].explain, "RAW a[0] <- a[0] (one element in every iteration, level 1)");
    let r = &analyze_src(&body("a[3] = i;"))[0];
    assert!(matches!(r.verdict, Verdict::Sequential(_)));
    assert_eq!((r.raw_deps.len(), r.waw_deps.len()), (0, 1));
    // A loop that runs at most once carries nothing, and neither do two elements.
    let once = "fn main() { let a: [i64] = zeros(9); for i in 4..5 { a[3] = i; } print(a[3]); }";
    assert!(matches!(analyze_src(once)[0].verdict, Verdict::SafeParallel));
    let r = &analyze_src(&body("a[i] = a[8];"))[0];
    assert!(matches!(r.verdict, Verdict::SafeParallel), "{}", r.summary_line());
    assert_eq!(jit_lines_on(&body("a[0] = a[0] + i;"), 4).0, vec!["28"]);
}

#[test]
fn lone_writes_of_rows_are_approved() {
    // Every loop of the product of two matrices is approved; the innermost one reduces.
    let k = registry().into_iter().find(|k| k.name == "matmul").unwrap();
    let reps = analyze_src(&k.perf_source);
    let reduces = reps.iter().filter(|r| matches!(r.verdict, Verdict::ReductionParallel(_))).count();
    let safe = reps.iter().filter(|r| matches!(r.verdict, Verdict::SafeParallel)).count();
    assert_eq!((reps.len(), reduces, safe), (4, 1, 3));
}

#[test]
fn chains_may_stand_in_the_latch() {
    let src = "fn main() { let s = 5; for i in 0..100 { s = s + i * 3; } print(s); }";
    let mut irs = compile_ir(src);
    let lp = find_loops(&irs[0]).loops.swap_remove(0);
    let latch = *irs[0].blocks[lp.header.0 as usize].preds.iter().find(|p| lp.blocks.contains(p)).unwrap();
    let body = *irs[0].blocks[latch.0 as usize].preds.first().unwrap();
    assert_ne!(body, lp.header);
    let mut insts = std::mem::take(&mut irs[0].blocks[body.0 as usize].insts);
    assert!(!insts.is_empty());
    insts.append(&mut irs[0].blocks[latch.0 as usize].insts);
    irs[0].blocks[latch.0 as usize].insts = insts;
    let plan = analysis_of(&irs).plan;
    let engine = compiled(&irs, &plan, false);
    assert_eq!(engine.regions.len(), 1);
    for threads in [1, 3, 8] {
        let mut m = Machine::new(&engine);
        m.threads = threads;
        assert_eq!(m.run_main(), run_src(src).unwrap().printed);
        assert_eq!(m.dispatched, 1);
    }
}

#[test]
fn reversed_differences_run_in_order() {
    let src = "fn main() { let x = 5; for i in 0..3 { x = 3 - x; } print(x); }";
    assert!(!matches!(analyze_src(src)[0].verdict, Verdict::ReductionParallel(_)));
    let funcs = compile_ir(src);
    let plan = analysis_of(&funcs).plan;
    assert!(plan.regions.iter().all(|d| extract(&funcs[0], d, 0).is_none()));
    assert_eq!(jit_lines_on(src, 4).0, vec!["-2"]);
    assert_eq!(run_src(src).unwrap().printed, vec!["-2"]);
    let src = "fn main() { let x = 5; for i in 0..3 { x = x - i; } print(x); }";
    assert_eq!(assert_parallel_parity(src, 1), vec!["2"]);
}

/// The first function of a program, its one planned region, and the latch of that loop.
fn one_region(src: &str) -> (FuncIr, RegionDesc, usize) {
    let mut funcs = compile_ir(src);
    let mut plan = analysis_of(&funcs).plan;
    let desc = plan.regions.remove(0);
    let ir = funcs.remove(0);
    let latch = (0..ir.blocks.len())
        .find(|&b| matches!(&ir.blocks[b].term, Term::Jump(t, _) if *t == desc.header) && b > desc.header.0 as usize)
        .unwrap();
    (ir, desc, latch)
}

const FILL: &str = "fn main() { let n = 8; let a: [i64] = zeros(8); for i in 0..n { a[i] = i; } print(a[7]); }";

#[test]
fn loops_that_go_round_by_one_are_taken_out() {
    let (ir, desc, _) = one_region(FILL);
    let region = extract(&ir, &desc, 0).unwrap();
    assert_eq!(region.body.name, "__extracted__");
    assert_eq!(region.header, desc.header);
}

#[test]
fn other_steps_are_not_taken_out() {
    let (mut ir, desc, latch) = one_region(FILL);
    for i in ir.blocks[latch].insts.iter_mut() {
        if let Inst::Const { c, .. } = i {
            assert_eq!(*c, Constant::I64(1));
            *c = Constant::I64(2);
        }
    }
    assert!(extract(&ir, &desc, 0).is_none());
}

#[test]
fn latches_that_branch_are_not_taken_out() {
    let (mut ir, desc, latch) = one_region(FILL);
    let cond = match &ir.blocks[desc.header.0 as usize].term {
        Term::Branch { cond, .. } => *cond,
        _ => unreachable!(),
    };
    let inside = match &ir.blocks[desc.header.0 as usize].term {
        Term::Branch { t, .. } => *t,
        _ => unreachable!(),
    };
    ir.blocks[latch].term = Term::Branch { cond, t: desc.header, f: inside };
    ir.recompute_edges();
    assert!(extract(&ir, &desc, 0).is_none());
}

#[test]
fn headers_that_do_more_than_compare_are_not_taken_out() {
    let (mut ir, desc, _) = one_region(FILL);
    let header = desc.header.0 as usize;
    let iv = ir.blocks[header].phis[0].dst;
    let store = ir
        .blocks
        .iter()
        .flat_map(|b| &b.insts)
        .find_map(|i| match i {
            Inst::Store { arr, .. } => Some(*arr),
            _ => None,
        })
        .unwrap();
    ir.blocks[header].insts.push(Inst::Store { arr: store, idx: iv, val: iv });
    assert!(extract(&ir, &desc, 0).is_none());
}

#[test]
fn non_divisible_stride_proves_independence() {
    let reps = analyze_src(
        "fn main() {
            let n = 50;
            let a: [i64] = zeros(200);
            for i in 0..n {
                a[2 * i + 1] = 3;
            }
            print(a[1]);
        }",
    );
    let r = &reps[0];
    assert!(
        matches!(r.verdict, Verdict::SafeParallel),
        "{}",
        r.summary_line()
    );
}

#[test]
fn symbolic_bounds_still_canonicalize() {
    let reps = analyze_src(
        "fn main() {
            let n = 40;
            let a: [f64] = zeros(n);
            let out: [f64] = zeros(n);
            let m = n / 2;
            for i in 0..m {
                out[i] = a[i] + 1.0;
            }
        }",
    );
    let r = &reps[0];
    assert!(
        matches!(r.verdict, Verdict::SafeParallel),
        "{}",
        r.summary_line()
    );
    assert!(r.bounds.is_some(), "canonical loops report bounds");
}

#[test]
fn nested_loops_get_independent_verdicts() {
    let reps = analyze_src(
        "fn main() {
            let n = 8;
            let b: [i64] = zeros(9);
            let s = 0;
            for i in 0..n {
                b[i] = i;
                for j in 0..n {
                    s = s + j;
                }
            }
            print(s);
        }",
    );
    assert!(
        reps.iter()
            .any(|r| matches!(r.verdict, Verdict::ReductionParallel(_)))
            || reps
                .iter()
                .any(|r| matches!(r.verdict, Verdict::Sequential(_))),
        "inner reduction or honest rejection expected"
    );
}

#[test]
fn summary_line_format_matches_contract() {
    let reps = analyze_src(
        "fn main() {
            let n = 4;
            let a: [i64] = zeros(8);
            for i in 0..n {
                a[i] = i;
            }
        }",
    );
    assert_eq!(
        reps[0].summary_line(),
        "Loop #1: RAW 0 / WAR 0 / WAW 0 => SAFE"
    );

    let reps = analyze_src(
        "fn main() {
            let n = 100;
            let a: [i64] = zeros(n);
            for i in 1..n {
                a[i] = a[i - 1] + 1;
            }
        }",
    );
    let line = reps[0].summary_line();
    assert!(
        line.starts_with("Loop #1: RAW 1 / WAR 0 / WAW 0 => SEQUENTIAL ("),
        "{line}"
    );
}

// ---------------------------------------------------------------------------
// Machine code and fixed values
// ---------------------------------------------------------------------------

#[test]
fn consts_and_iadd_run_through_jit() {
    assert_eq!(
        jit_prints("fn main() {\n    print(2 + 3);\n    print(-7 * 4);\n    print(100 - 1);\n}\n"),
        vec!["5", "-28", "99"]
    );
}

#[test]
fn division_and_remainder_sign_semantics() {
    assert_eq!(
        jit_prints(
            "fn main() {\n    let a = -7;\n    let b = 2;\n    print(a % b);\n    print(7 % -2);\n    print(a / b);\n}\n"
        ),
        vec!["-1", "1", "-3"]
    );
}

#[test]
fn float_arithmetic_and_bool_printing() {
    assert_eq!(
        jit_prints(
            "fn main() {\n    print(2.5 * 2.0);\n    print(1.0 / 4.0);\n    print(true);\n    print(1.5 < 2.5);\n}\n"
        ),
        vec!["5.0", "0.25", "true", "true"]
    );
}

#[test]
fn branches_loops_and_phi_join() {
    assert_eq!(
        jit_prints(
            "fn main() {\n    let n = 10;\n    let acc = 0;\n    for i in 0..n {\n        acc = acc + i;\n    }\n    print(acc);\n\n    let x = 3;\n    if x > 2 {\n        print(100);\n    } else {\n        print(200);\n    }\n}\n"
        ),
        vec!["45", "100"]
    );
}

#[test]
fn arrays_zeros_len_and_stores() {
    assert_eq!(
        jit_prints(
            "fn main() {\n    let a: [i64] = zeros(4);\n    a[0] = 42;\n    a[3] = a[0] + 8;\n    print(a[3]);\n    print(len(a));\n}\n"
        ),
        vec!["50", "4"]
    );
}

#[test]
fn user_calls_and_recursion() {
    assert_eq!(
        jit_prints(
            "fn add(a: i64, b: i64) -> i64 {\n    return a + b;\n}\nfn fib(n: i64) -> i64 {\n    if n < 2 {\n        return n;\n    }\n    return fib(n - 1) + fib(n - 2);\n}\nfn main() {\n    print(add(20, 22));\n    print(fib(15));\n}\n"
        ),
        vec!["42", "610"]
    );
}

#[test]
fn out_of_bounds_load_traps_with_bounds_code() {
    let src = "fn main() {\n    let a: [i64] = zeros(3);\n    let i = 7;\n    print(a[i]);\n}\n";
    let (code, idx, len) = trapped(src).expect("must trap");
    assert_eq!(code, BOUNDS);
    assert_eq!((idx, len), (7, 3));
}

#[test]
fn negative_store_index_traps_too() {
    let src = "fn main() {\n    let a: [i64] = zeros(3);\n    let i = 0 - 2;\n    a[i] = 5;\n}\n";
    let (code, _, _) = trapped(src).expect("must trap");
    assert_eq!(code, BOUNDS);
}

#[test]
fn division_by_zero_traps() {
    let src = "fn main() {\n    let z = 0;\n    print(10 / z);\n}\n";
    let (code, _, _) = trapped(src).expect("must trap");
    assert_eq!(code, DIV_BY_ZERO);
}

#[test]
fn remainder_by_zero_traps() {
    let src = "fn main() {\n    let z = 0;\n    print(10 % z);\n}\n";
    let (code, _, _) = trapped(src).expect("must trap");
    assert_eq!(code, DIV_BY_ZERO);
}

#[test]
fn min_div_minus_one_overflow_edge_traps() {
    let src = "fn main() {\n    let m = -9223372036854775807 - 1;\n    print(m / -1);\n}\n";
    let (code, _, _) = trapped(src).expect("must trap");
    assert_eq!(code, DIV_OVERFLOW);
}

// ---------------------------------------------------------------------------
// Machine code against the interpreter
// ---------------------------------------------------------------------------

#[test]
fn add_two_constants() {
    let src = r#"
        fn main() {
            print(2 + 3);
            print(-7 + 7);
        }
    "#;
    assert_parity(src);
}

#[test]
fn loop_sums_array_elements() {
    let src = r#"
        fn main() {
            let a: [i64] = zeros(4);
            for i in 0..4 {
                a[i] = i * 2;
            }
            let s = 0;
            for i in 0..4 {
                s = s + a[i];
            }
            print(s);
        }
    "#;
    let (jitd, _) = assert_parity(src);
    assert_eq!(jitd, vec!["12"]);
}

#[test]
fn phi_merge_takes_branch_value() {
    let src = r#"
        fn main() {
            let x = 1;
            if 2 > 3 {
                x = 100;
            } else {
                x = 200;
            }
            print(x);
        }
    "#;
    let (got, _) = assert_parity(src);
    assert_eq!(got, vec!["200"]);
}

#[test]
fn nested_loops_and_i32_arrays() {
    let src = r#"
        fn main() {
            let m: [i32] = zeros(12);
            for i in 0..3 {
                for j in 0..4 {
                    m[i * 4 + j] = (i * 10 + j) as i32;
                }
            }
            print(m[5]);
            print(m[11]);
            let total: i64 = 0;
            for k in 0..12 {
                total = total + (m[k] as i64);
            }
            print(total);
        }
    "#;
    let (got, _) = assert_parity(src);
    assert_eq!(got, vec!["11", "23", "138"]);
}

#[test]
fn callee_writes_escape_to_caller_array() {
    let src = r#"
        fn poke(a: [i64]) {
            a[1] = 42;
        }
        fn main() {
            let xs: [i64] = zeros(3);
            poke(xs);
            print(xs[1]);
        }
    "#;
    let (got, _) = assert_parity(src);
    assert_eq!(got, vec!["42"]);
}

#[test]
fn many_arguments_survive_fastcall() {
    let src = r#"
        fn f(a: i64, b: i64, c: i64, d: i64, e: f64, g: [f64], flag: bool) -> i64 {
            let acc = a + b * 2 + c * 3 + d * 4;
            let fe = (e * 10.0) as i64;
            let ge = (g[0] + g[1]) as i64;
            if flag {
                print(999);
            }
            return acc + fe + ge;
        }
        fn main() {
            let arr: [f64] = zeros(2);
            arr[0] = 1.25;
            arr[1] = 2.75;
            print(f(1, 2, 3, 4, 1.5, arr, true));
        }
    "#;
    let (got, _) = assert_parity(src);
    assert_eq!(got, vec!["999", "49"]);
}

#[test]
fn value_returning_helpers_compose() {
    let src = r#"
        fn square(x: i64) -> i64 {
            return x * x;
        }
        fn add(a: i64, b: i64) -> i64 {
            return a + b;
        }
        fn main() {
            print(add(square(3), square(4)));
        }
    "#;
    let (got, _) = assert_parity(src);
    assert_eq!(got, vec!["25"]);
}

#[test]
fn builtins_len_zeros_sqrt_abs_minmax() {
    let src = r#"
        fn main() {
            let a: [f64] = zeros(7);
            print(len(a));
            print(sqrt(4.0));
            print(abs(-9));
            print(min(3.5, 2.5));
            print(max(-1, -7));
            print(sqrt(2.0));
        }
    "#;
    let (got, _) = assert_parity(src);
    assert_eq!(got.len(), 6);
}

#[test]
fn float_minmax_nan_loses_like_interpreter() {
    let src = r#"
        fn main() {
            let z = 0.0 / 0.0;
            print(min(z, 5.0));
            print(max(z, 5.0));
            print(min(z, z));
        }
    "#;
    let (got, _) = assert_parity(src);
    assert_eq!(got, vec!["5.0", "5.0", "NaN"]);
}

#[test]
fn float_printing_is_canonical_f32_not_widened() {
    let src = r#"
        fn main() {
            let f: f32 = 0.1;
            print(f);
            print(0.5);
            print(-2.0);
            print(1.0 / 3.0);
        }
    "#;
    let (got, _) = assert_parity(src);
    assert_eq!(got[0], "0.1"); // NOT 0.10000000149011612 — fmt parity check
    assert_eq!(got[1], "0.5");
    assert_eq!(got[2], "-2.0");
    assert_eq!(got[3], "0.3333333333333333");
}

#[test]
fn casts_saturate_exactly_like_interpreter() {
    let src = r#"
        fn main() {
            print((-1.0e300) as i32);
            print(1.0e300 as i32);
            print((-1.0e300) as i64);
            print((0.0 / 0.0) as i64);
            print(2147483647.6 as i32);
            print(3.9 as i64);
            print((2.5 as i32) as f64);
            print(7 as f32);
        }
    "#;
    let (got, _) = assert_parity(src);
    assert_eq!(
        got,
        vec![
            "-2147483648",          // saturates at i32::MIN
            "2147483647",           // saturates at i32::MAX
            "-9223372036854775808", // saturates at i64::MIN
            "0",                    // NaN -> 0
            "2147483647",           // truncate then clamp
            "3",                    // plain truncate toward zero
            "2.0",                  // int->float round trip
            "7.0",
        ]
    );
}

#[test]
fn int_narrowing_and_sign_extension() {
    let src = r#"
        fn main() {
            let big: i64 = 0 - 5;
            let small = big as i32;
            print(small);
            let back = small as i64;
            print(back);
            let wrap = 70000 as i32;
            print(wrap);
        }
    "#;
    let (got, _) = assert_parity(src);
    assert_eq!(got, vec!["-5", "-5", "70000"]);
}

#[test]
fn shortcircuit_hit_counts_match_interpreter() {
    let src = r#"
        fn side(v: i64, hit: [i64]) -> bool {
            hit[v] = hit[v] + 1;
            return v == 3;
        }
        fn main() {
            let hits: [i64] = zeros(5);
            let r = side(1, hits) && side(3, hits);
            print(r);
            print(hits[1]);
            print(hits[3]);
            let q = side(2, hits) || side(4, hits);
            print(q);
            print(hits[2]);
            print(hits[4]);
        }
    "#;
    let (got, _) = assert_parity(src);
    assert_eq!(
        got,
        vec!["false", "1", "0", "false", "1", "1"],
        "rhs of && must not run; rhs of || must run"
    );
}

#[test]
fn shortcircuit_result_value_flows_through_phi() {
    let src = r#"
        fn main() {
            let a: [i64] = zeros(3);
            let r = len(a) > 1 && len(a) < 2;
            if r {
                print(111);
            } else {
                print(222);
            }
            print(r);
        }
    "#;
    let (got, _) = assert_parity(src);
    assert_eq!(got, vec!["222", "false"]);
}

#[test]
fn division_guards_allow_normal_values() {
    let src = r#"
        fn main() {
            print(10 / 3);
            print(10 % 3);
            print(-7 / 2);
            print(-7 % 2);
            print(7 % -2);
            print(0 / 5);
        }
    "#;
    let (got, _) = assert_parity(src);
    assert_eq!(got, vec!["3", "1", "-3", "-1", "1", "0"]);
}

#[test]
fn oob_index_in_range_stays_safe_under_checked_mode() {
    let src = r#"
        fn main() {
            let a: [f64] = zeros(3);
            a[0] = 1.5;
            a[2] = 2.5;
            print(a[0]);
            print(a[2]);
            let neg = 0 - 1;
            print(len(a));
        }
    "#;
    let (got, _) = assert_parity(src);
    assert_eq!(got, vec!["1.5", "2.5", "3"]);
}

#[test]
fn parallel_saxpy_small_matches_interpreter_checksum() {
    let src = r#"
        fn main() {
            let n = 50000;
            let x: [f64] = zeros(n);
            let y: [f64] = zeros(n);
            let s = 2.5;
            for i in 0..n {
                x[i] = i as f64;
                y[i] = 1.0;
            }
            for i in 0..n {
                y[i] = s * x[i] + y[i];
            }
            print(y[7]);
            print(y[n - 1]);
        }
    "#;
    let out = assert_parallel_parity(src, 2); // init loop + saxpy loop
    assert_eq!(out[0], "18.5");
}

#[test]
fn parallel_dot_reduction_int_exact() {
    let src = r#"
        fn main() {
            let n = 100000;
            let a: [i64] = zeros(n);
            for i in 0..n {
                a[i] = i + 1;
            }
            let total = 0;
            for i in 0..n {
                total = total + a[i];
            }
            print(total);
        }
    "#;
    let out = assert_parallel_parity(src, 2);
    let expected = 100000i64 * 100001 / 2;
    assert_eq!(out[0], expected.to_string());
}

#[test]
fn minmax_reduction_matches_interpreter() {
    let src = r#"
        fn main() {
            let n = 100000;
            let a: [f64] = zeros(n);
            for i in 0..n {
                a[i] = (n - i) as f64;
            }
            let lo = 1.0e300;
            for i in 0..n {
                lo = min(lo, a[i]);
            }
            print(lo);
        }
    "#;
    let out = assert_parallel_parity(src, 2);
    assert_eq!(out[0], "1.0");
}

/// Compares two lines as numbers, up to a relative bound.
fn close(eps: u64, x: &String, y: &String) -> bool {
    match (x.parse::<f64>(), y.parse::<f64>()) {
        (Ok(fx), Ok(fy)) => {
            let scale = fx.abs().max(fy.abs());
            (fx - fy).abs() <= f64::from_bits(eps) * scale
        }
        _ => false,
    }
}

/// Runs a program on the interpreter as one way of running it.
fn interp_of(src: &str) -> Result<impl ExecVariant, String> {
    let floats = Floats { ops: float_op, fmt: float_text };
    match parse_str(src) {
        Err(e) => interp_variant(src, Err(e.clone()), Err(e), floats),
        Ok(parsed) => {
            let checked = check(&parsed);
            interp_variant(src, Ok(parsed.program), checked, floats)
        }
    }
}

/// Runs a compiled program on the machine.
fn machine_run(engine: &JitEngine, _threads: Option<usize>) -> NativeRun {
    let mut m = Machine::new(engine);
    m.traps.arm_trap_recorder();
    let printed = m.run_main();
    NativeRun { printed, result: Ok(()), trap: m.traps.take_last_trap() }
}

fn native_of(src: &str) -> Result<impl ExecVariant, String> {
    let irs = compile_ir(src);
    assert!(irs.iter().all(can_compile));
    native_variant(&irs, &mut RegionIds::new(), machine_run)
}

#[test]
fn all_sources_parse_and_check_cleanly() {
    for k in registry() {
        for (label, src) in [("perf", k.perf_source.as_str()), ("correctness", k.correctness_source.as_str())] {
            let parsed = parse_str(src).unwrap_or_else(|e| panic!("{} ({label}) parse: {e}", k.name));
            let typed = check(&parsed).unwrap_or_else(|ds| panic!("{} ({label}) sema: {ds:#?}", k.name));
            assert_eq!(typed.funcs.len() + typed.consts.len(), parsed.program.items.len());
        }
    }
}

#[test]
fn every_kernel_passes_the_parity_gate() {
    for k in registry() {
        let out = interp_of(&k.correctness_source).unwrap().run_once();
        assert!(
            parity_holds(&k, &out, &close),
            "{} failed its correctness gate (expected {:?})",
            k.name,
            k.expected_printed
        );
    }
}

#[test]
fn oracle_lines_hold_at_correctness_sizes() {
    for k in registry() {
        let out = interp_of(&k.correctness_source).unwrap().run_once();
        assert!(
            parity_holds(&k, &out, &close),
            "{}: interpreter disagrees with oracle lines {:?}",
            k.name,
            k.expected_printed
        );
    }
}

#[test]
fn interp_vs_jit_parity_for_every_kernel() {
    for kernel in registry() {
        let expected = interp_of(&kernel.correctness_source).unwrap().run_once().unwrap();
        let native = native_of(&kernel.correctness_source).unwrap().run_once().unwrap();
        assert!(
            kernel.tolerance.matches(&expected.printed, &native.printed, &close),
            "{}: interpreter printed {:?} but native printed {:?} (tolerance {})",
            kernel.name,
            expected.printed,
            native.printed,
            kernel.tolerance.name("1e-9")
        );
    }
}

#[test]
fn the_analysis_finds_the_verdicts_that_kernels_expect() {
    for k in registry() {
        for src in [&k.perf_source, &k.correctness_source] {
            let view = analyze_plan(&analysis_of(&compile_ir(src)));
            match verdict_gate(&k, &view) {
                Ok(_) => {}
                Err(e) => panic!("{}: {e}", k.name),
            }
        }
    }
}

#[test]
fn recurrence_is_rejected_and_sieve_inner_loop_approved() {
    let reg = registry();
    let recurrence = reg.iter().find(|k| k.name == "recurrence_reject").unwrap();
    let sieve = reg.iter().find(|k| k.name == "count_primes_sieve").unwrap();
    assert!(matches!(recurrence.expected_verdict, ExpectedVerdict::Sequential));
    assert!(matches!(sieve.expected_verdict, ExpectedVerdict::SafeParallel));
    assert!(analysis_of(&compile_ir(&recurrence.perf_source)).plan.regions.is_empty());
}

#[test]
fn interp_variant_compiles_and_executes_isolated_units() {
    let a = interp_of(registry()[0].perf_source.as_str());
    assert!(a.is_ok(), "perf source failed to compile: {}", a.err().unwrap_or_default());
    let src = r#"
        fn main() {
            let x: [i64] = zeros(2);
            x[0] = 9;
            print(x[0]);
        }
    "#;
    let v1 = interp_of(src).unwrap();
    let v2 = interp_of(src).unwrap();
    assert_eq!(v1.run_once().unwrap().printed, v2.run_once().unwrap().printed);
    assert_eq!(interp_of("fn main( {").err().map(|e| e.starts_with("syntax error: ")), Some(true));
}

#[test]
fn native_variant_construction_matches_interp() {
    let src = r#"
                fn main() {
                    let n = 1000;
                    let a: [f64] = zeros(n);
                    let out: [f64] = zeros(n);
                    for i in 0..n {
                        out[i] = a[i] + 1.0;
                    }
                    print(out[999]);
                }
            "#;
    assert!(matches!(native_availability(), NativeAvailability::Ready));
    let interp = interp_of(src).expect("interp");
    let native = native_of(src).expect("native");
    assert_eq!(interp.run_once().unwrap().printed, native.run_once().unwrap().printed);
    assert_eq!(native.name(), "native-seq");
}

// ---------------------------------------------------------------------------
// Twins written by hand
// ---------------------------------------------------------------------------

fn saxpy_inputs(n: usize) -> (Vec<f64>, Vec<f64>) {
    let x = (0..n).map(|i| ((i * 17 + 3) % 251) as f64 / 17.0 - 4.0).collect();
    let y = (0..n).map(|i| ((i * 29 + 11) % 241) as f64 / 19.0 - 5.0).collect();
    (x, y)
}

fn scale_inputs(n: usize) -> Vec<f64> {
    (0..n).map(|i| ((i * 13 + 5) % 199) as f64 / 7.0 - 12.0).collect()
}

fn dot_inputs(n: usize) -> (Vec<f64>, Vec<f64>) {
    let a = (0..n).map(|i| ((i * 7 + 1) % 97) as f64 / 9.0 - 4.0).collect();
    let b = (0..n).map(|i| ((i * 11 + 2) % 89) as f64 / 11.0 - 3.0).collect();
    (a, b)
}

fn matmul_centre(n: usize) -> f64 {
    let a: Vec<f64> = (0..n * n).map(|i| ((i % 97) as f64) * 0.5).collect();
    let b: Vec<f64> = (0..n * n).map(|i| (((i * 7) % 89) as f64) * 0.25).collect();
    let (i, j) = (n / 2, n / 2);
    let mut acc = 0.0f64;
    for k in 0..n {
        acc += a[i * n + k] * b[k * n + j];
    }
    acc
}

fn checksum_f64(v: f64) -> u64 {
    printed_checksum(&vec![format!("{v:?}")])
}

#[test]
fn oracle_saxpy_y7_at_n1024() {
    let (x, y) = saxpy_inputs(1024);
    let want = format!("{:?}", 2.5 * x[7] + y[7]);
    assert_eq!(want, "14.204334365325078");
    assert_eq!(run_src(&kernel_source("saxpy", 1024)).unwrap().printed, vec![want]);
}

#[test]
fn oracle_scale_out42_at_n1000() {
    let want = format!("{:?}", scale_inputs(1000)[42] * 5.0);
    assert_eq!(want, "49.28571428571429");
    assert_eq!(run_src(&kernel_source("scale", 1000)).unwrap().printed, vec![want]);
}

#[test]
fn oracle_dot_sum_at_n4096() {
    let (a, b) = dot_inputs(4096);
    let mut acc = 0.0f64;
    for i in 0..4096 {
        acc += a[i] * b[i];
    }
    assert_eq!(format!("{acc:?}"), "5206.808080808095");
    assert_eq!(run_src(&kernel_source("dot_reduction", 4096)).unwrap().printed, vec!["5206.808080808095"]);
}

#[test]
fn matmul_twin_agrees_with_the_interpreted_example() {
    assert_eq!(matmul_centre(8), 1626.625);
    assert_eq!(run_src(&kernel_source("matmul", 8)).unwrap().printed, vec!["1626.625"]);
}

#[test]
fn rust_twins_match_interpreter_checksums() {
    let (x, y) = saxpy_inputs(8);
    let twin_saxpy = checksum_f64(2.5 * x[7] + y[7]);
    let saxpy_src = r#"
        fn main() {
            let n = 8;
            let x: [f64] = zeros(n);
            let y: [f64] = zeros(n);
            for i in 0..n {
                x[i] = ((i * 17 + 3) % 251) as f64 / 17.0 - 4.0;
                y[i] = ((i * 29 + 11) % 241) as f64 / 19.0 - 5.0;
            }
            let s = 2.5;
            for i in 0..n {
                y[i] = s * x[i] + y[i];
            }
            print(y[7]);
        }
    "#;
    let out = interp_of(saxpy_src).expect("compile").run_once().expect("run");
    assert_eq!(printed_checksum(&out.printed), twin_saxpy, "saxpy twin vs interpreter checksum");

    let (a, b) = dot_inputs(16);
    let mut dot = 0.0f64;
    for i in 0..16 {
        dot += a[i] * b[i];
    }
    let dot_src = r#"
        fn main() {
            let n = 16;
            let a: [f64] = zeros(n);
            let b: [f64] = zeros(n);
            for i in 0..n {
                a[i] = ((i * 7 + 1) % 97) as f64 / 9.0 - 4.0;
                b[i] = ((i * 11 + 2) % 89) as f64 / 11.0 - 3.0;
            }
            let d = 0.0;
            for i in 0..n {
                d = d + a[i] * b[i];
            }
            print(d);
        }
    "#;
    let out = interp_of(dot_src).expect("compile").run_once().expect("run");
    assert_eq!(printed_checksum(&out.printed), checksum_f64(dot), "dot twin vs interpreter checksum");

    let twin_scale = checksum_f64(scale_inputs(16)[10] * 5.0);
    let scale_src = r#"
        fn main() {
            let n = 16;
            let a: [f64] = zeros(n);
            let out: [f64] = zeros(n);
            for i in 0..n {
                a[i] = ((i * 13 + 5) % 199) as f64 / 7.0 - 12.0;
            }
            for i in 0..n {
                out[i] = a[i] * 5.0;
            }
            print(out[10]);
        }
    "#;
    let out = interp_of(scale_src).expect("compile").run_once().expect("run");
    assert_eq!(printed_checksum(&out.printed), twin_scale, "scale twin vs interpreter checksum");

    let k = registry();
    let matmul = k.iter().find(|k| k.name == "matmul").unwrap();
    let out = interp_of(&matmul.correctness_source).expect("compile").run_once().expect("run");
    assert_eq!(printed_checksum(&out.printed), checksum_f64(matmul_centre(8)), "matmul twin vs interpreter checksum");
}
