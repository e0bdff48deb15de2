//! End-to-end tests for the instrumentation pass.
//!
//! Each case builds the representation of a small micro-transaction
//! program, instruments it, and executes the instrumented function under
//! a tiny interpreter: a clean run ends in `ret`, a bounds violation
//! reaches the abort block.

use std::collections::HashMap;

use llvm_sandboxer::IrError;
use llvm_sandboxer::ir::{GlobalInit, GlobalVar, Instruction, IrFunction, IrModule, Opcode, Operand};
use llvm_sandboxer::navigator::parse_phi_entries;
use llvm_sandboxer::runtime::instrument;
use llvm_sandboxer::static_checks::_parse_gep;

fn n(s: &str) -> Vec<u8> {
    s.as_bytes().to_vec()
}

// ---------------------------------------------------------------- builders

fn instr(opcode: Opcode, operands: Vec<Operand>, width: Option<u64>, text: &str) -> Instruction {
    Instruction { opcode, dest: None, operands, width, ty: Vec::new(), text: n(text) }
}

fn with_dest(mut i: Instruction, dest: &str) -> Instruction {
    i.dest = Some(n(dest));
    i
}

fn utx1(len_op: Operand) -> Instruction {
    instr(
        Opcode::Call,
        vec![Operand::Global(n("a")), len_op],
        None,
        "call void @utx1(ptr @a, i64 n)",
    )
}

fn utx0() -> Instruction {
    instr(Opcode::Call, vec![], None, "call void @utx0()")
}

fn gep_a(idx: u64) -> Operand {
    Operand::ConstGep(n(&format!(
        "getelementptr inbounds ([4 x i64], ptr @a, i64 0, i64 {})",
        idx
    )))
}

fn store_to(ptr: Operand, v: u64) -> Instruction {
    instr(
        Opcode::Store,
        vec![Operand::ConstInt(v), ptr],
        Some(8),
        "store i64 v, ptr p, align 8",
    )
}

fn ret() -> Instruction {
    instr(Opcode::Ret, vec![], None, "ret i64 0")
}

fn block(name: &str, instrs: Vec<Instruction>) -> llvm_sandboxer::ir::Block {
    llvm_sandboxer::ir::Block { name: n(name), instrs }
}

fn module_of(name: &str, blocks: Vec<llvm_sandboxer::ir::Block>) -> IrModule {
    IrModule {
        functions: vec![IrFunction { name: n(name), blocks }],
        globals: vec![GlobalVar { name: n("a"), init: GlobalInit::Opaque }],
        decls: vec![],
    }
}

// ------------------------------------------------------------ interpreter

#[derive(Debug, PartialEq)]
enum Outcome {
    Exited,
    Aborted,
}

const A_BASE: i64 = 1000;

struct Machine {
    env: HashMap<Vec<u8>, i64>,
    mem: HashMap<i64, i64>,
    globals: HashMap<Vec<u8>, i64>,
}

impl Machine {
    fn eval(&self, o: &Operand) -> i64 {
        match o {
            Operand::Ssa(name) => *self.env.get(name).unwrap_or(&0),
            Operand::Global(g) => *self.globals.get(g).expect("an address for every global"),
            Operand::ConstInt(k) => *k as i64,
            Operand::ConstGep(text) => {
                let ops = _parse_gep(text).expect("a parseable constant getelementptr");
                let base: Vec<u8> = ops[1].1.iter().copied().filter(|c| *c != b'@').collect();
                let idx: i64 = String::from_utf8(ops[3].1.clone()).unwrap().parse().unwrap();
                self.globals.get(&base).expect("a known base") + idx * 8
            },
            Operand::Null => 0,
            Operand::Label(_) => panic!("a label is not a value"),
        }
    }
}

/// Runs `f` until `ret` or the abort block, with `@a` at a fixed
/// address and the window globals at their own cells.
fn run(f: &IrFunction) -> (Outcome, HashMap<i64, i64>) {
    let mut m = Machine { env: HashMap::new(), mem: HashMap::new(), globals: HashMap::new() };
    m.globals.insert(n("a"), A_BASE);
    m.globals.insert(n("protected_ptr"), 1);
    m.globals.insert(n("protected_offset"), 9);
    m.mem.insert(1, 0);
    m.mem.insert(9, 0);
    let mut cur: usize = 0;
    let mut prev_name: Vec<u8> = Vec::new();
    let mut alloca_next: i64 = 500000;
    let mut steps: usize = 0;
    'blocks: loop {
        let b = &f.blocks[cur];
        let mut k: usize = 0;
        while k < b.instrs.len() {
            steps += 1;
            assert!(steps < 100000, "the run does not terminate");
            let i = &b.instrs[k];
            match i.opcode {
                Opcode::Phi => {
                    let es = parse_phi_entries(i).expect("a parseable phi");
                    let mut v: Option<i64> = None;
                    for (value, label) in &es {
                        if *label == prev_name {
                            v = Some(m.eval(value));
                        }
                    }
                    let v = v.expect("a phi entry for the edge taken");
                    m.env.insert(i.dest.clone().expect("a phi destination"), v);
                },
                Opcode::Call => {
                    let text = String::from_utf8(i.text.clone()).unwrap();
                    if text.contains("abort") {
                        return (Outcome::Aborted, m.mem);
                    }
                    // Any other call — the intrinsics of uninstrumented
                    // runs included — does nothing here.
                },
                Opcode::Load => {
                    let addr = m.eval(&i.operands[0]);
                    let v = *m.mem.get(&addr).unwrap_or(&0);
                    m.env.insert(i.dest.clone().expect("a load destination"), v);
                },
                Opcode::Store => {
                    let v = m.eval(&i.operands[0]);
                    let addr = m.eval(&i.operands[1]);
                    m.mem.insert(addr, v);
                },
                Opcode::Alloca => {
                    m.env.insert(i.dest.clone().expect("an alloca destination"), alloca_next);
                    alloca_next += 64;
                },
                Opcode::ICmpEq => {
                    let v = (m.eval(&i.operands[0]) == m.eval(&i.operands[1])) as i64;
                    m.env.insert(i.dest.clone().unwrap(), v);
                },
                Opcode::ICmpSlt => {
                    let v = (m.eval(&i.operands[0]) < m.eval(&i.operands[1])) as i64;
                    m.env.insert(i.dest.clone().unwrap(), v);
                },
                Opcode::ICmpSgt => {
                    let v = (m.eval(&i.operands[0]) > m.eval(&i.operands[1])) as i64;
                    m.env.insert(i.dest.clone().unwrap(), v);
                },
                Opcode::Or => {
                    let v = m.eval(&i.operands[0]) | m.eval(&i.operands[1]);
                    m.env.insert(i.dest.clone().unwrap(), v);
                },
                Opcode::Add => {
                    let v = m.eval(&i.operands[0]).wrapping_add(m.eval(&i.operands[1]));
                    m.env.insert(i.dest.clone().unwrap(), v);
                },
                Opcode::PtrToInt => {
                    let v = m.eval(&i.operands[0]);
                    m.env.insert(i.dest.clone().unwrap(), v);
                },
                Opcode::Br => {
                    let target = if i.operands.len() == 1 {
                        &i.operands[0]
                    } else if m.eval(&i.operands[0]) != 0 {
                        &i.operands[1]
                    } else {
                        &i.operands[2]
                    };
                    let label = match target {
                        Operand::Label(l) => l.clone(),
                        _ => panic!("a branch targets labels"),
                    };
                    prev_name = b.name.clone();
                    cur = f
                        .blocks
                        .iter()
                        .position(|bb| bb.name == label)
                        .expect("a block for every label");
                    continue 'blocks;
                },
                Opcode::Ret => {
                    return (Outcome::Exited, m.mem);
                },
                Opcode::Unreachable => panic!("unreachable executed"),
                Opcode::Other => {},
            }
            k += 1;
        }
        panic!("a block ended without a terminator");
    }
}

fn instrumented(mut m: IrModule, static_analysis: bool) -> IrFunction {
    instrument(&n("f"), &mut m, static_analysis).expect("instrumentation succeeds");
    m.functions.remove(0)
}

// ----------------------------------------------------------------- cases

/// An access with no `utx1` ever called aborts.
#[test]
fn test_instrument_bad_entry_0() {
    let m = module_of("f", vec![block("entry", vec![store_to(gep_a(0), 1), ret()])]);
    let f = instrumented(m, false);
    assert_eq!(run(&f).0, Outcome::Aborted);
}

/// A write one past the end aborts.
#[test]
fn test_instrument_bad_entry_1() {
    let m = module_of(
        "f",
        vec![block(
            "entry",
            vec![utx1(Operand::ConstInt(32)), store_to(gep_a(4), 0), ret()],
        )],
    );
    let f = instrumented(m, false);
    assert_eq!(run(&f).0, Outcome::Aborted);
}

/// A write past the declared half-length aborts.
#[test]
fn test_instrument_bad_entry_2() {
    let m = module_of(
        "f",
        vec![block(
            "entry",
            vec![utx1(Operand::ConstInt(16)), store_to(gep_a(3), 0), ret()],
        )],
    );
    let f = instrumented(m, false);
    assert_eq!(run(&f).0, Outcome::Aborted);
}

/// A `utx1` whose length value was never set leaves a zero-length
/// window: the first access aborts.
#[test]
fn test_instrument_bad_entry_3() {
    let m = module_of(
        "f",
        vec![block(
            "entry",
            vec![utx1(Operand::Ssa(n("len"))), store_to(gep_a(0), 1), ret()],
        )],
    );
    let f = instrumented(m, false);
    assert_eq!(run(&f).0, Outcome::Aborted);
}

/// `utx1(a, 32); a[0] = 1; a[3] = 4; utx0();` runs to completion with
/// both cells written.
#[test]
fn test_instrument_good_entry_0() {
    let m = module_of(
        "f",
        vec![block(
            "entry",
            vec![
                utx1(Operand::ConstInt(32)),
                store_to(gep_a(0), 1),
                store_to(gep_a(3), 4),
                utx0(),
                ret(),
            ],
        )],
    );
    let f = instrumented(m, false);
    let (outcome, mem) = run(&f);
    assert_eq!(outcome, Outcome::Exited);
    assert_eq!(mem.get(&A_BASE), Some(&1));
    assert_eq!(mem.get(&(A_BASE + 24)), Some(&4));
}

/// A loop that fills the array, with a phi joining the two edges; the
/// split retargets the phi and the array is fully written.
#[test]
fn test_instrument_good_entry_1() {
    let entry = block(
        "entry",
        vec![
            with_dest(
                instr(Opcode::PtrToInt, vec![Operand::Global(n("a"))], None, "ptrtoint"),
                "ai",
            ),
            with_dest(
                instr(
                    Opcode::Add,
                    vec![Operand::Ssa(n("ai")), Operand::ConstInt(32)],
                    None,
                    "add",
                ),
                "end",
            ),
            utx1(Operand::ConstInt(32)),
            instr(Opcode::Br, vec![Operand::Label(n("loop"))], None, "br label %loop"),
        ],
    );
    let looped = block(
        "loop",
        vec![
            with_dest(
                Instruction {
                    opcode: Opcode::Phi,
                    dest: None,
                    operands: vec![Operand::Ssa(n("ai")), Operand::Ssa(n("pn"))],
                    width: None,
                    ty: n("i64"),
                    text: n("%p = phi i64 [ %ai, %entry ], [ %pn, %loop ]"),
                },
                "p",
            ),
            store_to(Operand::Ssa(n("p")), 5),
            with_dest(
                instr(
                    Opcode::Add,
                    vec![Operand::Ssa(n("p")), Operand::ConstInt(8)],
                    None,
                    "add",
                ),
                "pn",
            ),
            with_dest(
                instr(
                    Opcode::ICmpSlt,
                    vec![Operand::Ssa(n("pn")), Operand::Ssa(n("end"))],
                    None,
                    "icmp",
                ),
                "more",
            ),
            instr(
                Opcode::Br,
                vec![
                    Operand::Ssa(n("more")),
                    Operand::Label(n("loop")),
                    Operand::Label(n("exit")),
                ],
                None,
                "br",
            ),
        ],
    );
    let exit = block("exit", vec![ret()]);
    let m = module_of("f", vec![entry, looped, exit]);
    let f = instrumented(m, false);
    let (outcome, mem) = run(&f);
    assert_eq!(outcome, Outcome::Exited);
    for idx in 0..4 {
        assert_eq!(mem.get(&(A_BASE + idx * 8)), Some(&5), "cell {} written", idx);
    }
}

/// With the static pre-pass on, provably safe constant accesses keep no
/// runtime check: no block is split, and the run completes.
#[test]
fn test_instrument_good_entry_2() {
    let m = module_of(
        "f",
        vec![block(
            "entry",
            vec![
                utx1(Operand::ConstInt(32)),
                store_to(gep_a(0), 1),
                store_to(gep_a(3), 4),
                ret(),
            ],
        )],
    );
    let f = instrumented(m, true);
    // One original block plus the abort block: nothing was split.
    assert_eq!(f.blocks.len(), 2);
    let (outcome, mem) = run(&f);
    assert_eq!(outcome, Outcome::Exited);
    assert_eq!(mem.get(&A_BASE), Some(&1));
}

/// The window base itself is provably safe under the pre-pass.
#[test]
fn test_instrument_good_entry_3() {
    let m = module_of(
        "f",
        vec![block(
            "entry",
            vec![utx1(Operand::ConstInt(8)), store_to(Operand::Global(n("a")), 2), ret()],
        )],
    );
    let f = instrumented(m, true);
    assert_eq!(f.blocks.len(), 2);
    assert_eq!(run(&f).0, Outcome::Exited);
}

/// A named stack slot is trusted: the store through the renamed alloca
/// keeps no check even without any `utx1`.
#[test]
fn test_instrument_good_entry_4() {
    let m = module_of(
        "f",
        vec![block(
            "entry",
            vec![
                with_dest(instr(Opcode::Alloca, vec![], None, "alloca i64"), "buf"),
                store_to(Operand::Ssa(n("buf")), 3),
                ret(),
            ],
        )],
    );
    let f = instrumented(m, false);
    assert_eq!(f.blocks.len(), 2);
    // The alloca and its use follow the stack_ naming.
    assert_eq!(f.blocks[0].instrs[0].dest, Some(n("stack_0")));
    assert_eq!(run(&f).0, Outcome::Exited);
}

/// A mix: one access proven by the pre-pass, one checked at runtime and
/// in bounds.
#[test]
fn test_instrument_good_entry_5() {
    let m = module_of(
        "f",
        vec![block(
            "entry",
            vec![
                utx1(Operand::ConstInt(32)),
                store_to(gep_a(1), 7),
                with_dest(
                    instr(Opcode::PtrToInt, vec![Operand::Global(n("a"))], None, "ptrtoint"),
                    "ai",
                ),
                store_to(Operand::Ssa(n("ai")), 8),
                ret(),
            ],
        )],
    );
    let f = instrumented(m, true);
    // Only the dynamic store was split.
    assert_eq!(f.blocks.len(), 3);
    let (outcome, mem) = run(&f);
    assert_eq!(outcome, Outcome::Exited);
    assert_eq!(mem.get(&(A_BASE + 8)), Some(&7));
    assert_eq!(mem.get(&A_BASE), Some(&8));
}

/// A diamond whose join phi is fed by two split blocks: both entries are
/// retargeted and the join still picks the right value.
#[test]
fn test_instrument_phi_0() {
    let entry = block(
        "entry",
        vec![
            utx1(Operand::ConstInt(32)),
            with_dest(
                instr(
                    Opcode::ICmpEq,
                    vec![Operand::ConstInt(1), Operand::ConstInt(1)],
                    None,
                    "icmp",
                ),
                "c",
            ),
            instr(
                Opcode::Br,
                vec![
                    Operand::Ssa(n("c")),
                    Operand::Label(n("then")),
                    Operand::Label(n("els")),
                ],
                None,
                "br",
            ),
        ],
    );
    let then_b = block(
        "then",
        vec![
            store_to(gep_a(0), 1),
            instr(Opcode::Br, vec![Operand::Label(n("join"))], None, "br label %join"),
        ],
    );
    let else_b = block(
        "els",
        vec![
            store_to(gep_a(1), 2),
            instr(Opcode::Br, vec![Operand::Label(n("join"))], None, "br label %join"),
        ],
    );
    let join = block(
        "join",
        vec![
            with_dest(
                Instruction {
                    opcode: Opcode::Phi,
                    dest: None,
                    operands: vec![Operand::ConstInt(11), Operand::ConstInt(22)],
                    width: None,
                    ty: n("i64"),
                    text: n("%v = phi i64 [ 11, %then ], [ 22, %els ]"),
                },
                "v",
            ),
            store_to(gep_a(2), 9),
            ret(),
        ],
    );
    let m = module_of("f", vec![entry, then_b, else_b, join]);
    let mut m = m;
    instrument(&n("f"), &mut m, false).expect("instrumentation succeeds");
    let f = &m.functions[0];
    let (outcome, mem) = run(f);
    assert_eq!(outcome, Outcome::Exited);
    // The then-edge was taken: its store landed, the phi picked 11 …
    assert_eq!(mem.get(&A_BASE), Some(&1));
    // … which nothing reads here; what matters is that the run did not
    // get stuck on a phi whose predecessors no longer exist.
    assert_eq!(mem.get(&(A_BASE + 16)), Some(&9));
}

/// The pass rewrites the module around the function: the window
/// globals, the abort declaration, the abort block, and no intrinsic
/// call left.
#[test]
fn test_instrument_structure() {
    let m = module_of(
        "f",
        vec![block(
            "entry",
            vec![utx1(Operand::ConstInt(32)), store_to(gep_a(0), 1), utx0(), ret()],
        )],
    );
    let mut m = m;
    instrument(&n("f"), &mut m, false).expect("instrumentation succeeds");
    assert_eq!(m.globals.len(), 3);
    assert_eq!(m.globals[1].name, n("protected_ptr"));
    assert_eq!(m.globals[1].init, GlobalInit::NullPtr);
    assert_eq!(m.globals[2].name, n("protected_offset"));
    assert_eq!(m.globals[2].init, GlobalInit::IntVal(0));
    assert_eq!(m.decls, vec![n("abort")]);
    let f = &m.functions[0];
    let last = f.blocks.last().unwrap();
    assert_eq!(last.name, n("abort"));
    assert_eq!(last.instrs.len(), 2);
    assert!(matches!(last.instrs[0].opcode, Opcode::Call));
    assert!(matches!(last.instrs[1].opcode, Opcode::Unreachable));
    for b in &f.blocks {
        for i in &b.instrs {
            if matches!(i.opcode, Opcode::Call) {
                let text = String::from_utf8(i.text.clone()).unwrap();
                assert!(!text.contains("utx0") && !text.contains("utx1"));
            }
        }
    }
}

/// Split blocks are named `load0, load1, …` and `store0, …` by separate
/// counters, in sweep order.
#[test]
fn test_instrument_split_names() {
    let load_via = |reg: &str| {
        with_dest(
            instr(Opcode::Load, vec![Operand::Ssa(n(reg))], Some(8), "load i64, ptr %r, align 8"),
            "v",
        )
    };
    let m = module_of(
        "f",
        vec![block(
            "entry",
            vec![
                with_dest(
                    instr(Opcode::PtrToInt, vec![Operand::Global(n("a"))], None, "ptrtoint"),
                    "r",
                ),
                utx1(Operand::ConstInt(32)),
                load_via("r"),
                store_to(Operand::Ssa(n("r")), 1),
                load_via("r"),
                ret(),
            ],
        )],
    );
    let f = instrumented(m, false);
    let names: Vec<String> = f
        .blocks
        .iter()
        .map(|b| String::from_utf8(b.name.clone()).unwrap())
        .collect();
    assert_eq!(names, vec!["bb0", "load0", "store0", "load1", "abort"]);
}

/// Only the named function is rewritten; its siblings stay as they were.
#[test]
fn test_instrument_leaves_other_functions() {
    let other = IrFunction {
        name: n("g"),
        blocks: vec![block("start", vec![utx1(Operand::ConstInt(32)), ret()])],
    };
    let mut m = module_of("f", vec![block("entry", vec![store_to(gep_a(0), 1), ret()])]);
    m.functions.push(other);
    instrument(&n("f"), &mut m, false).expect("instrumentation succeeds");
    let g = &m.functions[1];
    assert_eq!(g.blocks.len(), 1);
    assert_eq!(g.blocks[0].name, n("start"));
    assert_eq!(g.blocks[0].instrs.len(), 2);
    let text = String::from_utf8(g.blocks[0].instrs[0].text.clone()).unwrap();
    assert!(text.contains("utx1"));
}

/// The split block's predecessor ends with exactly the published check
/// sequence, named after the split block and branching to the abort
/// block or to it.
#[test]
fn test_instrument_check_shape() {
    let m = module_of(
        "f",
        vec![block(
            "entry",
            vec![utx1(Operand::ConstInt(32)), store_to(gep_a(0), 1), ret()],
        )],
    );
    let f = instrumented(m, false);
    assert_eq!(f.blocks[1].name, n("store0"));
    let pre = &f.blocks[0].instrs;
    let tail = &pre[pre.len() - 12..];
    let opcodes: Vec<Opcode> = tail.iter().map(|i| i.opcode).collect();
    assert_eq!(
        opcodes,
        vec![
            Opcode::Load,
            Opcode::ICmpEq,
            Opcode::ICmpSlt,
            Opcode::Load,
            Opcode::PtrToInt,
            Opcode::Add,
            Opcode::PtrToInt,
            Opcode::Add,
            Opcode::ICmpSgt,
            Opcode::Or,
            Opcode::Or,
            Opcode::Br,
        ]
    );
    // The window loads read the two globals; the verdict branch targets
    // the abort block, then the split block.
    assert!(matches!(&tail[0].operands[0], Operand::Global(g) if *g == n("protected_ptr")));
    assert!(matches!(&tail[3].operands[0], Operand::Global(g) if *g == n("protected_offset")));
    assert_eq!(tail[11].operands.len(), 3);
    assert!(matches!(&tail[11].operands[1], Operand::Label(l) if *l == n("abort")));
    assert!(matches!(&tail[11].operands[2], Operand::Label(l) if *l == n("store0")));
    // The step values are named after the split block.
    assert_eq!(tail[0].dest, Some(n("pb_store0")));
    assert_eq!(tail[10].dest, Some(n("violated_store0")));
}

/// A `utx1` call without its two operands is malformed.
#[test]
fn test_instrument_malformed_utx1() {
    let bad = instr(Opcode::Call, vec![Operand::Global(n("a"))], None, "call void @utx1(ptr @a)");
    let mut m = module_of("f", vec![block("entry", vec![bad, ret()])]);
    assert_eq!(instrument(&n("f"), &mut m, false), Err(IrError::MalformedIr));
}

/// A guarded access without a recorded width is malformed.
#[test]
fn test_instrument_missing_width() {
    let bad = instr(
        Opcode::Store,
        vec![Operand::ConstInt(1), gep_a(0)],
        None,
        "store i64 1, ptr getelementptr",
    );
    let mut m = module_of("f", vec![block("entry", vec![bad, ret()])]);
    assert_eq!(instrument(&n("f"), &mut m, false), Err(IrError::MalformedIr));
}

/// A phi showing more entries in its printed form than it has operands
/// cannot be paired up.
#[test]
fn test_instrument_malformed_phi() {
    let bad_phi = with_dest(
        Instruction {
            opcode: Opcode::Phi,
            dest: None,
            operands: vec![Operand::ConstInt(0)],
            width: None,
            ty: n("i64"),
            text: n("%v = phi i64 [ 0, %entry ], [ 1, %entry ]"),
        },
        "v",
    );
    let mut m = module_of("f", vec![block("entry", vec![bad_phi, ret()])]);
    assert_eq!(instrument(&n("f"), &mut m, false), Err(IrError::MalformedIr));
}

/// Instrumenting a function the module does not hold fails and leaves
/// the module unchanged.
#[test]
fn test_instrument_missing_function() {
    let mut m = module_of("f", vec![block("entry", vec![ret()])]);
    let r = instrument(&n("g"), &mut m, false);
    assert_eq!(r, Err(IrError::MissingFunction));
    assert_eq!(m.globals.len(), 1);
    assert_eq!(m.functions[0].blocks[0].name, n("entry"));
}
