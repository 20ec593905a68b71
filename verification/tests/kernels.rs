//! Kernel sets, splitting trees, and the programs that are built from them.

use fidget_bytecode::Bytecode;
use fidget_core::context::{BinaryOpcode, Context, Op, Tree};
use fidget_core::eval::Function;
use fidget_core::var::Var;
use fidget_core::vm::VmShape;
use fidget_kernels::expr::Operation;
use fidget_kernels::kernels::{count_leaves, Kernels};
use fidget_kernels::leaves::Graph;
use fidget_kernels::opcode::{op_function, BinaryOp, Opcode, UnaryOp};
use fidget_kernels::program::{kernel_source, KernelProgram, KERNEL_STUB};
use fidget_kernels::{KernelError, RenderShapeError, Variable};
use std::collections::{HashMap, HashSet};
use std::hash::{Hash, Hasher};

/// A tangle of quartics, as a text model
const TANGLECUBE: &str = "
x var-x
y var-y
z var-z
x2 square x
y2 square y
z2 square z
x4 square x2
y4 square y2
z4 square z2
five const 5
fx mul five x2
fy mul five y2
fz mul five z2
ax sub x4 fx
ay sub y4 fy
az sub z4 fz
axy add ax ay
axyz add axy az
off const 10
out add axyz off
";

/// A quarter of a ring
const QUARTER: &str = "
x var-x
y var-y
x2 square x
y2 square y
r2 add x2 y2
r sqrt r2
one const 1
half const 0.5
outer sub r one
inner sub half r
ring max outer inner
nx neg x
ny neg y
a max ring nx
out max a ny
";

/// Two strokes, too small to be worth a kernel
const STROKES: &str = "
x var-x
y var-y
a sub x y
b add x y
out min a b
";

/// Rows of columns with a roof
fn columns() -> String {
    let mut s = "x var-x\ny var-y\nz var-z\n".to_owned();
    let mut last = "z".to_owned();
    for i in 0..12 {
        s += &format!("cx{i} const {}\n", i as f32 * 0.15 - 0.9);
        s += &format!("dx{i} sub x cx{i}\nsx{i} square dx{i}\n");
        s += &format!("cy{i} const {}\n", (i % 3) as f32 * 0.4 - 0.4);
        s += &format!("dy{i} sub y cy{i}\nsy{i} square dy{i}\n");
        s += &format!("q{i} add sx{i} sy{i}\nr{i} sqrt q{i}\n");
        s += &format!("w{i} const {}\n", 0.05 + i as f32 * 0.001);
        s += &format!("c{i} sub r{i} w{i}\nm{i} min {last} c{i}\n");
        last = format!("m{i}");
    }
    s += "h const 0.8\nroof sub z h\n";
    s += &format!("out max {last} roof\n");
    s
}

/// Many shifted glyphs, whose tape spills registers
fn glyphs() -> String {
    let mut s = "x var-x\ny var-y\n".to_owned();
    for i in 0..300 {
        s += &format!("k{i} const {}\n", i as f32 * 0.013 - 1.9);
        s += &format!("u{i} mul x k{i}\nv{i} sin u{i}\ng{i} add v{i} y\n");
    }
    let mut last = "g0".to_owned();
    for i in 1..300 {
        let op = if i % 2 == 0 { "max" } else { "min" };
        s += &format!("p{i} {op} {last} g{i}\n");
        last = format!("p{i}");
    }
    for i in (0..300).rev() {
        s += &format!("t{i} add {last} g{i}\n");
        last = format!("t{i}");
    }
    s
}

/// Models that stand for small and large shapes
fn models() -> Vec<(&'static str, String)> {
    vec![
        ("strokes", STROKES.to_owned()),
        ("quarter", QUARTER.to_owned()),
        ("tanglecube", TANGLECUBE.to_owned()),
        ("columns", columns()),
        ("glyphs", glyphs()),
    ]
}

fn load(text: &str) -> Tree {
    let (ctx, root) = Context::from_text(text.as_bytes()).unwrap();
    ctx.export(root).unwrap()
}

/// Builds a tree which uses every opcode
fn every_op() -> Tree {
    let (x, y, z) = Tree::axes();
    let a = x.clone().sin() + y.clone().cos() * z.clone().tan();
    let b = (x.clone().square() + 1.0).sqrt().recip() - y.clone().abs();
    let c = x.clone().asin().atan2(y.clone().acos()) / z.clone().atan();
    let d = (x.clone().exp() + 2.0).ln().floor() + y.clone().ceil()
        - z.clone().round();
    let e = x.clone().modulo(0.5).compare(y.clone())
        + x.clone().mix(y.clone())
        + z.clone().rand()
        + x.clone().not();
    let f = a.min(b).max(c).and(d).or(e);
    -f
}

/// Defines a value type in WGSL, with the operations of the interpreter
///
/// The bodies don't matter here, only that names and types fit.
fn prelude(value: &str) -> String {
    let mut s = format!("alias Value = {value};\n");
    s += "struct Stack { choices: u32, }\n";
    s += "fn build_imm(v: f32) -> Value { return Value(v); }\n";
    for name in [
        "neg", "abs", "recip", "sqrt", "square", "floor", "ceil", "round",
        "not", "rand", "sin", "cos", "tan", "asin", "acos", "atan", "exp",
        "log",
    ] {
        s += &format!("fn op_{name}(a: Value) -> Value {{ return a; }}\n");
    }
    for name in
        ["add", "sub", "mul", "div", "atan2", "compare", "mix", "mod"]
    {
        s += &format!(
            "fn op_{name}(a: Value, b: Value) -> Value {{ return a + b; }}\n"
        );
    }
    for name in ["min", "max", "and", "or"] {
        s += &format!(
            "fn op_{name}(a: Value, b: Value, s: ptr<function, Stack>) \
             -> Value {{ (*s).choices += 1u; return a + b; }}\n"
        );
    }
    s
}

/// Calls `kernel_input`, as the interpreter does for an input variable
const CALLER: &str = "
fn read_input(index: u32, xyz: array<Value, 3>) -> Value {
    var out = xyz[0];
    if kernel_input(index, xyz, &out) {
        return out;
    }
    return xyz[1];
}
";

/// Returns a shader for each value type, including the given kernel source
fn stage_shaders(k: &str) -> Vec<(&'static str, String)> {
    [
        ("float", "f32"),
        ("interval", "vec2<f32>"),
        ("gradient", "vec4<f32>"),
    ]
    .into_iter()
    .map(|(name, value)| (name, prelude(value) + k + CALLER))
    .collect()
}

fn compile_shader(src: &str, name: &str) {
    let module = naga::front::wgsl::parse_str(src)
        .unwrap_or_else(|e| panic!("{name}: {}", e.emit_to_string(src)));
    naga::valid::Validator::new(
        naga::valid::ValidationFlags::all(),
        naga::valid::Capabilities::all(),
    )
    .validate(&module)
    .unwrap_or_else(|e| panic!("{name}: {e:?}"));
}

fn check_stages(program: &KernelProgram) {
    for (name, src) in stage_shaders(&program.source) {
        compile_shader(&src, name);
    }
}

fn variable(v: Var) -> Variable {
    match v {
        Var::X => Variable::X,
        Var::Y => Variable::Y,
        Var::Z => Variable::Z,
        Var::V(i) => Variable::V(i),
    }
}

fn var(v: Variable) -> Var {
    match v {
        Variable::X => Var::X,
        Variable::Y => Var::Y,
        Variable::Z => Var::Z,
        Variable::V(i) => Var::V(i),
    }
}

/// The whole shape as a single kernel
fn compiled(
    shape: &VmShape,
) -> Result<Option<KernelProgram>, RenderShapeError> {
    let v = Var::new();
    let outer = VmShape::from(Tree::from(v));
    KernelProgram::build(outer.inner().vars(), &[(variable(v), shape.clone())])
}

fn with_kernels(
    shape: &VmShape,
    kernels: &Kernels,
) -> Result<Option<KernelProgram>, RenderShapeError> {
    KernelProgram::build(shape.inner().vars(), &kernels.shapes())
}

#[test]
fn stub_shaders_compile() {
    for (name, src) in stage_shaders(KERNEL_STUB) {
        compile_shader(&src, name);
    }
}

#[test]
fn compile_every_op() {
    let shape = VmShape::from(every_op());
    let program = compiled(&shape).unwrap().unwrap();
    let src = &program.source;
    for (_, i) in fidget_bytecode::iter_ops() {
        let op = Opcode::from_repr(i).unwrap();
        if matches!(
            op,
            Opcode::Output | Opcode::Input | Opcode::Copy | Opcode::Mem
        ) {
            continue;
        }
        assert!(
            src.contains(op_function(op)),
            "kernel is missing {}",
            op_function(op)
        );
    }
    check_stages(&program);
}

#[test]
fn compile_spills() {
    // Many simultaneously-live values force register spills
    let (x, y, _z) = Tree::axes();
    let terms: Vec<Tree> = (0..400)
        .map(|i| (x.clone() * (i as f32 * 0.01)).sin() + y.clone())
        .collect();
    let mut t = terms[0].clone();
    for (i, v) in terms.iter().enumerate().skip(1) {
        t = if i % 2 == 0 {
            t.max(v.clone())
        } else {
            t.min(v.clone())
        };
    }
    for v in terms.iter().rev() {
        t += v.clone();
    }
    let shape = VmShape::from(t);
    let bytecode = Bytecode::new(shape.inner().data()).unwrap();
    assert!(bytecode.mem_count() > 0, "test tape should spill");
    let program = compiled(&shape).unwrap().unwrap();
    check_stages(&program);
}

#[test]
fn unsupported_var() {
    let mut kernels = Kernels::new();
    let v = Var::new();
    let k = kernels.compile(Tree::x() + Tree::from(v));
    let shape = VmShape::from(k.min(Tree::y()));
    assert!(matches!(
        with_kernels(&shape, &kernels),
        Err(RenderShapeError::KernelError(KernelError::UnsupportedVar(
            ..
        )))
    ));
    // The error names the variable
    let Err(RenderShapeError::KernelError(e)) = with_kernels(&shape, &kernels)
    else {
        panic!("the variable isn't an axis");
    };
    assert!(
        matches!(&e, KernelError::UnsupportedVar(w) if *w == variable(v))
    );
    assert_eq!(
        e.message(),
        format!("kernels may only use the X, Y, and Z axes (found {v})")
    );
}

#[test]
fn unused_kernels() {
    let mut kernels = Kernels::new();
    let _unused = kernels.compile(Tree::x().sin());
    let shape = VmShape::from(Tree::y());
    let program = with_kernels(&shape, &kernels).unwrap();
    assert!(program.is_none());
}

#[test]
fn identical_kernels_share_source() {
    let t = Tree::x().sin() * Tree::y().cos() - 0.5;
    let a = compiled(&VmShape::from(t.clone())).unwrap().unwrap();
    let b = compiled(&VmShape::from(t)).unwrap().unwrap();
    assert_eq!(a.source, b.source);
    assert_eq!(a.key, b.key);
    // A different kernel has a different key
    let c = compiled(&VmShape::from(Tree::x().sin())).unwrap().unwrap();
    assert_ne!(a.key, c.key);
}

#[test]
fn models_compile() {
    for (name, text) in models() {
        let tree = load(&text);
        let program = compiled(&VmShape::from(tree.clone()))
            .unwrap_or_else(|e| panic!("{name}: {e:?}"))
            .unwrap();
        check_stages(&program);

        let mut kernels = Kernels::new();
        let outer = kernels.compile_leaves(&tree, 4);
        let program = with_kernels(&VmShape::from(outer), &kernels)
            .unwrap_or_else(|e| panic!("{name}: {e:?}"));
        if let Some(program) = program {
            check_stages(&program);
        }
    }
}

/// Splitting into kernels must not change the function
#[test]
fn compile_leaves_is_exact() {
    for (name, text) in models() {
        let tree = load(&text);
        let mut kernels = Kernels::new();
        let outer = kernels.compile_leaves(&tree, 4);

        let mut ctx = Context::new();
        let orig = ctx.import(&tree);
        let outer = ctx.import(&outer);
        let ks: Vec<_> = kernels
            .iter()
            .into_iter()
            .map(|(v, t)| (var(v), ctx.import(t)))
            .collect();
        for i in 0..64 {
            let f = |k: u32| {
                ((i * 7919 + k * 104729) % 1000) as f32 / 500.0 - 1.0
            };
            let (x, y, z) = (f(1), f(2), f(3));
            let mut vars: HashMap<Var, f32> =
                [(Var::X, x), (Var::Y, y), (Var::Z, z)].into();
            for (v, n) in &ks {
                vars.insert(*v, ctx.eval(*n, &vars.clone()).unwrap());
            }
            let a = ctx.eval(orig, &vars).unwrap();
            let b = ctx.eval(outer, &vars).unwrap();
            assert!(
                a == b || (a.is_nan() && b.is_nan()),
                "{name}: mismatch at ({x}, {y}, {z}): {a} != {b}"
            );
        }
        if name == "columns" || name == "glyphs" {
            assert!(!kernels.is_empty(), "{name} should have kernels");
        }
    }
}

#[test]
fn every_op_splits_exactly() {
    for min_ops in 0..12 {
        let tree = every_op();
        let mut kernels = Kernels::new();
        let outer = kernels.compile_leaves(&tree, min_ops);
        let mut ctx = Context::new();
        let orig = ctx.import(&tree);
        let outer = ctx.import(&outer);
        let ks: Vec<_> = kernels
            .iter()
            .into_iter()
            .map(|(v, t)| (var(v), ctx.import(t)))
            .collect();
        for i in 0..16 {
            let f = |k: u32| {
                ((i * 7919 + k * 104729) % 1000) as f32 / 500.0 - 1.0
            };
            let mut vars: HashMap<Var, f32> =
                [(Var::X, f(1)), (Var::Y, f(2)), (Var::Z, f(3))].into();
            for (v, n) in &ks {
                vars.insert(*v, ctx.eval(*n, &vars.clone()).unwrap());
            }
            let a = ctx.eval(orig, &vars).unwrap();
            let b = ctx.eval(outer, &vars).unwrap();
            assert!(a == b || (a.is_nan() && b.is_nan()));
        }
    }
}

/// With no part worth a kernel, every operation is rebuilt as it was
#[test]
fn every_operation_is_rebuilt() {
    let (x, y, _) = Tree::axes();
    let trees = vec![
        -x.clone(),
        x.clone().abs(),
        x.clone().recip(),
        x.clone().sqrt(),
        x.clone().square(),
        x.clone().floor(),
        x.clone().ceil(),
        x.clone().round(),
        x.clone().sin(),
        x.clone().cos(),
        x.clone().tan(),
        x.clone().asin(),
        x.clone().acos(),
        x.clone().atan(),
        x.clone().exp(),
        x.clone().ln(),
        x.clone().not(),
        x.clone().rand(),
        x.clone() + y.clone(),
        x.clone() - y.clone(),
        x.clone() * y.clone(),
        x.clone() / y.clone(),
        x.clone().atan2(y.clone()),
        x.clone().min(y.clone()),
        x.clone().max(y.clone()),
        x.clone().compare(y.clone()),
        x.clone().modulo(y.clone()),
        x.clone().and(y.clone()),
        x.clone().or(y.clone()),
        x.clone().mix(y.clone()),
        x.clone() + 1.5,
        y.clone() - x.clone(),
        Tree::from(Var::new()),
        Tree::constant(0.25),
    ];
    for t in trees {
        let mut kernels = Kernels::new();
        let same = kernels.compile_leaves(&t, usize::MAX);
        assert!(kernels.is_empty());
        let mut ctx = Context::new();
        assert_eq!(ctx.import(&t), ctx.import(&same));
    }
}

#[test]
fn kernel_sets_grow() {
    let mut kernels = Kernels::new();
    assert!(kernels.is_empty());
    assert_eq!(kernels.len(), 0);
    assert!(Kernels::default().is_empty());
    let a = kernels.compile(Tree::x());
    let b = kernels.compile(Tree::y().sin());
    assert!(!kernels.is_empty());
    assert_eq!(kernels.len(), 2);
    let copy = kernels.clone();
    assert_eq!(copy.len(), 2);
    let pairs = kernels.iter();
    assert_eq!(pairs.len(), 2);
    assert_ne!(pairs[0].0, pairs[1].0);
    assert!(matches!(pairs[0].0, Variable::V(_)));
    // The trees are those that were handed in, and the placeholders stand for
    // the variables
    let mut ctx = Context::new();
    assert_eq!(ctx.import(pairs[0].1), ctx.import(&Tree::x()));
    assert_eq!(ctx.import(pairs[1].1), ctx.import(&Tree::y().sin()));
    assert_eq!(ctx.import(&a), ctx.var(var(pairs[0].0)));
    assert_eq!(ctx.import(&b), ctx.var(var(pairs[1].0)));
    let shapes = kernels.shapes();
    assert_eq!(shapes.len(), 2);
    assert_eq!(shapes[1].0, pairs[1].0);
    assert!(shapes[1].1.inner().vars().get(&Var::Y).is_some());
    assert!(shapes[1].1.inner().vars().get(&Var::X).is_none());
}

/// Leaves are maximal, large enough, and shared
#[test]
fn leaves_are_shared_and_maximal() {
    let (x, y, z) = Tree::axes();
    // Four operations and variables
    let part = (x.clone() + y.clone()).sin();
    let t = part.clone().min(z.clone()).max(part.clone() * 2.0);
    let mut kernels = Kernels::new();
    let outer = kernels.compile_leaves(&t, 4);
    // `part` and `part * 2`, which is another maximal part
    assert_eq!(kernels.len(), 2);
    let mut ctx = Context::new();
    let pairs = kernels.iter();
    assert_eq!(ctx.import(pairs[0].1), ctx.import(&part));
    assert_eq!(ctx.import(pairs[1].1), ctx.import(&(part.clone() * 2.0)));
    let p = Tree::from(var(pairs[0].0));
    let q = Tree::from(var(pairs[1].0));
    assert_eq!(ctx.import(&outer), ctx.import(&p.min(z.clone()).max(q)));

    // One and the same part is one kernel
    let t = part.clone().min(z.clone()).max(part.clone().min(y.clone()));
    let mut kernels = Kernels::new();
    kernels.compile_leaves(&t, 4);
    assert_eq!(kernels.len(), 1);

    // Too small
    let mut kernels = Kernels::new();
    kernels.compile_leaves(&t, 5);
    assert_eq!(kernels.len(), 0);

    // No choice at all: the whole tree is the kernel
    let mut kernels = Kernels::new();
    let outer = kernels.compile_leaves(&part, 4);
    assert_eq!(kernels.len(), 1);
    let mut ctx = Context::new();
    let v = kernels.iter()[0].0;
    assert_eq!(ctx.import(&outer), ctx.var(var(v)));

    // A constant uses no axis, and a free variable is none
    let mut kernels = Kernels::new();
    let free = Tree::from(Var::new());
    kernels.compile_leaves(&Tree::constant(1.0), 0);
    kernels.compile_leaves(&(free.clone() * free.clone().sin()), 0);
    assert!(kernels.is_empty());
    // ... but what's beside it can be compiled
    kernels.compile_leaves(&(free + part), 4);
    assert_eq!(kernels.len(), 1);
}

#[test]
fn handles_can_be_split_too() {
    let (x, y, _) = Tree::axes();
    let mut ctx = Context::new();
    let t = (x.clone() * y.clone()).cos().min(x.clone());
    let root = ctx.import(&t);
    let mut kernels = Kernels::new();
    let outer = kernels.compile_nodes(&ctx, root, 3);
    assert_eq!(kernels.len(), 1);
    let v = kernels.iter()[0].0;
    let mut other = Context::new();
    let want = Tree::from(var(v)).min(x.clone());
    assert_eq!(other.import(&outer), other.import(&want));
    assert_eq!(
        other.import(kernels.iter()[0].1),
        other.import(&(x * y).cos())
    );
}

#[test]
fn programs_dispatch_by_index() {
    let (x, y, z) = Tree::axes();
    let mut kernels = Kernels::new();
    let a = kernels.compile(x.clone().sin());
    let _unused = kernels.compile(y.clone().cos());
    let b = kernels.compile(z.clone().square());
    let shape = VmShape::from(a.min(b));
    let program = with_kernels(&shape, &kernels).unwrap().unwrap();
    let pairs = kernels.iter();
    let vars = shape.inner().vars();
    let ia = vars.get(&var(pairs[0].0)).unwrap();
    let ib = vars.get(&var(pairs[2].0)).unwrap();
    assert_eq!(program.inputs, vec![ia as u32, ib as u32]);
    assert_eq!(
        program.source,
        format!(
            "fn kernel_0(xyz: array<Value, 3>) -> Value {{
    var stack = Stack();
    let v0 = xyz[0];
    let v1 = op_sin(v0);
    return v1;
}}
fn kernel_2(xyz: array<Value, 3>) -> Value {{
    var stack = Stack();
    let v0 = xyz[2];
    let v1 = op_square(v0);
    return v1;
}}

fn kernel_input(
    index: u32, xyz: array<Value, 3>, out: ptr<function, Value>,
) -> bool {{
    switch index {{
        case {ia}u: {{ *out = kernel_0(xyz); return true; }}
        case {ib}u: {{ *out = kernel_2(xyz); return true; }}
        default: {{ return false; }}
    }}
}}
"
        )
    );
    assert_eq!(kernel_source(Some(&program)), program.source);
    check_stages(&program);
}

#[test]
fn stub_is_the_default_source() {
    assert_eq!(kernel_source(None), KERNEL_STUB);
    assert_eq!(
        KERNEL_STUB,
        "
fn kernel_input(
    index: u32, xyz: array<Value, 3>, out: ptr<function, Value>,
) -> bool {
    return false;
}
"
    );
}

/// The key is the hash that the standard library gives the source
#[test]
fn key_is_the_hash_of_the_source() {
    let program = compiled(&VmShape::from(every_op())).unwrap().unwrap();
    let mut h = std::collections::hash_map::DefaultHasher::new();
    program.source.hash(&mut h);
    assert_eq!(program.key, h.finish());
}

#[test]
fn graphs_tell_their_leaves() {
    // min(sin(x + y), x)
    let graph = Graph {
        ops: vec![
            Operation::Input(Variable::X),
            Operation::Input(Variable::Y),
            Operation::Binary(BinaryOp::Add, 0, 1),
            Operation::Unary(UnaryOp::Sin, 2),
            Operation::Binary(BinaryOp::Min, 3, 0),
        ],
    };
    assert_eq!(graph.leaves(4), vec![false, false, false, true, false]);
    assert_eq!(graph.leaves(1), vec![true, false, false, true, false]);
    assert_eq!(graph.leaves(5), vec![false; 5]);
}

/// Counts the distinct minima, maxima, conjunctions and disjunctions
fn choices(tree: &Tree) -> [usize; 4] {
    let mut ctx = Context::new();
    let mut todo = vec![ctx.import(tree)];
    let mut seen = HashSet::new();
    let mut out = [0; 4];
    while let Some(n) = todo.pop() {
        if !seen.insert(n) {
            continue;
        }
        match ctx.get_op(n).unwrap() {
            Op::Binary(op, a, b) => {
                match op {
                    BinaryOpcode::Min => out[0] += 1,
                    BinaryOpcode::Max => out[1] += 1,
                    BinaryOpcode::And => out[2] += 1,
                    BinaryOpcode::Or => out[3] += 1,
                    _ => (),
                }
                todo.extend([*a, *b]);
            }
            Op::Unary(_, a) => todo.push(*a),
            Op::Input(..) | Op::Const(..) => (),
        }
    }
    out
}

#[test]
fn choices_stay_in_the_outer_tree() {
    let (x, y, z) = Tree::axes();
    let shared = (x.clone() * 2.0).min(y.clone().sin());
    let shared = shared.clone().max(z.clone()) + shared.and(z.or(x));
    let mut trees = vec![shared, every_op()];
    trees.extend(models().iter().map(|(_, text)| load(text)));
    for tree in trees {
        for min_ops in [0, 2, 4, 20] {
            let mut kernels = Kernels::new();
            let outer = kernels.compile_leaves(&tree, min_ops);
            assert_eq!(choices(&outer), choices(&tree));
            for (_, t) in kernels.iter() {
                assert_eq!(choices(t), [0; 4]);
            }
        }
    }
}

#[test]
fn split_trees_build_programs() {
    for (name, text) in models() {
        let mut kernels = Kernels::new();
        let outer = kernels.compile_leaves(&load(&text), 4);
        let program = with_kernels(&VmShape::from(outer), &kernels).unwrap();
        assert_eq!(program.is_none(), kernels.is_empty(), "{name}");
        if let Some(p) = program {
            assert_eq!(p.inputs.len(), kernels.len(), "{name}");
            let distinct: HashSet<u32> = p.inputs.iter().copied().collect();
            assert_eq!(distinct.len(), p.inputs.len(), "{name}");
        }
    }
}

#[test]
fn placeholders_can_be_given() {
    let (x, y, z) = Tree::axes();
    let a = variable(Var::new());
    let b = variable(Var::new());
    let mut kernels = Kernels::new();
    let p = kernels.compile_as(a, x.clone().sin());
    let mut ctx = Context::new();
    assert_eq!(ctx.import(&p), ctx.var(var(a)));
    assert_eq!(kernels.iter()[0].0, a);
    assert_eq!(ctx.import(kernels.iter()[0].1), ctx.import(&x.clone().sin()));

    let first = ctx.import(&(x.clone() * 3.0));
    let second = ctx.import(&(y.clone() - z.clone()).abs());
    let root = ctx.min(first, second).unwrap();
    assert_eq!(count_leaves(&ctx, root, 2), 2);
    assert_eq!(count_leaves(&ctx, root, 20), 0);
    let mut kernels = Kernels::new();
    let outer = kernels.split_nodes(&ctx, root, 2, &[a, b]);
    let pairs = kernels.iter();
    assert_eq!((pairs[0].0, pairs[1].0), (a, b));
    assert_eq!(ctx.import(pairs[0].1), ctx.import(&(x * 3.0)));
    assert_eq!(ctx.import(pairs[1].1), ctx.import(&(y - z).abs()));
    let want = Tree::from(var(a)).min(Tree::from(var(b)));
    assert_eq!(ctx.import(&outer), ctx.import(&want));
}

/// The program depends on content, not on the variables that were drawn
#[test]
fn programs_depend_on_content() {
    let build = || {
        let mut kernels = Kernels::new();
        let a = kernels.compile(Tree::x().sin());
        let b = kernels.compile(Tree::y().cos());
        with_kernels(&VmShape::from(a.min(b)), &kernels)
            .unwrap()
            .unwrap()
    };
    let (p, q) = (build(), build());
    assert_eq!(p.source, q.source);
    assert_eq!(p.inputs, q.inputs);
    assert_eq!(p.key, q.key);
}

/// Kernels that aren't used change nothing, even ones that can't be compiled
#[test]
fn unused_kernels_at_the_end_change_nothing() {
    let mut kernels = Kernels::new();
    let a = kernels.compile(Tree::x().sin());
    let shape = VmShape::from(a.min(Tree::y()));
    let p = with_kernels(&shape, &kernels).unwrap().unwrap();
    let _unused = kernels.compile(Tree::from(Var::new()) + Tree::x());
    let q = with_kernels(&shape, &kernels).unwrap().unwrap();
    assert_eq!(p.source, q.source);
    assert_eq!(p.inputs, q.inputs);
    assert_eq!(p.key, q.key);
}

#[test]
fn sources_share_one_signature() {
    let signature = "fn kernel_input(
    index: u32, xyz: array<Value, 3>, out: ptr<function, Value>,
) -> bool {";
    let program = compiled(&VmShape::from(every_op())).unwrap().unwrap();
    for source in [kernel_source(None), kernel_source(Some(&program))] {
        assert_eq!(source.matches(signature).count(), 1);
        assert_eq!(source.matches("kernel_input").count(), 1);
    }
}

/// A placeholder that is given twice stands for both kernels
#[test]
fn placeholders_need_not_be_new() {
    let (x, y, _) = Tree::axes();
    let a = variable(Var::new());
    let mut ctx = Context::new();
    let first = ctx.import(&(x.clone() * 3.0));
    let second = ctx.import(&y.clone().sin());
    let sum = ctx.min(first, second).unwrap();
    let mut kernels = Kernels::new();
    let outer = kernels.split_nodes(&ctx, sum, 2, &[a, a]);
    assert_eq!(kernels.len(), 2);
    // The minimum of one value is that value
    assert_eq!(ctx.import(&outer), ctx.var(var(a)));
}
