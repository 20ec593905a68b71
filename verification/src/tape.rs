//! Bytecode tapes: what running one means, and lowering one to straight-line
//! code.

use crate::error::KernelError;
use crate::opcode::{opcode_of_code, BinaryOp, Opcode, UnaryOp};
use std::collections::HashMap;
use vstd::prelude::*;

verus! {

broadcast use vstd::std_specs::hash::group_hash_axioms;

/// One operation of a tape, unpacked from its two words.
#[derive(Clone, Copy, Debug)]
pub struct Instruction {
    /// Number of the operation
    pub opcode: u8,
    /// Output register
    pub dst: u8,
    /// First input register
    pub lhs: u8,
    /// Second input register
    pub rhs: u8,
    /// Second word: an immediate, an input, a memory slot or a jump target
    pub imm: u32,
}

impl Instruction {
    /// The operation in a pair of words, the lowest byte first.
    pub open spec fn of(word: u32, imm: u32) -> Instruction {
        Instruction {
            opcode: (word % 0x100) as u8,
            dst: (word / 0x100 % 0x100) as u8,
            lhs: (word / 0x1_0000 % 0x100) as u8,
            rhs: (word / 0x100_0000) as u8,
            imm,
        }
    }

    /// Unpacks a pair of words.
    pub fn unpack(word: u32, imm: u32) -> (ins: Instruction)
        ensures
            ins == Instruction::of(word, imm),
    {
        Instruction {
            opcode: (word % 0x100) as u8,
            dst: (word / 0x100 % 0x100) as u8,
            lhs: (word / 0x1_0000 % 0x100) as u8,
            rhs: (word / 0x100_0000) as u8,
            imm,
        }
    }
}

/// The axis that the input `index` stands for: the first one listed with it.
pub open spec fn axis_of(axes: Seq<(u32, u32)>, index: u32) -> Option<u32>
    decreases axes.len(),
{
    if axes.len() == 0 {
        None
    } else if axes[0].0 == index {
        Some(axes[0].1)
    } else {
        axis_of(axes.drop_first(), index)
    }
}

// ---------------------------------------------------------------------------
// Running a tape
// ---------------------------------------------------------------------------

/// A kind of value that expressions can be evaluated in (floats, intervals,
/// gradients), at some point.
#[verifier::reject_recursive_types(V)]
pub struct Semantics<V> {
    /// The value of an immediate, given by its bits
    pub immediate: spec_fn(u32) -> V,
    /// The value of an axis
    pub axis: spec_fn(u32) -> V,
    /// The one-argument operations
    pub unary: spec_fn(UnaryOp, V) -> V,
    /// The two-argument operations
    pub binary: spec_fn(BinaryOp, V, V) -> V,
}

/// What a running tape holds.
pub struct Registers<V> {
    /// The 256 registers, `None` where nothing was written yet
    pub regs: Seq<Option<V>>,
    /// The memory slots that were written
    pub mem: Map<u32, V>,
    /// The last value handed out
    pub output: Option<V>,
}

/// Nothing written yet.
pub open spec fn no_registers<V>() -> Registers<V> {
    Registers { regs: Seq::new(256, |r: int| None), mem: Map::empty(), output: None }
}

/// The value of an input register byte, where 255 is the immediate.
pub open spec fn fetch<V>(sem: Semantics<V>, st: Registers<V>, r: u8, imm: u32) -> Result<
    V,
    KernelError,
> {
    if r == 0xFF {
        Ok((sem.immediate)(imm))
    } else {
        match st.regs[r as int] {
            Some(v) => Ok(v),
            None => Err(KernelError::Malformed("read of unset register")),
        }
    }
}

/// `st` with a register written.
pub open spec fn write<V>(st: Registers<V>, dst: u8, v: V) -> Registers<V> {
    Registers { regs: st.regs.update(dst as int, Some(v)), ..st }
}

/// Runs one operation.
pub open spec fn execute<V>(
    sem: Semantics<V>,
    axes: Seq<(u32, u32)>,
    st: Registers<V>,
    ins: Instruction,
) -> Result<Registers<V>, KernelError> {
    match opcode_of_code(ins.opcode) {
        None => Err(KernelError::UnknownOpcode(ins.opcode)),
        Some(Opcode::Output) => match fetch(sem, st, ins.dst, ins.imm) {
            Err(e) => Err(e),
            Ok(v) => Ok(Registers { output: Some(v), ..st }),
        },
        Some(Opcode::Mem) => if ins.dst == 0xFF {
            match fetch(sem, st, ins.lhs, ins.imm) {
                Err(e) => Err(e),
                Ok(v) => Ok(Registers { mem: st.mem.insert(ins.imm, v), ..st }),
            }
        } else if st.mem.contains_key(ins.imm) {
            Ok(write(st, ins.dst, st.mem[ins.imm]))
        } else {
            Err(KernelError::Malformed("load of unset slot"))
        },
        Some(Opcode::Copy) => match fetch(sem, st, ins.lhs, ins.imm) {
            Err(e) => Err(e),
            Ok(v) => Ok(write(st, ins.dst, v)),
        },
        Some(Opcode::Input) => match axis_of(axes, ins.imm) {
            None => Err(KernelError::Malformed("unknown input")),
            Some(a) => Ok(write(st, ins.dst, (sem.axis)(a))),
        },
        Some(Opcode::Unary(op)) => match fetch(sem, st, ins.lhs, ins.imm) {
            Err(e) => Err(e),
            Ok(v) => Ok(write(st, ins.dst, (sem.unary)(op, v))),
        },
        Some(Opcode::Binary(op)) => match fetch(sem, st, ins.lhs, ins.imm) {
            Err(e) => Err(e),
            Ok(a) => match fetch(sem, st, ins.rhs, ins.imm) {
                Err(e) => Err(e),
                Ok(b) => Ok(write(st, ins.dst, (sem.binary)(op, a, b))),
            },
        },
    }
}

/// Runs the tape from the word `i` on.  The operation 255 is a marker: with 0
/// it is the start, and with the largest number the end.
pub open spec fn run_from<V>(
    sem: Semantics<V>,
    axes: Seq<(u32, u32)>,
    words: Seq<u32>,
    i: int,
    st: Registers<V>,
) -> Result<Registers<V>, KernelError>
    decreases words.len() - i,
{
    if i + 1 >= words.len() {
        Ok(st)
    } else {
        let ins = Instruction::of(words[i], words[i + 1]);
        if ins.opcode == 0xFF {
            if ins.imm == 0 {
                run_from(sem, axes, words, i + 2, st)
            } else if ins.imm == u32::MAX {
                Ok(st)
            } else {
                Err(KernelError::Malformed("unexpected jump"))
            }
        } else {
            match execute(sem, axes, st, ins) {
                Err(e) => Err(e),
                Ok(next) => run_from(sem, axes, words, i + 2, next),
            }
        }
    }
}

/// The value that a tape hands out, interpreted operation by operation.
pub open spec fn interpret<V>(
    sem: Semantics<V>,
    axes: Seq<(u32, u32)>,
    words: Seq<u32>,
) -> Result<V, KernelError> {
    if words.len() % 2 != 0 {
        Err(KernelError::Malformed("odd number of words"))
    } else {
        match run_from(sem, axes, words, 0, no_registers()) {
            Err(e) => Err(e),
            Ok(st) => match st.output {
                Some(v) => Ok(v),
                None => Err(KernelError::Malformed("no output")),
            },
        }
    }
}

// ---------------------------------------------------------------------------
// Straight-line code
// ---------------------------------------------------------------------------

/// An argument of an operation in straight-line code.
#[derive(Clone, Copy, Debug, PartialEq, Eq, Structural)]
pub enum Operand {
    /// A constant, given by its bits
    Immediate(u32),
    /// The value of an earlier binding
    Value(usize),
}

/// The right-hand side of a binding in straight-line code.
#[derive(Clone, Copy, Debug, PartialEq, Eq, Structural)]
pub enum Binding {
    /// A constant, given by its bits
    Immediate(u32),
    /// An axis
    Axis(u32),
    /// A one-argument operation
    Unary(UnaryOp, Operand),
    /// A two-argument operation
    Binary(BinaryOp, Operand, Operand),
}

/// Straight-line code: every operation binds its value once.
#[derive(Debug)]
pub struct Function {
    /// The bindings, in order
    pub bindings: Vec<Binding>,
    /// What is returned
    pub output: Operand,
}

/// The bindings of straight-line code, and what it returns.
pub struct Code {
    /// The bindings, in order
    pub bindings: Seq<Binding>,
    /// What is returned
    pub output: Operand,
}

impl View for Function {
    type V = Code;

    open spec fn view(&self) -> Code {
        Code { bindings: self.bindings@, output: self.output }
    }
}

/// The value of an argument, given the values of the earlier bindings.
pub open spec fn operand_value<V>(sem: Semantics<V>, values: Seq<V>, a: Operand) -> V {
    match a {
        Operand::Immediate(bits) => (sem.immediate)(bits),
        Operand::Value(i) => values[i as int],
    }
}

/// The value of a binding, given the values of the earlier ones.
pub open spec fn binding_value<V>(sem: Semantics<V>, values: Seq<V>, b: Binding) -> V {
    match b {
        Binding::Immediate(bits) => (sem.immediate)(bits),
        Binding::Axis(a) => (sem.axis)(a),
        Binding::Unary(op, a) => (sem.unary)(op, operand_value(sem, values, a)),
        Binding::Binary(op, a, b) => (sem.binary)(
            op,
            operand_value(sem, values, a),
            operand_value(sem, values, b),
        ),
    }
}

/// The values of the bindings, in order.
pub open spec fn binding_values<V>(sem: Semantics<V>, bindings: Seq<Binding>) -> Seq<V>
    decreases bindings.len(),
{
    if bindings.len() == 0 {
        Seq::empty()
    } else {
        let values = binding_values(sem, bindings.drop_last());
        values.push(binding_value(sem, values, bindings.last()))
    }
}

/// The value that straight-line code returns.
pub open spec fn evaluate<V>(sem: Semantics<V>, code: Code) -> V {
    operand_value(sem, binding_values(sem, code.bindings), code.output)
}

/// The argument refers only to the first `n` bindings.
pub open spec fn operand_below(a: Operand, n: int) -> bool {
    a matches Operand::Value(i) ==> i < n
}

/// The binding refers only to the first `n` bindings.
pub open spec fn binding_below(b: Binding, n: int) -> bool {
    match b {
        Binding::Immediate(_) => true,
        Binding::Axis(_) => true,
        Binding::Unary(_, a) => operand_below(a, n),
        Binding::Binary(_, a, b) => operand_below(a, n) && operand_below(b, n),
    }
}

/// Every binding refers to earlier ones only.
pub open spec fn well_scoped(code: Code) -> bool {
    &&& forall|k: int| #![auto] 0 <= k < code.bindings.len() ==> binding_below(code.bindings[k], k)
    &&& operand_below(code.output, code.bindings.len() as int)
}

// ---------------------------------------------------------------------------
// Lowering
// ---------------------------------------------------------------------------

/// How far lowering has come: where each value is held, and the code so far.
pub struct Lowering {
    /// What each of the 256 registers holds
    pub regs: Seq<Option<Operand>>,
    /// What the memory slots hold
    pub mem: Map<u32, Operand>,
    /// The last value handed out
    pub output: Option<Operand>,
    /// The code so far
    pub bindings: Seq<Binding>,
}

/// Nothing lowered yet.
pub open spec fn no_code() -> Lowering {
    Lowering {
        regs: Seq::new(256, |r: int| None),
        mem: Map::empty(),
        output: None,
        bindings: Seq::empty(),
    }
}

/// What an input register byte holds, where 255 is the immediate.
pub open spec fn held(st: Lowering, r: u8, imm: u32) -> Result<Operand, KernelError> {
    if r == 0xFF {
        Ok(Operand::Immediate(imm))
    } else {
        match st.regs[r as int] {
            Some(a) => Ok(a),
            None => Err(KernelError::Malformed("read of unset register")),
        }
    }
}

/// `st` with the register `dst` holding `a`.
pub open spec fn hold(st: Lowering, dst: u8, a: Operand) -> Lowering {
    Lowering { regs: st.regs.update(dst as int, Some(a)), ..st }
}

/// `st` with a new binding, which the register `dst` holds.
pub open spec fn bind(st: Lowering, dst: u8, b: Binding) -> Lowering {
    Lowering {
        bindings: st.bindings.push(b),
        ..hold(st, dst, Operand::Value(st.bindings.len() as usize))
    }
}

/// Lowers one operation: math is bound, a copy of a register and a move to or
/// from memory only change where values are held.
pub open spec fn lower_step(axes: Seq<(u32, u32)>, st: Lowering, ins: Instruction) -> Result<
    Lowering,
    KernelError,
> {
    match opcode_of_code(ins.opcode) {
        None => Err(KernelError::UnknownOpcode(ins.opcode)),
        Some(Opcode::Output) => match held(st, ins.dst, ins.imm) {
            Err(e) => Err(e),
            Ok(a) => Ok(Lowering { output: Some(a), ..st }),
        },
        Some(Opcode::Mem) => if ins.dst == 0xFF {
            match held(st, ins.lhs, ins.imm) {
                Err(e) => Err(e),
                Ok(a) => Ok(Lowering { mem: st.mem.insert(ins.imm, a), ..st }),
            }
        } else if st.mem.contains_key(ins.imm) {
            Ok(hold(st, ins.dst, st.mem[ins.imm]))
        } else {
            Err(KernelError::Malformed("load of unset slot"))
        },
        Some(Opcode::Copy) => if ins.lhs == 0xFF {
            Ok(bind(st, ins.dst, Binding::Immediate(ins.imm)))
        } else {
            match held(st, ins.lhs, ins.imm) {
                Err(e) => Err(e),
                Ok(a) => Ok(hold(st, ins.dst, a)),
            }
        },
        Some(Opcode::Input) => match axis_of(axes, ins.imm) {
            None => Err(KernelError::Malformed("unknown input")),
            Some(a) => Ok(bind(st, ins.dst, Binding::Axis(a))),
        },
        Some(Opcode::Unary(op)) => match held(st, ins.lhs, ins.imm) {
            Err(e) => Err(e),
            Ok(a) => Ok(bind(st, ins.dst, Binding::Unary(op, a))),
        },
        Some(Opcode::Binary(op)) => match held(st, ins.lhs, ins.imm) {
            Err(e) => Err(e),
            Ok(a) => match held(st, ins.rhs, ins.imm) {
                Err(e) => Err(e),
                Ok(b) => Ok(bind(st, ins.dst, Binding::Binary(op, a, b))),
            },
        },
    }
}

/// Lowers the tape from the word `i` on.
pub open spec fn lower_from(
    axes: Seq<(u32, u32)>,
    words: Seq<u32>,
    i: int,
    st: Lowering,
) -> Result<Lowering, KernelError>
    decreases words.len() - i,
{
    if i + 1 >= words.len() {
        Ok(st)
    } else {
        let ins = Instruction::of(words[i], words[i + 1]);
        if ins.opcode == 0xFF {
            if ins.imm == 0 {
                lower_from(axes, words, i + 2, st)
            } else if ins.imm == u32::MAX {
                Ok(st)
            } else {
                Err(KernelError::Malformed("unexpected jump"))
            }
        } else {
            match lower_step(axes, st, ins) {
                Err(e) => Err(e),
                Ok(next) => lower_from(axes, words, i + 2, next),
            }
        }
    }
}

/// The straight-line code of a tape.
pub open spec fn lowered(axes: Seq<(u32, u32)>, words: Seq<u32>) -> Result<Code, KernelError> {
    if words.len() % 2 != 0 {
        Err(KernelError::Malformed("odd number of words"))
    } else {
        match lower_from(axes, words, 0, no_code()) {
            Err(e) => Err(e),
            Ok(st) => match st.output {
                Some(a) => Ok(Code { bindings: st.bindings, output: a }),
                None => Err(KernelError::Malformed("no output")),
            },
        }
    }
}

/// Finds the axis that the input `index` stands for.
fn find_axis(axes: &[(u32, u32)], index: u32) -> (axis: Option<u32>)
    ensures
        axis == axis_of(axes@, index),
{
    let mut i: usize = 0;
    assert(axes@.skip(0) == axes@);
    while i < axes.len()
        invariant
            i <= axes@.len(),
            axis_of(axes@, index) == axis_of(axes@.skip(i as int), index),
        decreases axes@.len() - i,
    {
        if axes[i].0 == index {
            return Some(axes[i].1);
        }
        assert(axes@.skip(i as int).drop_first() == axes@.skip(i + 1));
        i += 1;
    }
    None
}

/// A lowering under way.
struct Lowerer {
    regs: Vec<Option<Operand>>,
    mem: HashMap<u32, Operand>,
    output: Option<Operand>,
    bindings: Vec<Binding>,
}

impl View for Lowerer {
    type V = Lowering;

    closed spec fn view(&self) -> Lowering {
        Lowering {
            regs: self.regs@,
            mem: self.mem@,
            output: self.output,
            bindings: self.bindings@,
        }
    }
}

impl Lowerer {
    fn new() -> (st: Lowerer)
        ensures
            st@ == no_code(),
    {
        let mut regs: Vec<Option<Operand>> = Vec::new();
        while regs.len() < 256
            invariant
                regs@.len() <= 256,
                forall|r: int| 0 <= r < regs@.len() ==> regs@[r] is None,
            decreases 256 - regs@.len(),
        {
            regs.push(None);
        }
        let st = Lowerer { regs, mem: HashMap::new(), output: None, bindings: Vec::new() };
        assert(st@.regs =~= no_code().regs);
        assert(st@.mem =~= no_code().mem);
        assert(st@.bindings =~= no_code().bindings);
        st
    }

    fn held(&self, r: u8, imm: u32) -> (a: Result<Operand, KernelError>)
        requires
            self@.regs.len() == 256,
        ensures
            a == held(self@, r, imm),
    {
        if r == 0xFF {
            Ok(Operand::Immediate(imm))
        } else {
            match self.regs[r as usize] {
                Some(a) => Ok(a),
                None => Err(KernelError::Malformed("read of unset register")),
            }
        }
    }

    fn hold(&mut self, dst: u8, a: Operand)
        requires
            old(self)@.regs.len() == 256,
        ensures
            final(self)@ == hold(old(self)@, dst, a),
    {
        self.regs.set(dst as usize, Some(a));
    }

    fn bind(&mut self, dst: u8, b: Binding)
        requires
            old(self)@.regs.len() == 256,
        ensures
            final(self)@ == bind(old(self)@, dst, b),
    {
        self.hold(dst, Operand::Value(self.bindings.len()));
        self.bindings.push(b);
    }

    fn step(&mut self, axes: &[(u32, u32)], ins: Instruction) -> (done: Result<(), KernelError>)
        requires
            old(self)@.regs.len() == 256,
        ensures
            match lower_step(axes@, old(self)@, ins) {
                Ok(next) => done is Ok && final(self)@ == next,
                Err(e) => done == Err::<(), KernelError>(e),
            },
    {
        let op = match Opcode::from_repr(ins.opcode) {
            Some(op) => op,
            None => return Err(KernelError::UnknownOpcode(ins.opcode)),
        };
        match op {
            Opcode::Output => {
                self.output = Some(self.held(ins.dst, ins.imm)?);
            },
            Opcode::Mem => {
                if ins.dst == 0xFF {
                    let a = self.held(ins.lhs, ins.imm)?;
                    self.mem.insert(ins.imm, a);
                } else {
                    let a = match self.mem.get(&ins.imm) {
                        Some(a) => *a,
                        None => return Err(KernelError::Malformed("load of unset slot")),
                    };
                    self.hold(ins.dst, a);
                }
            },
            Opcode::Copy => {
                // Register copies just rename the value; immediates get a
                // binding, so that the constant is only built once
                if ins.lhs == 0xFF {
                    self.bind(ins.dst, Binding::Immediate(ins.imm));
                } else {
                    let a = self.held(ins.lhs, ins.imm)?;
                    self.hold(ins.dst, a);
                }
            },
            Opcode::Input => {
                let a = match find_axis(axes, ins.imm) {
                    Some(a) => a,
                    None => return Err(KernelError::Malformed("unknown input")),
                };
                self.bind(ins.dst, Binding::Axis(a));
            },
            Opcode::Unary(op) => {
                let a = self.held(ins.lhs, ins.imm)?;
                self.bind(ins.dst, Binding::Unary(op, a));
            },
            Opcode::Binary(op) => {
                let a = self.held(ins.lhs, ins.imm)?;
                let b = self.held(ins.rhs, ins.imm)?;
                self.bind(ins.dst, Binding::Binary(op, a, b));
            },
        }
        Ok(())
    }
}

/// Lowers a tape to straight-line code.
///
/// `axes` lists the axis that each input stands for.  Register spills (moves to
/// and from memory) are resolved here, so none is left in the code.
pub fn lower(words: &[u32], axes: &[(u32, u32)]) -> (code: Result<Function, KernelError>)
    ensures
        match lowered(axes@, words@) {
            Ok(c) => code matches Ok(f) && f@ == c,
            Err(e) => code == Err::<Function, KernelError>(e),
        },
{
    if words.len() % 2 != 0 {
        return Err(KernelError::Malformed("odd number of words"));
    }
    let mut st = Lowerer::new();
    let mut i: usize = 0;
    while i < words.len()
        invariant_except_break
            i <= words@.len(),
            lower_from(axes@, words@, 0, no_code()) == lower_from(axes@, words@, i as int, st@),
        invariant
            words@.len() % 2 == 0,
            i % 2 == 0,
            st@.regs.len() == 256,
        ensures
            lower_from(axes@, words@, 0, no_code()) == Ok::<Lowering, KernelError>(st@),
        decreases words@.len() - i,
    {
        let ins = Instruction::unpack(words[i], words[i + 1]);
        if ins.opcode == 0xFF {
            // Jumps: only the start and end markers are expected
            if ins.imm == u32::MAX {
                break;
            }
            if ins.imm != 0 {
                return Err(KernelError::Malformed("unexpected jump"));
            }
        } else {
            st.step(axes, ins)?;
        }
        i += 2;
    }
    match st.output {
        Some(a) => Ok(Function { bindings: st.bindings, output: a }),
        None => Err(KernelError::Malformed("no output")),
    }
}

// ---------------------------------------------------------------------------
// Compiled and interpreted evaluation agree
// ---------------------------------------------------------------------------

/// What the running tape holds where lowering has come to `st`.
spec fn running<V>(sem: Semantics<V>, st: Lowering) -> Registers<V> {
    let values = binding_values(sem, st.bindings);
    Registers {
        regs: Seq::new(
            st.regs.len(),
            |r: int|
                match st.regs[r] {
                    Some(a) => Some(operand_value(sem, values, a)),
                    None => None,
                },
        ),
        mem: st.mem.map_values(|a: Operand| operand_value(sem, values, a)),
        output: match st.output {
            Some(a) => Some(operand_value(sem, values, a)),
            None => None,
        },
    }
}

/// Whatever is held in `st` was bound before.
spec fn in_scope(st: Lowering) -> bool {
    let n = st.bindings.len() as int;
    &&& st.regs.len() == 256
    &&& forall|r: int|
        0 <= r < 256 ==> (#[trigger] st.regs[r] matches Some(a) ==> operand_below(a, n))
    &&& forall|slot: u32| #[trigger]
        st.mem.contains_key(slot) ==> operand_below(st.mem[slot], n)
    &&& st.output matches Some(a) ==> operand_below(a, n)
    &&& forall|k: int| #![auto] 0 <= k < n ==> binding_below(st.bindings[k], k)
}

proof fn values_length<V>(sem: Semantics<V>, bindings: Seq<Binding>)
    ensures
        binding_values(sem, bindings).len() == bindings.len(),
    decreases bindings.len(),
{
    if bindings.len() > 0 {
        values_length(sem, bindings.drop_last());
    }
}

/// What a register holds is what the running tape fetches.
proof fn held_is_fetched<V>(sem: Semantics<V>, st: Lowering, r: u8, imm: u32)
    requires
        in_scope(st),
    ensures
        match held(st, r, imm) {
            Ok(a) => {
                &&& operand_below(a, st.bindings.len() as int)
                &&& fetch(sem, running(sem, st), r, imm) == Ok::<V, KernelError>(
                    operand_value(sem, binding_values(sem, st.bindings), a),
                )
            },
            Err(e) => fetch(sem, running(sem, st), r, imm) == Err::<V, KernelError>(e),
        },
{
}

/// A new binding leaves what was held before as it was.
proof fn binding_is_a_write<V>(sem: Semantics<V>, st: Lowering, dst: u8, b: Binding)
    requires
        in_scope(st),
        binding_below(b, st.bindings.len() as int),
        st.bindings.len() < usize::MAX,
    ensures
        in_scope(bind(st, dst, b)),
        running(sem, bind(st, dst, b)) == write(
            running(sem, st),
            dst,
            binding_value(sem, binding_values(sem, st.bindings), b),
        ),
{
    let next = bind(st, dst, b);
    let values = binding_values(sem, st.bindings);
    let v = binding_value(sem, values, b);
    values_length(sem, st.bindings);
    assert(next.bindings.drop_last() == st.bindings);
    assert(binding_values(sem, next.bindings) == values.push(v));
    let expected = write(running(sem, st), dst, v);
    assert(running(sem, next).regs =~= expected.regs);
    assert(running(sem, next).mem =~= expected.mem);
    assert(running(sem, next).output == expected.output);
}

/// Lowering one operation keeps step with running it.
proof fn lowering_keeps_step<V>(
    sem: Semantics<V>,
    axes: Seq<(u32, u32)>,
    st: Lowering,
    ins: Instruction,
)
    requires
        in_scope(st),
        st.bindings.len() < usize::MAX,
    ensures
        match lower_step(axes, st, ins) {
            Ok(next) => {
                &&& in_scope(next)
                &&& next.bindings.len() <= st.bindings.len() + 1
                &&& execute(sem, axes, running(sem, st), ins) == Ok::<Registers<V>, KernelError>(
                    running(sem, next),
                )
            },
            Err(e) => execute(sem, axes, running(sem, st), ins) == Err::<Registers<V>, KernelError>(
                e,
            ),
        },
{
    let values = binding_values(sem, st.bindings);
    let now = running(sem, st);
    held_is_fetched(sem, st, ins.dst, ins.imm);
    held_is_fetched(sem, st, ins.lhs, ins.imm);
    held_is_fetched(sem, st, ins.rhs, ins.imm);
    match opcode_of_code(ins.opcode) {
        None => {},
        Some(Opcode::Output) => {
            if let Ok(a) = held(st, ins.dst, ins.imm) {
                let next = Lowering { output: Some(a), ..st };
                assert(running(sem, next) == Registers {
                    output: Some(operand_value(sem, values, a)),
                    ..now
                });
            }
        },
        Some(Opcode::Mem) => {
            if ins.dst == 0xFF {
                if let Ok(a) = held(st, ins.lhs, ins.imm) {
                    let next = Lowering { mem: st.mem.insert(ins.imm, a), ..st };
                    assert(running(sem, next).mem =~= now.mem.insert(
                        ins.imm,
                        operand_value(sem, values, a),
                    ));
                }
            } else if st.mem.contains_key(ins.imm) {
                let next = hold(st, ins.dst, st.mem[ins.imm]);
                assert(running(sem, next).regs =~= write(now, ins.dst, now.mem[ins.imm]).regs);
            }
        },
        Some(Opcode::Copy) => {
            if ins.lhs == 0xFF {
                binding_is_a_write(sem, st, ins.dst, Binding::Immediate(ins.imm));
            } else if let Ok(a) = held(st, ins.lhs, ins.imm) {
                let next = hold(st, ins.dst, a);
                assert(running(sem, next).regs =~= write(
                    now,
                    ins.dst,
                    operand_value(sem, values, a),
                ).regs);
            }
        },
        Some(Opcode::Input) => {
            if let Some(a) = axis_of(axes, ins.imm) {
                binding_is_a_write(sem, st, ins.dst, Binding::Axis(a));
            }
        },
        Some(Opcode::Unary(op)) => {
            if let Ok(a) = held(st, ins.lhs, ins.imm) {
                binding_is_a_write(sem, st, ins.dst, Binding::Unary(op, a));
            }
        },
        Some(Opcode::Binary(op)) => {
            if let Ok(a) = held(st, ins.lhs, ins.imm) {
                if let Ok(b) = held(st, ins.rhs, ins.imm) {
                    binding_is_a_write(sem, st, ins.dst, Binding::Binary(op, a, b));
                }
            }
        },
    }
}

/// Lowering the rest of a tape keeps step with running it.
proof fn lowering_keeps_pace<V>(
    sem: Semantics<V>,
    axes: Seq<(u32, u32)>,
    words: Seq<u32>,
    i: int,
    st: Lowering,
)
    requires
        0 <= i <= words.len() <= usize::MAX,
        in_scope(st),
        st.bindings.len() * 2 <= i,
    ensures
        match lower_from(axes, words, i, st) {
            Ok(last) => {
                &&& in_scope(last)
                &&& last.bindings.len() * 2 <= words.len()
                &&& run_from(sem, axes, words, i, running(sem, st)) == Ok::<
                    Registers<V>,
                    KernelError,
                >(running(sem, last))
            },
            Err(e) => run_from(sem, axes, words, i, running(sem, st)) == Err::<
                Registers<V>,
                KernelError,
            >(e),
        },
    decreases words.len() - i,
{
    if i + 1 < words.len() {
        let ins = Instruction::of(words[i], words[i + 1]);
        if ins.opcode == 0xFF {
            if ins.imm == 0 {
                lowering_keeps_pace(sem, axes, words, i + 2, st);
            }
        } else {
            lowering_keeps_step(sem, axes, st, ins);
            if let Ok(next) = lower_step(axes, st, ins) {
                lowering_keeps_pace(sem, axes, words, i + 2, next);
            }
        }
    }
}

/// Compiled and interpreted evaluation agree: in every kind of value, and at
/// every point, the straight-line code of a tape returns what interpreting the
/// tape hands out, and a tape that has no code fails to run with the same
/// error.
pub proof fn compiled_and_interpreted_agree<V>(
    sem: Semantics<V>,
    axes: Seq<(u32, u32)>,
    words: Seq<u32>,
)
    requires
        words.len() <= usize::MAX,
    ensures
        interpret(sem, axes, words) == match lowered(axes, words) {
            Ok(code) => Ok::<V, KernelError>(evaluate(sem, code)),
            Err(e) => Err(e),
        },
{
    if words.len() % 2 == 0 {
        assert(running(sem, no_code()) == no_registers::<V>()) by {
            assert(running(sem, no_code()).regs =~= no_registers::<V>().regs);
            assert(running(sem, no_code()).mem =~= no_registers::<V>().mem);
        }
        lowering_keeps_pace(sem, axes, words, 0, no_code());
    }
}

/// The code of a tape is straight-line: every binding, and what is returned,
/// refers to earlier bindings only, and an operation has at most one binding.
pub proof fn lowered_code_is_straight_line(axes: Seq<(u32, u32)>, words: Seq<u32>)
    requires
        words.len() <= usize::MAX,
    ensures
        lowered(axes, words) matches Ok(code) ==> well_scoped(code) && code.bindings.len() * 2
            <= words.len(),
{
    if words.len() % 2 == 0 {
        let sem = Semantics::<int> {
            immediate: |bits: u32| 0,
            axis: |a: u32| 0,
            unary: |op: UnaryOp, a: int| 0,
            binary: |op: BinaryOp, a: int, b: int| 0,
        };
        lowering_keeps_pace(sem, axes, words, 0, no_code());
    }
}

// ---------------------------------------------------------------------------
// Markers
// ---------------------------------------------------------------------------

/// The end marker stands at the word `i`.
pub open spec fn ends_at(words: Seq<u32>, i: int) -> bool {
    &&& 0 <= i
    &&& i % 2 == 0
    &&& i + 1 < words.len()
    &&& Instruction::of(words[i], words[i + 1]).opcode == 0xFF
    &&& words[i + 1] == u32::MAX
}

/// `words` with a start marker put in before the word `i`, with `marker` as its
/// first word.
pub open spec fn with_marker(words: Seq<u32>, i: int, marker: u32) -> Seq<u32> {
    words.take(i) + seq![marker, 0u32] + words.skip(i)
}

/// Up to the end marker, the words behind it have no effect.
proof fn lowering_stops_at_the_end(
    axes: Seq<(u32, u32)>,
    words: Seq<u32>,
    more: Seq<u32>,
    i: int,
    j: int,
    st: Lowering,
)
    requires
        ends_at(words, i),
        0 <= j <= i,
        j % 2 == 0,
    ensures
        lower_from(axes, words + more, j, st) == lower_from(axes, words, j, st),
    decreases i - j,
{
    let ins = Instruction::of(words[j], words[j + 1]);
    assert((words + more)[j] == words[j] && (words + more)[j + 1] == words[j + 1]);
    if j < i {
        if ins.opcode == 0xFF {
            if ins.imm == 0 {
                lowering_stops_at_the_end(axes, words, more, i, j + 2, st);
            }
        } else if let Ok(next) = lower_step(axes, st, ins) {
            lowering_stops_at_the_end(axes, words, more, i, j + 2, next);
        }
    }
}

/// What follows a marker that was put in is lowered as before.
proof fn lowering_resumes(
    axes: Seq<(u32, u32)>,
    words: Seq<u32>,
    i: int,
    marker: u32,
    j: int,
    st: Lowering,
)
    requires
        0 <= i <= j <= words.len(),
    ensures
        lower_from(axes, with_marker(words, i, marker), j + 2, st) == lower_from(
            axes,
            words,
            j,
            st,
        ),
    decreases words.len() - j,
{
    let longer = with_marker(words, i, marker);
    assert(longer.len() == words.len() + 2);
    if j + 1 < words.len() {
        assert(longer[j + 2] == words[j] && longer[j + 3] == words[j + 1]);
        let ins = Instruction::of(words[j], words[j + 1]);
        if ins.opcode == 0xFF {
            if ins.imm == 0 {
                lowering_resumes(axes, words, i, marker, j + 2, st);
            }
        } else if let Ok(next) = lower_step(axes, st, ins) {
            lowering_resumes(axes, words, i, marker, j + 2, next);
        }
    }
}

/// A start marker that was put in is passed over.
proof fn lowering_passes_a_marker(
    axes: Seq<(u32, u32)>,
    words: Seq<u32>,
    i: int,
    marker: u32,
    j: int,
    st: Lowering,
)
    requires
        0 <= j <= i <= words.len(),
        i % 2 == 0,
        j % 2 == 0,
        marker % 0x100 == 0xFF,
    ensures
        lower_from(axes, with_marker(words, i, marker), j, st) == lower_from(axes, words, j, st),
    decreases i - j,
{
    let longer = with_marker(words, i, marker);
    assert(longer.len() == words.len() + 2);
    if j == i {
        assert(longer[j] == marker && longer[j + 1] == 0);
        lowering_resumes(axes, words, i, marker, j, st);
    } else {
        assert(longer[j] == words[j] && longer[j + 1] == words[j + 1]);
        let ins = Instruction::of(words[j], words[j + 1]);
        if ins.opcode == 0xFF {
            if ins.imm == 0 {
                lowering_passes_a_marker(axes, words, i, marker, j + 2, st);
            }
        } else if let Ok(next) = lower_step(axes, st, ins) {
            lowering_passes_a_marker(axes, words, i, marker, j + 2, next);
        }
    }
}

/// Words behind the end marker change nothing.
pub proof fn words_after_the_end_are_ignored(
    axes: Seq<(u32, u32)>,
    words: Seq<u32>,
    i: int,
    more: Seq<u32>,
)
    requires
        words.len() % 2 == 0,
        more.len() % 2 == 0,
        ends_at(words, i),
    ensures
        lowered(axes, words + more) == lowered(axes, words),
{
    lowering_stops_at_the_end(axes, words, more, i, 0, no_code());
}

/// A further start marker between two operations changes nothing.
pub proof fn start_markers_are_ignored(
    axes: Seq<(u32, u32)>,
    words: Seq<u32>,
    i: int,
    marker: u32,
)
    requires
        words.len() % 2 == 0,
        0 <= i <= words.len(),
        i % 2 == 0,
        marker % 0x100 == 0xFF,
    ensures
        lowered(axes, with_marker(words, i, marker)) == lowered(axes, words),
{
    lowering_passes_a_marker(axes, words, i, marker, 0, no_code());
}

} // verus!
