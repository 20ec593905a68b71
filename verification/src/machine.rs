//! What the operations of a tape do, told by what a tape hands out before and
//! after one more operation.

use crate::error::KernelError;
use crate::gallery::uses_memory;
use crate::opcode::{opcode_of_code, BinaryOp, Opcode, UnaryOp};
use crate::outside::moves_slot;
use crate::tape::{
    axis_of, execute, fetch, interpret, lower_from, lower_step, lowered, no_code, no_registers,
    run_from, Binding, Instruction, Lowering, Registers, Semantics,
};
use vstd::prelude::*;

verus! {

/// The first word of an operation: four bytes, the number of the operation in
/// the lowest.
pub open spec fn word(code: u8, dst: u8, lhs: u8, rhs: u8) -> u32 {
    (code + 0x100 * dst + 0x1_0000 * lhs + 0x100_0000 * rhs) as u32
}

/// Unpacking an operation gives the bytes back that it was packed from.
pub proof fn instructions_read_back(code: u8, dst: u8, lhs: u8, rhs: u8, imm: u32)
    ensures
        Instruction::of(word(code, dst, lhs, rhs), imm) == (Instruction {
            opcode: code,
            dst,
            lhs,
            rhs,
            imm,
        }),
{
    let w: int = code + 0x100 * dst + 0x1_0000 * lhs + 0x100_0000 * rhs;
    assert(0 <= w <= u32::MAX);
    assert(w % 0x100 == code);
    assert(w / 0x100 == dst + 0x100 * lhs + 0x1_0000 * rhs);
    assert(w / 0x1_0000 == lhs + 0x100 * rhs);
    assert(w / 0x100_0000 == rhs);
}

/// Packing the bytes of an operation gives its word back, so that nothing of it
/// is lost.
pub proof fn words_read_back(w: u32, imm: u32)
    ensures
        ({
            let ins = Instruction::of(w, imm);
            word(ins.opcode, ins.dst, ins.lhs, ins.rhs) == w && ins.imm == imm
        }),
{
}

/// The input `index` stands for the axis that is listed first with it, and for
/// none that is not listed.
pub proof fn inputs_stand_for_the_listed_axes(axes: Seq<(u32, u32)>, index: u32)
    ensures
        match axis_of(axes, index) {
            Some(a) => exists|i: int|
                0 <= i < axes.len() && #[trigger] axes[i] == (index, a) && forall|j: int|
                    0 <= j < i ==> (#[trigger] axes[j]).0 != index,
            None => forall|j: int| 0 <= j < axes.len() ==> (#[trigger] axes[j]).0 != index,
        },
    decreases axes.len(),
{
    if axes.len() > 0 && axes[0].0 != index {
        let rest = axes.drop_first();
        inputs_stand_for_the_listed_axes(rest, index);
        match axis_of(rest, index) {
            Some(a) => {
                let i = choose|i: int|
                    0 <= i < rest.len() && #[trigger] rest[i] == (index, a) && forall|j: int|
                        0 <= j < i ==> (#[trigger] rest[j]).0 != index;
                assert(axes[i + 1] == (index, a));
                assert forall|j: int| 0 <= j < i + 1 implies (#[trigger] axes[j]).0 != index by {
                    if j > 0 {
                        assert(axes[j] == rest[j - 1]);
                    }
                }
            },
            None => {
                assert forall|j: int| 0 <= j < axes.len() implies (#[trigger] axes[j]).0
                    != index by {
                    if j > 0 {
                        assert(axes[j] == rest[j - 1]);
                    }
                }
            },
        }
    } else if axes.len() > 0 {
        assert(axes[0] == (index, axes[0].1));
    }
}

/// `words` with one more operation.
pub open spec fn step(words: Seq<u32>, code: u8, dst: u8, lhs: u8, rhs: u8, imm: u32) -> Seq<u32> {
    words + seq![word(code, dst, lhs, rhs), imm]
}

/// The tape has no end yet: operations can still be added to it.
pub open spec fn is_open(words: Seq<u32>) -> bool {
    &&& words.len() % 2 == 0
    &&& forall|i: int|
        0 <= i < words.len() && i % 2 == 0 && #[trigger] words[i] % 0x100 == 0xFF ==> words[i + 1]
            != u32::MAX
}

/// What a tape hands out when it is made to hand out the register `r`, where 255
/// is the immediate `imm`.
pub open spec fn register<V>(
    sem: Semantics<V>,
    axes: Seq<(u32, u32)>,
    words: Seq<u32>,
    r: u8,
    imm: u32,
) -> Result<V, KernelError> {
    interpret(sem, axes, step(words, 0, r, 0, 0, imm))
}

spec fn state<V>(sem: Semantics<V>, axes: Seq<(u32, u32)>, words: Seq<u32>) -> Result<
    Registers<V>,
    KernelError,
> {
    run_from(sem, axes, words, 0, no_registers())
}

proof fn runs_on<V>(
    sem: Semantics<V>,
    axes: Seq<(u32, u32)>,
    words: Seq<u32>,
    more: Seq<u32>,
    i: int,
    st: Registers<V>,
)
    requires
        is_open(words),
        0 <= i <= words.len(),
        i % 2 == 0,
    ensures
        run_from(sem, axes, words + more, i, st) == match run_from(sem, axes, words, i, st) {
            Ok(next) => run_from(sem, axes, words + more, words.len() as int, next),
            Err(e) => Err(e),
        },
    decreases words.len() - i,
{
    let longer = words + more;
    if i < words.len() {
        assert(longer[i] == words[i] && longer[i + 1] == words[i + 1]);
        let ins = Instruction::of(words[i], words[i + 1]);
        if ins.opcode == 0xFF {
            assert(words[i] % 0x100 == 0xFF);
            runs_on(sem, axes, words, more, i + 2, st);
        } else if let Ok(next) = execute(sem, axes, st, ins) {
            runs_on(sem, axes, words, more, i + 2, next);
        }
    }
}

/// A tape with one more operation.
proof fn one_more<V>(
    sem: Semantics<V>,
    axes: Seq<(u32, u32)>,
    words: Seq<u32>,
    code: u8,
    dst: u8,
    lhs: u8,
    rhs: u8,
    imm: u32,
)
    requires
        is_open(words),
        code != 0xFF,
    ensures
        is_open(step(words, code, dst, lhs, rhs, imm)),
        state(sem, axes, step(words, code, dst, lhs, rhs, imm)) == match state(sem, axes, words) {
            Ok(st) => execute(sem, axes, st, Instruction { opcode: code, dst, lhs, rhs, imm }),
            Err(e) => Err(e),
        },
{
    let w = word(code, dst, lhs, rhs);
    let longer = step(words, code, dst, lhs, rhs, imm);
    instructions_read_back(code, dst, lhs, rhs, imm);
    runs_on(sem, axes, words, seq![w, imm], 0, no_registers());
    reveal_with_fuel(run_from, 2);
    assert(longer[words.len() as int] == w && longer[words.len() as int + 1] == imm);
    assert(w % 0x100 == code);
    assert forall|i: int|
        0 <= i < longer.len() && i % 2 == 0 && #[trigger] longer[i] % 0x100
            == 0xFF implies longer[i + 1] != u32::MAX by {
        if i < words.len() {
            assert(longer[i] == words[i] && longer[i + 1] == words[i + 1]);
        }
    }
}

/// What a register holds.
proof fn register_holds<V>(
    sem: Semantics<V>,
    axes: Seq<(u32, u32)>,
    words: Seq<u32>,
    r: u8,
    imm: u32,
)
    requires
        is_open(words),
    ensures
        register(sem, axes, words, r, imm) == match state(sem, axes, words) {
            Ok(st) => fetch(sem, st, r, imm),
            Err(e) => Err(e),
        },
{
    one_more(sem, axes, words, 0, r, 0, 0, imm);
}

proof fn has_registers<V>(
    sem: Semantics<V>,
    axes: Seq<(u32, u32)>,
    words: Seq<u32>,
    i: int,
    st: Registers<V>,
)
    requires
        st.regs.len() == 256,
    ensures
        run_from(sem, axes, words, i, st) matches Ok(end) ==> end.regs.len() == 256,
    decreases words.len() - i,
{
    if i + 1 < words.len() {
        let ins = Instruction::of(words[i], words[i + 1]);
        if ins.opcode == 0xFF {
            if ins.imm == 0 {
                has_registers(sem, axes, words, i + 2, st);
            }
        } else if let Ok(next) = execute(sem, axes, st, ins) {
            has_registers(sem, axes, words, i + 2, next);
        }
    }
}

// ---------------------------------------------------------------------------
// Laws
// ---------------------------------------------------------------------------

/// The register 255 is the immediate of the operation that reads it, as long as
/// the tape runs.
pub proof fn register_255_is_the_immediate<V>(
    sem: Semantics<V>,
    axes: Seq<(u32, u32)>,
    words: Seq<u32>,
    r: u8,
    imm: u32,
)
    requires
        is_open(words),
        register(sem, axes, words, r, imm) is Ok,
    ensures
        register(sem, axes, words, 0xFF, imm) == Ok::<V, KernelError>((sem.immediate)(imm)),
{
    register_holds(sem, axes, words, r, imm);
    register_holds(sem, axes, words, 0xFF, imm);
}

/// A two-argument operation puts its value for what the two registers held into
/// its output register, and changes no other; if one of them cannot be read, that
/// is the error of the tape.
pub proof fn binary_operations_compute<V>(
    sem: Semantics<V>,
    axes: Seq<(u32, u32)>,
    words: Seq<u32>,
    code: u8,
    op: BinaryOp,
    dst: u8,
    lhs: u8,
    rhs: u8,
    imm: u32,
    r: u8,
    i: u32,
)
    requires
        is_open(words),
        opcode_of_code(code) == Some(Opcode::Binary(op)),
    ensures
        ({
            let next = step(words, code, dst, lhs, rhs, imm);
            match (register(sem, axes, words, lhs, imm), register(sem, axes, words, rhs, imm)) {
                (Err(e), _) => register(sem, axes, next, r, i) == Err::<V, KernelError>(e),
                (_, Err(e)) => register(sem, axes, next, r, i) == Err::<V, KernelError>(e),
                (Ok(a), Ok(b)) => if r == dst && r != 0xFF {
                    register(sem, axes, next, r, i) == Ok::<V, KernelError>((sem.binary)(op, a, b))
                } else {
                    register(sem, axes, next, r, i) == register(sem, axes, words, r, i)
                },
            }
        }),
{
    let next = step(words, code, dst, lhs, rhs, imm);
    one_more(sem, axes, words, code, dst, lhs, rhs, imm);
    register_holds(sem, axes, words, lhs, imm);
    register_holds(sem, axes, words, rhs, imm);
    register_holds(sem, axes, words, r, i);
    register_holds(sem, axes, next, r, i);
    has_registers(sem, axes, words, 0, no_registers());
}

/// A one-argument operation puts its value for what the register held into its
/// output register, and changes no other; if it cannot be read, that is the error
/// of the tape.
pub proof fn unary_operations_compute<V>(
    sem: Semantics<V>,
    axes: Seq<(u32, u32)>,
    words: Seq<u32>,
    code: u8,
    op: UnaryOp,
    dst: u8,
    lhs: u8,
    rhs: u8,
    imm: u32,
    r: u8,
    i: u32,
)
    requires
        is_open(words),
        opcode_of_code(code) == Some(Opcode::Unary(op)),
    ensures
        ({
            let next = step(words, code, dst, lhs, rhs, imm);
            match register(sem, axes, words, lhs, imm) {
                Err(e) => register(sem, axes, next, r, i) == Err::<V, KernelError>(e),
                Ok(a) => if r == dst && r != 0xFF {
                    register(sem, axes, next, r, i) == Ok::<V, KernelError>((sem.unary)(op, a))
                } else {
                    register(sem, axes, next, r, i) == register(sem, axes, words, r, i)
                },
            }
        }),
{
    let next = step(words, code, dst, lhs, rhs, imm);
    one_more(sem, axes, words, code, dst, lhs, rhs, imm);
    register_holds(sem, axes, words, lhs, imm);
    register_holds(sem, axes, words, r, i);
    register_holds(sem, axes, next, r, i);
    has_registers(sem, axes, words, 0, no_registers());
}

/// A copy leaves in its output register what the other one held, or its
/// immediate, and changes no other.
pub proof fn copies_keep_values<V>(
    sem: Semantics<V>,
    axes: Seq<(u32, u32)>,
    words: Seq<u32>,
    code: u8,
    dst: u8,
    lhs: u8,
    rhs: u8,
    imm: u32,
    r: u8,
    i: u32,
)
    requires
        is_open(words),
        opcode_of_code(code) == Some(Opcode::Copy),
    ensures
        ({
            let next = step(words, code, dst, lhs, rhs, imm);
            match register(sem, axes, words, lhs, imm) {
                Err(e) => register(sem, axes, next, r, i) == Err::<V, KernelError>(e),
                Ok(a) => if r == dst && r != 0xFF {
                    register(sem, axes, next, r, i) == Ok::<V, KernelError>(a)
                } else {
                    register(sem, axes, next, r, i) == register(sem, axes, words, r, i)
                },
            }
        }),
{
    let next = step(words, code, dst, lhs, rhs, imm);
    one_more(sem, axes, words, code, dst, lhs, rhs, imm);
    register_holds(sem, axes, words, lhs, imm);
    register_holds(sem, axes, words, r, i);
    register_holds(sem, axes, next, r, i);
    has_registers(sem, axes, words, 0, no_registers());
}

/// Reading an input leaves the axis that it stands for in the output register,
/// and changes no other; an input that stands for none is an error.
pub proof fn inputs_give_axes<V>(
    sem: Semantics<V>,
    axes: Seq<(u32, u32)>,
    words: Seq<u32>,
    code: u8,
    dst: u8,
    lhs: u8,
    rhs: u8,
    index: u32,
    r: u8,
    i: u32,
)
    requires
        is_open(words),
        opcode_of_code(code) == Some(Opcode::Input),
        register(sem, axes, words, 0xFF, i) is Ok,
    ensures
        ({
            let next = step(words, code, dst, lhs, rhs, index);
            match axis_of(axes, index) {
                None => register(sem, axes, next, r, i) == Err::<V, KernelError>(
                    KernelError::Malformed("unknown input"),
                ),
                Some(a) => if r == dst && r != 0xFF {
                    register(sem, axes, next, r, i) == Ok::<V, KernelError>((sem.axis)(a))
                } else {
                    register(sem, axes, next, r, i) == register(sem, axes, words, r, i)
                },
            }
        }),
{
    let next = step(words, code, dst, lhs, rhs, index);
    one_more(sem, axes, words, code, dst, lhs, rhs, index);
    register_holds(sem, axes, words, 0xFF, i);
    register_holds(sem, axes, words, r, i);
    register_holds(sem, axes, next, r, i);
    has_registers(sem, axes, words, 0, no_registers());
}

/// A value that was stored in a memory slot is loaded from it again, even after
/// another slot was stored to.  Neither storing nor loading changes any other
/// register.
pub proof fn stored_values_are_loaded<V>(
    sem: Semantics<V>,
    axes: Seq<(u32, u32)>,
    words: Seq<u32>,
    code: u8,
    lhs: u8,
    slot: u32,
    other_lhs: u8,
    other_slot: u32,
    dst: u8,
    unused: [u8; 4],
    r: u8,
    i: u32,
)
    requires
        is_open(words),
        opcode_of_code(code) == Some(Opcode::Mem),
        dst != 0xFF,
        slot != other_slot,
        register(sem, axes, words, lhs, slot) is Ok,
        register(sem, axes, words, other_lhs, other_slot) is Ok,
    ensures
        ({
            let stored = step(words, code, 0xFF, lhs, unused@[0], slot);
            let both = step(stored, code, 0xFF, other_lhs, unused@[1], other_slot);
            let loaded = step(both, code, dst, unused@[2], unused@[3], slot);
            &&& register(sem, axes, stored, r, i) == register(sem, axes, words, r, i)
            &&& register(sem, axes, loaded, r, i) == if r == dst {
                register(sem, axes, words, lhs, slot)
            } else {
                register(sem, axes, words, r, i)
            }
        }),
{
    let stored = step(words, code, 0xFF, lhs, unused@[0], slot);
    let both = step(stored, code, 0xFF, other_lhs, unused@[1], other_slot);
    let loaded = step(both, code, dst, unused@[2], unused@[3], slot);
    one_more(sem, axes, words, code, 0xFF, lhs, unused@[0], slot);
    one_more(sem, axes, stored, code, 0xFF, other_lhs, unused@[1], other_slot);
    one_more(sem, axes, both, code, dst, unused@[2], unused@[3], slot);
    register_holds(sem, axes, words, lhs, slot);
    register_holds(sem, axes, words, other_lhs, other_slot);
    register_holds(sem, axes, words, r, i);
    register_holds(sem, axes, stored, r, i);
    register_holds(sem, axes, loaded, r, i);
    has_registers(sem, axes, words, 0, no_registers());
}

/// Storing to a slot again replaces what it held.
pub proof fn the_last_store_counts<V>(
    sem: Semantics<V>,
    axes: Seq<(u32, u32)>,
    words: Seq<u32>,
    code: u8,
    lhs: u8,
    other_lhs: u8,
    slot: u32,
    dst: u8,
    i: u32,
)
    requires
        is_open(words),
        opcode_of_code(code) == Some(Opcode::Mem),
        dst != 0xFF,
        register(sem, axes, words, lhs, slot) is Ok,
        register(sem, axes, words, other_lhs, slot) is Ok,
    ensures
        ({
            let stored = step(words, code, 0xFF, lhs, 0, slot);
            let again = step(stored, code, 0xFF, other_lhs, 0, slot);
            let loaded = step(again, code, dst, 0xFF, 0, slot);
            register(sem, axes, loaded, dst, i) == register(sem, axes, words, other_lhs, slot)
        }),
{
    let stored = step(words, code, 0xFF, lhs, 0, slot);
    let again = step(stored, code, 0xFF, other_lhs, 0, slot);
    let loaded = step(again, code, dst, 0xFF, 0, slot);
    one_more(sem, axes, words, code, 0xFF, lhs, 0, slot);
    one_more(sem, axes, stored, code, 0xFF, other_lhs, 0, slot);
    one_more(sem, axes, again, code, dst, 0xFF, 0, slot);
    register_holds(sem, axes, words, lhs, slot);
    register_holds(sem, axes, words, other_lhs, slot);
    register_holds(sem, axes, loaded, dst, i);
    has_registers(sem, axes, words, 0, no_registers());
}

/// What a register holds that cannot be read is not stored either: that is the
/// error of the tape.
pub proof fn only_values_are_stored<V>(
    sem: Semantics<V>,
    axes: Seq<(u32, u32)>,
    words: Seq<u32>,
    code: u8,
    lhs: u8,
    rhs: u8,
    slot: u32,
    r: u8,
    i: u32,
    e: KernelError,
)
    requires
        is_open(words),
        opcode_of_code(code) == Some(Opcode::Mem),
        register(sem, axes, words, lhs, slot) == Err::<V, KernelError>(e),
    ensures
        register(sem, axes, step(words, code, 0xFF, lhs, rhs, slot), r, i) == Err::<V, KernelError>(
            e,
        ),
{
    let stored = step(words, code, 0xFF, lhs, rhs, slot);
    one_more(sem, axes, words, code, 0xFF, lhs, rhs, slot);
    register_holds(sem, axes, words, lhs, slot);
    register_holds(sem, axes, stored, r, i);
}

/// The first error counts: what follows on a tape that does not run changes
/// nothing.
pub proof fn the_first_error_counts<V>(
    sem: Semantics<V>,
    axes: Seq<(u32, u32)>,
    words: Seq<u32>,
    more: Seq<u32>,
    e: KernelError,
)
    requires
        is_open(words),
        more.len() % 2 == 0,
        register(sem, axes, words, 0xFF, 0) == Err::<V, KernelError>(e),
    ensures
        interpret(sem, axes, words + more) == Err::<V, KernelError>(e),
{
    register_holds(sem, axes, words, 0xFF, 0);
    runs_on(sem, axes, words, more, 0, no_registers());
}

/// No operation of the tape stores to the slot.
pub open spec fn never_stored(words: Seq<u32>, slot: u32) -> bool {
    forall|i: int|
        0 <= i < words.len() - 1 && i % 2 == 0 && opcode_of_code(
            (#[trigger] words[i] % 0x100) as u8,
        ) == Some(Opcode::Mem) && words[i] / 0x100 % 0x100 == 0xFF ==> words[i + 1] != slot
}

/// No operation of the tape has the register as its output.
pub open spec fn never_written(words: Seq<u32>, r: u8) -> bool {
    forall|i: int|
        0 <= i < words.len() - 1 && i % 2 == 0 ==> #[trigger] words[i] / 0x100 % 0x100 != r
}

proof fn stays_unset<V>(
    sem: Semantics<V>,
    axes: Seq<(u32, u32)>,
    words: Seq<u32>,
    slot: u32,
    r: u8,
    i: int,
    st: Registers<V>,
)
    requires
        0 <= i,
        i % 2 == 0,
        words.len() % 2 == 0,
        st.regs.len() == 256,
    ensures
        run_from(sem, axes, words, i, st) matches Ok(end) ==> {
            &&& never_stored(words, slot) && !st.mem.contains_key(slot) ==> !end.mem.contains_key(
                slot,
            )
            &&& never_written(words, r) && st.regs[r as int] is None ==> end.regs[r as int] is None
        },
    decreases words.len() - i,
{
    if i + 1 < words.len() {
        let ins = Instruction::of(words[i], words[i + 1]);
        if ins.opcode == 0xFF {
            if ins.imm == 0 {
                stays_unset(sem, axes, words, slot, r, i + 2, st);
            }
        } else if let Ok(next) = execute(sem, axes, st, ins) {
            assert(words[i] / 0x100 % 0x100 == ins.dst);
            stays_unset(sem, axes, words, slot, r, i + 2, next);
        }
    }
}

/// A register that nothing was written to cannot be read.
pub proof fn unset_registers_are_refused<V>(
    sem: Semantics<V>,
    axes: Seq<(u32, u32)>,
    words: Seq<u32>,
    r: u8,
    imm: u32,
)
    requires
        is_open(words),
        never_written(words, r),
        r != 0xFF,
        register(sem, axes, words, 0xFF, imm) is Ok,
    ensures
        register(sem, axes, words, r, imm) == Err::<V, KernelError>(
            KernelError::Malformed("read of unset register"),
        ),
{
    register_holds(sem, axes, words, 0xFF, imm);
    register_holds(sem, axes, words, r, imm);
    stays_unset(sem, axes, words, 0, r, 0, no_registers());
}

/// A memory slot that nothing was stored to cannot be loaded.
pub proof fn unset_slots_are_refused<V>(
    sem: Semantics<V>,
    axes: Seq<(u32, u32)>,
    words: Seq<u32>,
    code: u8,
    dst: u8,
    lhs: u8,
    rhs: u8,
    slot: u32,
    r: u8,
    imm: u32,
)
    requires
        is_open(words),
        never_stored(words, slot),
        opcode_of_code(code) == Some(Opcode::Mem),
        dst != 0xFF,
        register(sem, axes, words, 0xFF, imm) is Ok,
    ensures
        register(sem, axes, step(words, code, dst, lhs, rhs, slot), r, imm) == Err::<V, KernelError>(
            KernelError::Malformed("load of unset slot"),
        ),
{
    one_more(sem, axes, words, code, dst, lhs, rhs, slot);
    register_holds(sem, axes, words, 0xFF, imm);
    register_holds(sem, axes, step(words, code, dst, lhs, rhs, slot), r, imm);
    stays_unset(sem, axes, words, slot, r, 0, no_registers());
}

/// Handing a register out gives what it holds, whatever was handed out before, and
/// changes no register.
pub proof fn outputs_hand_out_registers<V>(
    sem: Semantics<V>,
    axes: Seq<(u32, u32)>,
    words: Seq<u32>,
    code: u8,
    dst: u8,
    lhs: u8,
    rhs: u8,
    imm: u32,
    r: u8,
    i: u32,
)
    requires
        is_open(words),
        opcode_of_code(code) == Some(Opcode::Output),
    ensures
        ({
            let next = step(words, code, dst, lhs, rhs, imm);
            &&& interpret(sem, axes, next) == register(sem, axes, words, dst, imm)
            &&& match register(sem, axes, words, dst, imm) {
                Ok(_) => register(sem, axes, next, r, i) == register(sem, axes, words, r, i),
                Err(e) => register(sem, axes, next, r, i) == Err::<V, KernelError>(e),
            }
        }),
{
    let next = step(words, code, dst, lhs, rhs, imm);
    one_more(sem, axes, words, code, dst, lhs, rhs, imm);
    register_holds(sem, axes, words, dst, imm);
    register_holds(sem, axes, words, r, i);
    register_holds(sem, axes, next, r, i);
}

/// Only handing out changes what a tape has handed out: after any other
/// operation, the result is the one from before.
pub proof fn the_last_output_counts<V>(
    sem: Semantics<V>,
    axes: Seq<(u32, u32)>,
    words: Seq<u32>,
    code: u8,
    dst: u8,
    lhs: u8,
    rhs: u8,
    imm: u32,
)
    requires
        is_open(words),
        code != 0xFF,
        opcode_of_code(code) != Some(Opcode::Output),
    ensures
        interpret(sem, axes, step(words, code, dst, lhs, rhs, imm)) matches Ok(v) ==> interpret(
            sem,
            axes,
            words,
        ) == Ok::<V, KernelError>(v),
{
    one_more(sem, axes, words, code, dst, lhs, rhs, imm);
}

proof fn nothing_is_handed_out<V>(
    sem: Semantics<V>,
    axes: Seq<(u32, u32)>,
    words: Seq<u32>,
    i: int,
    st: Registers<V>,
)
    requires
        0 <= i,
        i % 2 == 0,
        st.output is None,
        forall|j: int|
            0 <= j < words.len() && j % 2 == 0 ==> opcode_of_code(
                (#[trigger] words[j] % 0x100) as u8,
            ) != Some(Opcode::Output),
    ensures
        run_from(sem, axes, words, i, st) matches Ok(end) ==> end.output is None,
    decreases words.len() - i,
{
    if i + 1 < words.len() {
        let ins = Instruction::of(words[i], words[i + 1]);
        if ins.opcode == 0xFF {
            if ins.imm == 0 {
                nothing_is_handed_out(sem, axes, words, i + 2, st);
            }
        } else if let Ok(next) = execute(sem, axes, st, ins) {
            nothing_is_handed_out(sem, axes, words, i + 2, next);
        }
    }
}

/// A tape that runs but hands nothing out is malformed.
pub proof fn an_output_is_needed<V>(
    sem: Semantics<V>,
    axes: Seq<(u32, u32)>,
    words: Seq<u32>,
)
    requires
        is_open(words),
        register(sem, axes, words, 0xFF, 0) is Ok,
        forall|j: int|
            0 <= j < words.len() && j % 2 == 0 ==> opcode_of_code(
                (#[trigger] words[j] % 0x100) as u8,
            ) != Some(Opcode::Output),
    ensures
        interpret(sem, axes, words) == Err::<V, KernelError>(KernelError::Malformed("no output")),
{
    register_holds(sem, axes, words, 0xFF, 0);
    nothing_is_handed_out(sem, axes, words, 0, no_registers());
}

/// A tape is made of pairs of words.
pub proof fn words_come_in_pairs<V>(sem: Semantics<V>, axes: Seq<(u32, u32)>, words: Seq<u32>)
    requires
        words.len() % 2 != 0,
    ensures
        interpret(sem, axes, words) == Err::<V, KernelError>(
            KernelError::Malformed("odd number of words"),
        ),
{
}

/// A marker does nothing by itself.  Behind the end marker nothing is looked at:
/// the tape gives what it gave before.  A start marker is passed over.
pub proof fn markers_do_nothing<V>(
    sem: Semantics<V>,
    axes: Seq<(u32, u32)>,
    words: Seq<u32>,
    dst: u8,
    lhs: u8,
    rhs: u8,
    more: Seq<u32>,
)
    requires
        is_open(words),
        more.len() % 2 == 0,
    ensures
        interpret(sem, axes, step(words, 0xFF, dst, lhs, rhs, u32::MAX) + more) == interpret(
            sem,
            axes,
            words,
        ),
        interpret(sem, axes, step(words, 0xFF, dst, lhs, rhs, 0) + more) == interpret(
            sem,
            axes,
            words + more,
        ),
{
    let w = word(0xFF, dst, lhs, rhs);
    let n = words.len() as int;
    let ended = words + (seq![w, u32::MAX] + more);
    let started = words + (seq![w, 0u32] + more);
    assert(step(words, 0xFF, dst, lhs, rhs, u32::MAX) + more =~= ended);
    assert(step(words, 0xFF, dst, lhs, rhs, 0) + more =~= started);
    instructions_read_back(0xFF, dst, lhs, rhs, u32::MAX);
    instructions_read_back(0xFF, dst, lhs, rhs, 0);
    runs_on(sem, axes, words, seq![w, u32::MAX] + more, 0, no_registers());
    runs_on(sem, axes, words, seq![w, 0u32] + more, 0, no_registers());
    runs_on(sem, axes, words, more, 0, no_registers());
    assert(ended[n] == w && ended[n + 1] == u32::MAX);
    assert(started[n] == w && started[n + 1] == 0);
    if let Ok(st) = state(sem, axes, words) {
        assert(run_from(sem, axes, started, n, st) == run_from(sem, axes, started, n + 2, st));
        assert(started.skip(n + 2) =~= more && (words + more).skip(n) =~= more);
        runs_alike(sem, axes, started, n + 2, words + more, n, st);
    }
}

/// Running depends on what follows only.
proof fn runs_alike<V>(
    sem: Semantics<V>,
    axes: Seq<(u32, u32)>,
    words: Seq<u32>,
    i: int,
    others: Seq<u32>,
    j: int,
    st: Registers<V>,
)
    requires
        0 <= i <= words.len(),
        0 <= j <= others.len(),
        words.skip(i) == others.skip(j),
    ensures
        run_from(sem, axes, words, i, st) == run_from(sem, axes, others, j, st),
    decreases words.len() - i,
{
    assert(words.skip(i).len() == words.len() - i && others.skip(j).len() == others.len() - j);
    if i + 1 < words.len() {
        assert(words.skip(i)[0] == words[i] && words.skip(i)[1] == words[i + 1]);
        assert(others.skip(j)[0] == others[j] && others.skip(j)[1] == others[j + 1]);
        assert(words.skip(i + 2) =~= words.skip(i).skip(2));
        assert(others.skip(j + 2) =~= others.skip(j).skip(2));
        let ins = Instruction::of(words[i], words[i + 1]);
        if ins.opcode == 0xFF {
            if ins.imm == 0 {
                runs_alike(sem, axes, words, i + 2, others, j + 2, st);
            }
        } else if let Ok(next) = execute(sem, axes, st, ins) {
            runs_alike(sem, axes, words, i + 2, others, j + 2, next);
        }
    }
}

/// A number that stands for no operation is refused, and so is a jump: what
/// follows is not looked at.
pub proof fn unknown_operations_are_refused<V>(
    sem: Semantics<V>,
    axes: Seq<(u32, u32)>,
    words: Seq<u32>,
    code: u8,
    dst: u8,
    lhs: u8,
    rhs: u8,
    imm: u32,
    more: Seq<u32>,
)
    requires
        is_open(words),
        more.len() % 2 == 0,
        register(sem, axes, words, 0xFF, 0) is Ok,
        if code == 0xFF {
            imm != 0 && imm != u32::MAX
        } else {
            opcode_of_code(code) is None
        },
    ensures
        interpret(sem, axes, step(words, code, dst, lhs, rhs, imm) + more) == Err::<
            V,
            KernelError,
        >(
            if code == 0xFF {
                KernelError::Malformed("unexpected jump")
            } else {
                KernelError::UnknownOpcode(code)
            },
        ),
{
    let w = word(code, dst, lhs, rhs);
    let longer = words + (seq![w, imm] + more);
    assert(step(words, code, dst, lhs, rhs, imm) + more =~= longer);
    instructions_read_back(code, dst, lhs, rhs, imm);
    register_holds(sem, axes, words, 0xFF, 0);
    runs_on(sem, axes, words, seq![w, imm] + more, 0, no_registers());
    assert(longer[words.len() as int] == w && longer[words.len() as int + 1] == imm);
}

proof fn lowers_on(
    axes: Seq<(u32, u32)>,
    words: Seq<u32>,
    more: Seq<u32>,
    i: int,
    st: Lowering,
)
    requires
        is_open(words),
        0 <= i <= words.len(),
        i % 2 == 0,
    ensures
        lower_from(axes, words + more, i, st) == match lower_from(axes, words, i, st) {
            Ok(next) => lower_from(axes, words + more, words.len() as int, next),
            Err(e) => Err(e),
        },
    decreases words.len() - i,
{
    let longer = words + more;
    if i < words.len() {
        assert(longer[i] == words[i] && longer[i + 1] == words[i + 1]);
        let ins = Instruction::of(words[i], words[i + 1]);
        if ins.opcode == 0xFF {
            assert(words[i] % 0x100 == 0xFF);
            lowers_on(axes, words, more, i + 2, st);
        } else if let Ok(next) = lower_step(axes, st, ins) {
            lowers_on(axes, words, more, i + 2, next);
        }
    }
}

/// The binding that an operation of a tape takes in straight-line code: math, an
/// axis and a constant take one each, and whatever only moves a value takes none.
pub open spec fn takes(axes: Seq<(u32, u32)>, ins: Instruction, bound: Seq<Binding>) -> bool {
    match opcode_of_code(ins.opcode) {
        Some(Opcode::Unary(op)) => bound.len() == 1 && (bound[0] matches Binding::Unary(o, _)
            && o == op),
        Some(Opcode::Binary(op)) => bound.len() == 1 && (bound[0] matches Binding::Binary(o, _, _)
            && o == op),
        Some(Opcode::Input) => bound.len() == 1 && (bound[0] matches Binding::Axis(a)
            && axis_of(axes, ins.imm) == Some(a)),
        Some(Opcode::Copy) => if ins.lhs == 0xFF {
            bound == seq![Binding::Immediate(ins.imm)]
        } else {
            bound.len() == 0
        },
        _ => bound.len() == 0,
    }
}

/// One more operation adds at most one binding to the code of a tape, behind those
/// that are there: math, an axis and a constant are bound once each, and moving a
/// value around, to or from memory or out of the tape binds nothing.
pub proof fn operations_are_bound_once(
    axes: Seq<(u32, u32)>,
    words: Seq<u32>,
    code: u8,
    dst: u8,
    lhs: u8,
    rhs: u8,
    imm: u32,
)
    requires
        is_open(words),
        code != 0xFF,
    ensures
        lowered(axes, words) matches Ok(before) ==> (lowered(
            axes,
            step(words, code, dst, lhs, rhs, imm),
        ) matches Ok(after) ==> exists|bound: Seq<Binding>| #[trigger]
            takes(axes, Instruction { opcode: code, dst, lhs, rhs, imm }, bound) && after.bindings
                == before.bindings + bound),
{
    let w = word(code, dst, lhs, rhs);
    let longer = step(words, code, dst, lhs, rhs, imm);
    let ins = Instruction { opcode: code, dst, lhs, rhs, imm };
    instructions_read_back(code, dst, lhs, rhs, imm);
    lowers_on(axes, words, seq![w, imm], 0, no_code());
    reveal_with_fuel(lower_from, 2);
    assert(longer[words.len() as int] == w && longer[words.len() as int + 1] == imm);
    if let Ok(before) = lowered(axes, words) {
        if let Ok(after) = lowered(axes, longer) {
            let st = lower_from(axes, words, 0, no_code())->Ok_0;
            let next = lower_step(axes, st, ins)->Ok_0;
            let bound = next.bindings.skip(st.bindings.len() as int);
            assert(after.bindings =~= before.bindings + bound);
            assert(opcode_of_code(code) == Some(Opcode::Copy) && lhs == 0xFF ==> bound =~= seq![
                Binding::Immediate(imm),
            ]);
            assert(takes(axes, ins, bound));
        }
    }
}

/// A tape spills exactly if one of its operations moves a value to or from memory:
/// one more operation makes it spill if it does that, and an empty tape does not.
pub proof fn spilling_is_moving_to_memory(
    words: Seq<u32>,
    code: u8,
    dst: u8,
    lhs: u8,
    rhs: u8,
    imm: u32,
)
    requires
        words.len() % 2 == 0,
    ensures
        !uses_memory(Seq::empty()),
        uses_memory(step(words, code, dst, lhs, rhs, imm)) <==> uses_memory(words)
            || opcode_of_code(code) == Some(Opcode::Mem),
{
    let longer = step(words, code, dst, lhs, rhs, imm);
    let n = words.len() as int / 2;
    instructions_read_back(code, dst, lhs, rhs, imm);
    assert(longer[2 * n] == word(code, dst, lhs, rhs) && longer[2 * n + 1] == imm);
    if uses_memory(longer) {
        let (k, slot) = choose|k: int, slot: u32| #[trigger] moves_slot(longer, k, slot);
        if k < n {
            assert(longer[2 * k] == words[2 * k] && longer[2 * k + 1] == words[2 * k + 1]);
            assert(moves_slot(words, k, slot));
        }
    }
    if uses_memory(words) {
        let (k, slot) = choose|k: int, slot: u32| #[trigger] moves_slot(words, k, slot);
        assert(longer[2 * k] == words[2 * k] && longer[2 * k + 1] == words[2 * k + 1]);
        assert(moves_slot(longer, k, slot));
    }
    if opcode_of_code(code) == Some(Opcode::Mem) {
        assert(moves_slot(longer, n, imm));
    }
}

} // verus!
