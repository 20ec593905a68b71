//! What can go wrong when a kernel is compiled.

use crate::outside::{register_text, variable_display, variable_text};
use crate::reading::{after, after_reads, decimal_reads_back, denotes};
use crate::text::{decimal, push_decimal};
use fidget_bytecode::ReservedRegister;
use fidget_core::var::VarIndex;
use vstd::prelude::*;
use vstd::string::StringExecFns;

verus! {

/// An input variable of an expression.
#[derive(Clone, Copy, Debug, PartialEq, Eq)]
pub enum Variable {
    /// The X axis
    X,
    /// The Y axis
    Y,
    /// The Z axis
    Z,
    /// A free variable
    V(VarIndex),
}

impl Variable {
    /// The number of the axis, for one that is an axis.
    pub open spec fn axis(self) -> Option<u32> {
        match self {
            Variable::X => Some(0),
            Variable::Y => Some(1),
            Variable::Z => Some(2),
            Variable::V(_) => None,
        }
    }

    /// Returns the number of the axis, or `None` for a free variable.
    pub fn axis_number(self) -> (axis: Option<u32>)
        ensures
            axis == self.axis(),
    {
        match self {
            Variable::X => Some(0),
            Variable::Y => Some(1),
            Variable::Z => Some(2),
            Variable::V(_) => None,
        }
    }
}

/// Error when compiling a kernel
#[derive(Debug)]
pub enum KernelError {
    /// Kernels may only use the `X`, `Y`, and `Z` axes
    UnsupportedVar(Variable),
    /// The kernel's bytecode contains an unknown opcode
    UnknownOpcode(u8),
    /// The kernel's bytecode is malformed
    Malformed(&'static str),
    /// The kernel's tape uses the reserved register
    RegisterError(ReservedRegister),
}

impl KernelError {
    /// The error in words.
    pub open spec fn words(self) -> Seq<char> {
        match self {
            KernelError::UnsupportedVar(v) => "kernels may only use the X, Y, and Z axes (found "@
                + variable_display(v) + ")"@,
            KernelError::UnknownOpcode(code) => "unknown opcode "@ + decimal(code as nat),
            KernelError::Malformed(defect) => "malformed bytecode: "@ + defect@,
            KernelError::RegisterError(_) => "register 255 is reserved"@,
        }
    }

    /// Returns the error in words.
    pub fn message(&self) -> (text: String)
        ensures
            text@ == self.words(),
    {
        match self {
            KernelError::UnsupportedVar(v) => {
                let mut text = "kernels may only use the X, Y, and Z axes (found ".to_owned();
                text.append(variable_text(*v).as_str());
                text.append(")");
                text
            },
            KernelError::UnknownOpcode(code) => {
                let mut text = "unknown opcode ".to_owned();
                push_decimal(&mut text, *code as usize);
                text
            },
            KernelError::Malformed(defect) => {
                let mut text = "malformed bytecode: ".to_owned();
                text.append(defect);
                text
            },
            KernelError::RegisterError(e) => register_text(e),
        }
    }
}

impl From<ReservedRegister> for KernelError {
    fn from(e: ReservedRegister) -> (error: KernelError) {
        KernelError::RegisterError(e)
    }
}

impl vstd::std_specs::convert::FromSpecImpl<ReservedRegister> for KernelError {
    open spec fn obeys_from_spec() -> bool {
        true
    }

    open spec fn from_spec(e: ReservedRegister) -> KernelError {
        KernelError::RegisterError(e)
    }
}

/// Error when building the kernels of a shape
#[derive(Debug)]
pub enum RenderShapeError {
    /// The tape of a kernel uses the reserved register
    RegisterError(ReservedRegister),
    /// A kernel could not be compiled
    KernelError(KernelError),
}

// ---------------------------------------------------------------------------
// Laws
// ---------------------------------------------------------------------------

/// The words of an error tell what went wrong: they end in the variable that is no
/// axis, in the number of the operation that is unknown, or in the defect.
pub proof fn errors_tell_what_went_wrong(v: Variable, code: u8, defect: &'static str)
    ensures
        after(
            KernelError::UnsupportedVar(v).words(),
            "kernels may only use the X, Y, and Z axes (found "@,
        ) == Some(variable_display(v) + ")"@),
        after(KernelError::UnknownOpcode(code).words(), "unknown opcode "@) matches Some(digits)
            && denotes(digits, code as int),
        after(KernelError::Malformed(defect).words(), "malformed bytecode: "@) == Some(defect@),
{
    let found = "kernels may only use the X, Y, and Z axes (found "@;
    after_reads(found, variable_display(v) + ")"@);
    assert(KernelError::UnsupportedVar(v).words() =~= found + (variable_display(v) + ")"@));
    after_reads("unknown opcode "@, decimal(code as nat));
    decimal_reads_back(code as nat);
    after_reads("malformed bytecode: "@, defect@);
}

} // verus!
