//! Core data model: the tri-state of a module, catalog entries, status
//! rows, the error taxonomy, and small helpers on names.

use vstd::prelude::*;
use vstd::string::{StrSliceExecFns, StringExecFns};

verus! {

/// One known module: immutable catalog metadata plus the module's
/// last-confirmed state.
#[derive(Debug)]
pub struct Module {
    pub name: String,
    pub path: String,
    pub desc: String,
    pub state: ModuleState,
}

/// The tri-state recorded for a catalog entry. `Uncertain` means an apply
/// touching the module was attempted and its outcome was never confirmed.
#[derive(Clone, Copy, Debug, PartialEq, Eq, Structural)]
pub enum ModuleState {
    Enabled,
    Disabled,
    Uncertain,
}

/// One row of a status or list query: a module's name, resolved path,
/// description and effective state.
#[derive(Debug)]
pub struct ModuleStatus {
    pub name: String,
    pub path: String,
    pub desc: String,
    pub state: ModuleState,
}

/// The error taxonomy surfaced at the command boundary.
#[derive(Debug)]
pub enum ModuleError {
    IoError(String),
    ParseError(String),
    ModuleNotFound(String),
}

impl ModuleError {
    /// The human-readable description of this error.
    pub open spec fn spec_message(self) -> Seq<char> {
        match self {
            ModuleError::IoError(m) => "IO error: "@ + m@,
            ModuleError::ParseError(m) => "Parse error: "@ + m@,
            ModuleError::ModuleNotFound(m) => "Module not found: "@ + m@,
        }
    }

    /// Renders the error as a message naming the action or artifact that
    /// failed.
    pub fn message(&self) -> (r: String)
        ensures
            r@ == self.spec_message(),
    {
        match self {
            ModuleError::IoError(m) => String::from_str("IO error: ").concat(m.as_str()),
            ModuleError::ParseError(m) => String::from_str("Parse error: ").concat(m.as_str()),
            ModuleError::ModuleNotFound(m) => String::from_str("Module not found: ").concat(
                m.as_str(),
            ),
        }
    }
}

/// True when the two string slices hold the same characters.
pub(crate) fn str_eq(a: &str, b: &str) -> (r: bool)
    ensures
        r == (a@ == b@),
{
    let sa: String = a.to_owned();
    let sb: String = b.to_owned();
    sa == sb
}

/// True when `names` holds an entry equal to `target`.
pub(crate) fn names_contain(names: &[String], target: &str) -> (r: bool)
    ensures
        r == names.deep_view().contains(target@),
{
    let n = names.len();
    for i in 0..n
        invariant
            n == names.len(),
            forall|j: int| 0 <= j < i ==> names.deep_view()[j] != target@,
    {
        if str_eq(names[i].as_str(), target) {
            assert(names.deep_view()[i as int] == target@);
            return true;
        }
    }
    assert(forall|j: int| 0 <= j < names.deep_view().len() ==> names.deep_view()[j] != target@);
    false
}

} // verus!
