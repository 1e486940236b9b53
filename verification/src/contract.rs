//! A compiled contract.

use vstd::prelude::*;
use crate::text::same_text;

verus! {

/// The interface of a contract.
#[derive(Clone, Debug, PartialEq, Eq)]
pub struct JsonAbi {
    /// The names of the functions.
    pub functions: Vec<String>,
    /// The interface as JSON.
    pub json: String,
}

impl JsonAbi {
    /// Whether the interface has a function with the given name.
    pub open spec fn declares(&self, name: Seq<char>) -> bool {
        exists|i: int| 0 <= i < self.functions@.len() && (#[trigger] self.functions@[i])@ == name
    }

    /// Whether the interface has a function with the given name.
    pub fn has_function(&self, name: &str) -> (r: bool)
        ensures
            r == self.declares(name@),
    {
        let mut i: usize = 0;
        while i < self.functions.len()
            invariant
                i <= self.functions.len(),
                forall|j: int| 0 <= j < i ==> (#[trigger] self.functions@[j])@ != name@,
            decreases self.functions.len() - i,
        {
            if same_text(self.functions[i].as_str(), name) {
                return true;
            }
            i = i + 1;
        }
        false
    }
}

/// Code, linked or not.
#[derive(Clone, Debug, PartialEq, Eq)]
pub enum BytecodeObject {
    /// The bytes of linked code.
    Bytecode(Vec<u8>),
    /// Hexadecimal text with placeholders for libraries.
    Unlinked(String),
}

/// What the compiler makes of a contract.
#[derive(Clone, Debug, PartialEq, Eq)]
pub struct ResolcContract {
    pub abi: Option<JsonAbi>,
    /// The metadata as JSON.
    pub metadata: Option<String>,
    pub bytecode: Option<BytecodeObject>,
    pub runtime_bytecode: Option<BytecodeObject>,
    pub hash: Option<String>,
}

impl ResolcContract {
    /// Whether the interface marks the contract as a test.
    pub open spec fn marks_test(&self) -> bool {
        self.abi matches Some(abi) && abi.declares("IS_TEST"@)
    }

    /// Whether the interface marks the contract as a test.
    pub fn is_marked_test(&self) -> (r: bool)
        ensures
            r == self.marks_test(),
    {
        match &self.abi {
            Some(abi) => abi.has_function("IS_TEST"),
            None => false,
        }
    }
}

/// The interface and the code of a contract.
#[derive(Clone, Debug, PartialEq, Eq)]
pub struct CompactContractRef<'a> {
    pub abi: Option<&'a JsonAbi>,
    pub bin: Option<&'a BytecodeObject>,
    pub bin_runtime: Option<&'a BytecodeObject>,
}

/// The interface and the code of a contract.
pub open spec fn compact<'a>(contract: &'a ResolcContract) -> CompactContractRef<'a> {
    CompactContractRef {
        abi: match &contract.abi {
            Some(abi) => Some(abi),
            None => None,
        },
        bin: match &contract.bytecode {
            Some(code) => Some(code),
            None => None,
        },
        bin_runtime: match &contract.runtime_bytecode {
            Some(code) => Some(code),
            None => None,
        },
    }
}

impl<'a> CompactContractRef<'a> {
    /// The interface and the code of a contract.
    pub fn of(contract: &'a ResolcContract) -> (r: CompactContractRef<'a>)
        ensures
            r == compact(contract),
    {
        CompactContractRef {
            abi: contract.abi.as_ref(),
            bin: contract.bytecode.as_ref(),
            bin_runtime: contract.runtime_bytecode.as_ref(),
        }
    }
}

} // verus!
