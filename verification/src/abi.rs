//! Module ABIs: the public function and data-type signatures a module
//! exposes to callers, together with their mathematical views.

use vstd::prelude::*;

verus! {

/// A VM value type, as it appears in function signatures and data layouts.
#[derive(Clone, Copy, Debug, PartialEq, Eq, Structural)]
pub enum TypeTag {
    Bool,
    U8,
    U64,
    U128,
    Address,
    Signer,
    Bytes,
    Unit,
}

/// The signature of one function of a module's ABI.
#[derive(Clone, Debug)]
pub struct FunctionSig {
    /// Function name, unique within the module.
    pub name: Vec<u8>,
    /// Whether the function is exposed to callers (public/entry).
    pub is_public: bool,
    /// Parameter types, in positional order.
    pub params: Vec<TypeTag>,
    /// Return type (`Unit` for none).
    pub ret: TypeTag,
}

/// The exported layout of one data type of a module's ABI.
#[derive(Clone, Debug)]
pub struct StructLayout {
    /// Type name, unique within the module.
    pub name: Vec<u8>,
    /// Field types, in positional order.
    pub fields: Vec<TypeTag>,
}

/// The parsed ABI of a module: its public interface.
#[derive(Clone, Debug)]
pub struct ModuleAbi {
    pub functions: Vec<FunctionSig>,
    pub structs: Vec<StructLayout>,
}

/// Mathematical view of a function signature.
#[verifier::ext_equal]
pub struct FnSigView {
    pub name: Seq<u8>,
    pub is_public: bool,
    pub params: Seq<TypeTag>,
    pub ret: TypeTag,
}

/// Mathematical view of an exported data-type layout.
#[verifier::ext_equal]
pub struct LayoutView {
    pub name: Seq<u8>,
    pub fields: Seq<TypeTag>,
}

/// Mathematical view of a module ABI.
#[verifier::ext_equal]
pub struct AbiView {
    pub functions: Seq<FnSigView>,
    pub structs: Seq<LayoutView>,
}

impl View for FunctionSig {
    type V = FnSigView;

    open spec fn view(&self) -> FnSigView {
        FnSigView {
            name: self.name@,
            is_public: self.is_public,
            params: self.params@,
            ret: self.ret,
        }
    }
}

impl View for StructLayout {
    type V = LayoutView;

    open spec fn view(&self) -> LayoutView {
        LayoutView { name: self.name@, fields: self.fields@ }
    }
}

impl View for ModuleAbi {
    type V = AbiView;

    open spec fn view(&self) -> AbiView {
        AbiView {
            functions: self.functions@.map_values(|f: FunctionSig| f@),
            structs: self.structs@.map_values(|s: StructLayout| s@),
        }
    }
}

/// An ABI is well formed when its function names and its type names are each
/// unique within the module.
pub open spec fn abi_wf(a: AbiView) -> bool {
    &&& forall|i: int, j: int|
        0 <= i < j < a.functions.len() ==> a.functions[i].name != a.functions[j].name
    &&& forall|i: int, j: int|
        0 <= i < j < a.structs.len() ==> a.structs[i].name != a.structs[j].name
}

} // verus!
