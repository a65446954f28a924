//! Backward-compatibility checking for module replacement.
//!
//! A replacement ABI is compatible with the ABI it replaces exactly when
//! every function the old ABI exposed as public still exists, public, with an
//! identical parameter list (same count, same order, same types) and an
//! identical return type, and every exported data-type layout is preserved
//! up to purely additive extension.  Additions never break compatibility.

use vstd::prelude::*;

use crate::abi::{AbiView, FnSigView, FunctionSig, ModuleAbi, StructLayout, abi_wf};

verus! {

/// One breaking change found while diffing an old ABI against a new one.
#[derive(Clone, Debug)]
pub enum CompatIssue {
    /// A public function of the old ABI has no public counterpart of the
    /// same name in the new one.
    FunctionRemoved { name: Vec<u8> },
    /// The parameter list of a public function gained or lost an entry.
    ParameterCountChanged { name: Vec<u8> },
    /// A positional parameter type of a public function changed.
    ParameterTypeChanged { name: Vec<u8>, index: usize },
    /// The return type of a public function changed.
    ReturnTypeChanged { name: Vec<u8> },
    /// An exported data-type layout disappeared from the new ABI.
    LayoutRemoved { name: Vec<u8> },
    /// An exported data-type layout removed or altered an existing field.
    LayoutFieldsChanged { name: Vec<u8> },
}

/// The result of diffing an old ABI against a new one: one entry per
/// breaking change, empty exactly when the replacement is compatible.
#[derive(Clone, Debug)]
pub struct CompatibilityReport {
    pub issues: Vec<CompatIssue>,
}

impl CompatibilityReport {
    /// Whether the diff found no breaking change.
    pub fn is_compatible(&self) -> (r: bool)
        ensures
            r == (self.issues@.len() == 0),
    {
        self.issues.len() == 0
    }
}

/// A public function of the old ABI survives in the new one: same name,
/// still public, identical parameter list, identical return type.
pub open spec fn fn_preserved(old_f: FnSigView, new: AbiView) -> bool {
    exists|j: int|
        0 <= j < new.functions.len() && new.functions[j].name == old_f.name
            && new.functions[j].is_public && new.functions[j].params == old_f.params
            && new.functions[j].ret == old_f.ret
}

/// An exported layout of the old ABI survives in the new one: same name and
/// the old field list is a prefix of the new one (purely additive extension).
pub open spec fn layout_preserved(old_l: crate::abi::LayoutView, new: AbiView) -> bool {
    exists|j: int|
        0 <= j < new.structs.len() && new.structs[j].name == old_l.name
            && old_l.fields.is_prefix_of(new.structs[j].fields)
}

/// The replacement ABI `new` is call-compatible with the ABI `old` it
/// replaces.
pub open spec fn abi_compatible(old: AbiView, new: AbiView) -> bool {
    &&& forall|i: int|
        0 <= i < old.functions.len() && old.functions[i].is_public ==> fn_preserved(
            old.functions[i],
            new,
        )
    &&& forall|i: int| 0 <= i < old.structs.len() ==> layout_preserved(old.structs[i], new)
}

/// Byte-string equality.
pub fn bytes_equal(a: &Vec<u8>, b: &Vec<u8>) -> (r: bool)
    ensures
        r == (a@ == b@),
{
    if a.len() != b.len() {
        return false;
    }
    let mut i: usize = 0;
    while i < a.len()
        invariant
            0 <= i <= a.len(),
            a.len() == b.len(),
            forall|k: int| 0 <= k < i ==> a@[k] == b@[k],
        decreases a.len() - i,
    {
        if a[i] != b[i] {
            return false;
        }
        i = i + 1;
    }
    proof {
        assert(a@ =~= b@);
    }
    true
}

/// Whether `a` is a positional prefix of `b`.
fn tags_prefix(a: &Vec<crate::abi::TypeTag>, b: &Vec<crate::abi::TypeTag>) -> (r: bool)
    ensures
        r == a@.is_prefix_of(b@),
{
    if a.len() > b.len() {
        return false;
    }
    let mut i: usize = 0;
    while i < a.len()
        invariant
            0 <= i <= a.len(),
            a.len() <= b.len(),
            forall|k: int| 0 <= k < i ==> a@[k] == b@[k],
        decreases a.len() - i,
    {
        if a[i] != b[i] {
            proof {
                assert(a@[i as int] != b@.subrange(0, a@.len() as int)[i as int]);
            }
            return false;
        }
        i = i + 1;
    }
    proof {
        assert(a@ =~= b@.subrange(0, a@.len() as int));
    }
    true
}

/// Finds some function of the given name.
fn find_function(fns: &Vec<FunctionSig>, name: &Vec<u8>) -> (r: Option<usize>)
    ensures
        (r matches Some(j) ==> j < fns@.len() && fns@[j as int].name@ == name@),
        (r is None ==> forall|j: int| 0 <= j < fns@.len() ==> fns@[j].name@ != name@),
{
    let mut i: usize = 0;
    while i < fns.len()
        invariant
            0 <= i <= fns@.len(),
            forall|j: int| 0 <= j < i ==> fns@[j].name@ != name@,
        decreases fns@.len() - i,
    {
        if bytes_equal(&fns[i].name, name) {
            return Some(i);
        }
        i = i + 1;
    }
    None
}

/// Finds some layout of the given name.
fn find_layout(ls: &Vec<StructLayout>, name: &Vec<u8>) -> (r: Option<usize>)
    ensures
        (r matches Some(j) ==> j < ls@.len() && ls@[j as int].name@ == name@),
        (r is None ==> forall|j: int| 0 <= j < ls@.len() ==> ls@[j].name@ != name@),
{
    let mut i: usize = 0;
    while i < ls.len()
        invariant
            0 <= i <= ls@.len(),
            forall|j: int| 0 <= j < i ==> ls@[j].name@ != name@,
        decreases ls@.len() - i,
    {
        if bytes_equal(&ls[i].name, name) {
            return Some(i);
        }
        i = i + 1;
    }
    None
}

/// Finds the first position at which two equally long type lists differ.
fn first_tag_mismatch(a: &Vec<crate::abi::TypeTag>, b: &Vec<crate::abi::TypeTag>) -> (r: Option<
    usize,
>)
    requires
        a@.len() == b@.len(),
    ensures
        (r matches Some(i) ==> i < a@.len() && a@[i as int] != b@[i as int]),
        (r is None ==> a@ == b@),
{
    let mut i: usize = 0;
    while i < a.len()
        invariant
            0 <= i <= a@.len(),
            a@.len() == b@.len(),
            forall|k: int| 0 <= k < i ==> a@[k] == b@[k],
        decreases a@.len() - i,
    {
        if a[i] != b[i] {
            return Some(i);
        }
        i = i + 1;
    }
    proof {
        assert(a@ =~= b@);
    }
    None
}

/// The break one report entry attests: the entry names a public function
/// or an exported layout of the old ABI that the new ABI does not
/// preserve, and the kind of change that broke it.
pub open spec fn issue_valid(old: AbiView, new: AbiView, issue: CompatIssue) -> bool {
    match issue {
        CompatIssue::FunctionRemoved { name } => exists|i: int|
            0 <= i < old.functions.len() && (#[trigger] old.functions[i]).name == name@
                && old.functions[i].is_public && !fn_preserved(old.functions[i], new),
        CompatIssue::ParameterCountChanged { name } => exists|i: int, j: int|
            0 <= i < old.functions.len() && 0 <= j < new.functions.len()
                && (#[trigger] old.functions[i]).name == name@ && old.functions[i].is_public
                && (#[trigger] new.functions[j]).name == name@
                && new.functions[j].params.len() != old.functions[i].params.len()
                && !fn_preserved(old.functions[i], new),
        CompatIssue::ParameterTypeChanged { name, index } => exists|i: int, j: int|
            0 <= i < old.functions.len() && 0 <= j < new.functions.len()
                && (#[trigger] old.functions[i]).name == name@ && old.functions[i].is_public
                && (#[trigger] new.functions[j]).name == name@ && index
                < old.functions[i].params.len() && index < new.functions[j].params.len()
                && new.functions[j].params[index as int] != old.functions[i].params[index as int]
                && !fn_preserved(old.functions[i], new),
        CompatIssue::ReturnTypeChanged { name } => exists|i: int, j: int|
            0 <= i < old.functions.len() && 0 <= j < new.functions.len()
                && (#[trigger] old.functions[i]).name == name@ && old.functions[i].is_public
                && (#[trigger] new.functions[j]).name == name@ && new.functions[j].ret
                != old.functions[i].ret && !fn_preserved(old.functions[i], new),
        CompatIssue::LayoutRemoved { name } => exists|i: int|
            0 <= i < old.structs.len() && (#[trigger] old.structs[i]).name == name@
                && !layout_preserved(old.structs[i], new),
        CompatIssue::LayoutFieldsChanged { name } => exists|i: int, j: int|
            0 <= i < old.structs.len() && 0 <= j < new.structs.len()
                && (#[trigger] old.structs[i]).name == name@ && (#[trigger] new.structs[j]).name
                == name@ && !old.structs[i].fields.is_prefix_of(new.structs[j].fields)
                && !layout_preserved(old.structs[i], new),
    }
}

/// Diffs `old` against its proposed replacement `new` and reports every
/// breaking change; the report is empty exactly when `new` is
/// call-compatible with `old`, and every entry of the report names a real
/// break of the old public interface.  Pure: touches no storage.
pub fn check_compatible(old: &ModuleAbi, new: &ModuleAbi) -> (r: CompatibilityReport)
    requires
        abi_wf(new@),
    ensures
        (r.issues@.len() == 0) == abi_compatible(old@, new@),
        forall|k: int|
            0 <= k < r.issues@.len() ==> issue_valid(old@, new@, #[trigger] r.issues@[k]),
{
    let mut issues: Vec<CompatIssue> = Vec::new();
    let mut i: usize = 0;
    while i < old.functions.len()
        invariant
            0 <= i <= old.functions@.len(),
            abi_wf(new@),
            old@.functions.len() == old.functions@.len(),
            (issues@.len() == 0) == (forall|k: int|
                0 <= k < i && old@.functions[k].is_public ==> fn_preserved(
                    old@.functions[k],
                    new@,
                )),
            forall|k: int|
                0 <= k < issues@.len() ==> issue_valid(old@, new@, #[trigger] issues@[k]),
        decreases old.functions@.len() - i,
    {
        let of = &old.functions[i];
        proof {
            assert(old@.functions[i as int] == of@);
        }
        if of.is_public {
            match find_function(&new.functions, &of.name) {
                None => {
                    proof {
                        assert(!fn_preserved(of@, new@)) by {
                            assert(forall|j: int|
                                0 <= j < new@.functions.len() ==> new@.functions[j].name
                                    != of@.name);
                        };
                    }
                    let issue = CompatIssue::FunctionRemoved {
                        name: crate::codec::copy_bytes(&of.name),
                    };
                    proof {
                        assert(issue_valid(old@, new@, issue));
                    }
                    issues.push(issue);
                },
                Some(j) => {
                    let nf = &new.functions[j];
                    proof {
                        assert(new@.functions[j as int] == nf@);
                        // By uniqueness of names in `new`, `j` is the only
                        // candidate the survival of `of` could rest on.
                        assert(fn_preserved(of@, new@) ==> (nf@.is_public && nf@.params
                            == of@.params && nf@.ret == of@.ret)) by {
                            if fn_preserved(of@, new@) {
                                let j2 = choose|j2: int|
                                    0 <= j2 < new@.functions.len() && new@.functions[j2].name
                                        == of@.name && new@.functions[j2].is_public
                                        && new@.functions[j2].params == of@.params
                                        && new@.functions[j2].ret == of@.ret;
                                assert(j2 == j as int);
                            }
                        };
                    }
                    if !nf.is_public {
                        let issue = CompatIssue::FunctionRemoved {
                            name: crate::codec::copy_bytes(&of.name),
                        };
                        proof {
                            assert(issue_valid(old@, new@, issue));
                        }
                        issues.push(issue);
                    } else if nf.params.len() != of.params.len() {
                        let issue = CompatIssue::ParameterCountChanged {
                            name: crate::codec::copy_bytes(&of.name),
                        };
                        proof {
                            assert(issue_valid(old@, new@, issue));
                        }
                        issues.push(issue);
                    } else {
                        match first_tag_mismatch(&of.params, &nf.params) {
                            Some(p) => {
                                let issue = CompatIssue::ParameterTypeChanged {
                                    name: crate::codec::copy_bytes(&of.name),
                                    index: p,
                                };
                                proof {
                                    assert(issue_valid(old@, new@, issue));
                                }
                                issues.push(issue);
                            },
                            None => {
                                if nf.ret != of.ret {
                                    let issue = CompatIssue::ReturnTypeChanged {
                                        name: crate::codec::copy_bytes(&of.name),
                                    };
                                    proof {
                                        assert(issue_valid(old@, new@, issue));
                                    }
                                    issues.push(issue);
                                } else {
                                    proof {
                                        assert(fn_preserved(of@, new@)) by {
                                            assert(0 <= j < new@.functions.len()
                                                && new@.functions[j as int].name == of@.name
                                                && new@.functions[j as int].is_public
                                                && new@.functions[j as int].params == of@.params
                                                && new@.functions[j as int].ret == of@.ret);
                                        };
                                    }
                                }
                            },
                        }
                    }
                },
            }
        }
        i = i + 1;
    }
    let mut i: usize = 0;
    while i < old.structs.len()
        invariant
            0 <= i <= old.structs@.len(),
            abi_wf(new@),
            old@.structs.len() == old.structs@.len(),
            (issues@.len() == 0) == ((forall|k: int|
                0 <= k < old@.functions.len() && old@.functions[k].is_public ==> fn_preserved(
                    old@.functions[k],
                    new@,
                )) && (forall|k: int|
                0 <= k < i ==> layout_preserved(old@.structs[k], new@))),
            forall|k: int|
                0 <= k < issues@.len() ==> issue_valid(old@, new@, #[trigger] issues@[k]),
        decreases old.structs@.len() - i,
    {
        let ol = &old.structs[i];
        proof {
            assert(old@.structs[i as int] == ol@);
        }
        match find_layout(&new.structs, &ol.name) {
            None => {
                proof {
                    assert(!layout_preserved(ol@, new@));
                }
                let issue = CompatIssue::LayoutRemoved {
                    name: crate::codec::copy_bytes(&ol.name),
                };
                proof {
                    assert(issue_valid(old@, new@, issue));
                }
                issues.push(issue);
            },
            Some(j) => {
                let nl = &new.structs[j];
                proof {
                    assert(new@.structs[j as int] == nl@);
                    assert(layout_preserved(ol@, new@) ==> ol@.fields.is_prefix_of(nl@.fields))
                        by {
                        if layout_preserved(ol@, new@) {
                            let j2 = choose|j2: int|
                                0 <= j2 < new@.structs.len() && new@.structs[j2].name == ol@.name
                                    && ol@.fields.is_prefix_of(new@.structs[j2].fields);
                            assert(j2 == j as int);
                        }
                    };
                }
                if !tags_prefix(&ol.fields, &nl.fields) {
                    let issue = CompatIssue::LayoutFieldsChanged {
                        name: crate::codec::copy_bytes(&ol.name),
                    };
                    proof {
                        assert(issue_valid(old@, new@, issue));
                    }
                    issues.push(issue);
                } else {
                    proof {
                        assert(layout_preserved(ol@, new@));
                    }
                }
            },
        }
        i = i + 1;
    }
    CompatibilityReport { issues }
}

/// Compatibility monotonicity, positive direction: a replacement in which
/// every public function of the old ABI appears with an identical signature,
/// and every exported layout is preserved, is compatible.
pub proof fn lemma_compatible_when_interface_preserved(old: AbiView, new: AbiView)
    requires
        forall|i: int|
            0 <= i < old.functions.len() && old.functions[i].is_public ==> fn_preserved(
                old.functions[i],
                new,
            ),
        forall|i: int| 0 <= i < old.structs.len() ==> layout_preserved(old.structs[i], new),
    ensures
        abi_compatible(old, new),
{
}

/// Compatibility monotonicity, negative direction: if the parameter list of
/// some public function gains or loses an entry, or changes a positional
/// type, or changes its return type, the replacement is incompatible — a
/// gained and a lost parameter fail identically.
pub proof fn lemma_incompatible_on_signature_change(old: AbiView, new: AbiView, i: int, j: int)
    requires
        abi_wf(new),
        0 <= i < old.functions.len(),
        old.functions[i].is_public,
        0 <= j < new.functions.len(),
        new.functions[j].name == old.functions[i].name,
        old.functions[i].params != new.functions[j].params || old.functions[i].ret
            != new.functions[j].ret,
    ensures
        !abi_compatible(old, new),
{
    if fn_preserved(old.functions[i], new) {
        let j2 = choose|j2: int|
            0 <= j2 < new.functions.len() && new.functions[j2].name == old.functions[i].name
                && new.functions[j2].is_public && new.functions[j2].params
                == old.functions[i].params && new.functions[j2].ret == old.functions[i].ret;
        assert(j2 == j);
    }
}

/// Removing a public function outright is incompatible.
pub proof fn lemma_incompatible_on_removed_function(old: AbiView, new: AbiView, i: int)
    requires
        0 <= i < old.functions.len(),
        old.functions[i].is_public,
        forall|j: int|
            0 <= j < new.functions.len() ==> new.functions[j].name != old.functions[i].name,
    ensures
        !abi_compatible(old, new),
{
    assert(!fn_preserved(old.functions[i], new));
}

} // verus!
