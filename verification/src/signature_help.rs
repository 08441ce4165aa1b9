//! Signature help for Makefile built-in functions.
//!
//! Shows parameter information when the cursor is inside a function call
//! like `$(subst from,to,text)`.

use vstd::prelude::*;
use vstd::string::StringSliceAdditionalSpecFns;

use crate::builtins::{find_builtin_function, first_function_named, spec_builtin_functions, strs_view, BuiltinFunctionSpec};
use crate::hover::{join, join_strs};
use crate::makefile::{Makefile, VariableReferenceView};
use crate::position::{spec_position_to_offset, try_position_to_offset, Position};
use crate::strs::push_str;

verus! {

/// A parameter of a signature.
pub struct ParameterInformation {
    pub label: String,
}

/// A function signature with its Markdown documentation.
pub struct SignatureInformation {
    pub label: String,
    pub documentation: Option<String>,
    pub parameters: Option<Vec<ParameterInformation>>,
    pub active_parameter: Option<u32>,
}

/// The signatures that apply at the cursor, with the active one.
pub struct SignatureHelp {
    pub signatures: Vec<SignatureInformation>,
    pub active_signature: Option<u32>,
    pub active_parameter: Option<u32>,
}

/// The argument of the `k`-th variable reference (in the order of
/// `Makefile::variable_references`) of `text` that byte `offset` falls in,
/// as `VariableReference::argument_index_at_offset` finds it.
pub uninterp spec fn lossless_argument_index(text: Seq<char>, k: usize, offset: usize) -> Option<usize>;

/// `VariableReference::argument_index_at_offset` of `makefile_lossless`,
/// on the `k`-th variable reference of the parse of `text`. Which argument
/// it finds is named, not stated; `None` when there is no such reference.
#[verifier::external_body]
fn argument_index_at(text: &str, k: usize, offset: usize) -> (r: Option<usize>)
    requires
        text.spec_bytes().len() <= u32::MAX,
    ensures
        r == lossless_argument_index(text@, k, offset),
{
    makefile_lossless::Makefile::parse(text).tree().variable_references().nth(k)?.argument_index_at_offset(offset)
}

/// Index of the first reference from `k` on that is a function call whose
/// range holds byte `o`.
pub open spec fn first_call_at(refs: Seq<VariableReferenceView>, o: int, k: int) -> Option<int>
    decreases refs.len() - k,
{
    if k < 0 || k >= refs.len() {
        None
    } else if refs[k].range.start <= o <= refs[k].range.end && refs[k].is_function_call {
        Some(k)
    } else {
        first_call_at(refs, o, k + 1)
    }
}

/// The built-in function called around `position` and the index of the
/// argument the cursor is in: taken from the first function call whose
/// range holds the cursor, when it names a built-in function.
pub open spec fn spec_signature_at(text: Seq<char>, bs: Seq<u8>, refs: Seq<VariableReferenceView>, position: Position) -> Option<
    (BuiltinFunctionSpec, usize),
> {
    match spec_position_to_offset(bs, position) {
        None => None,
        Some(o) => match first_call_at(refs, o, 0) {
            None => None,
            Some(k) => match refs[k].name {
                None => None,
                Some(n) => match lossless_argument_index(text, k as usize, o as usize) {
                    None => None,
                    Some(a) => match first_function_named(spec_builtin_functions(), n) {
                        None => None,
                        Some(f) => Some((f, a)),
                    },
                },
            },
        },
    }
}

/// The label of a signature: `$(name params)`, the parameters joined with `,`.
pub open spec fn signature_label(f: BuiltinFunctionSpec) -> Seq<char> {
    "$("@ + f.name + " "@ + join(f.params, ","@) + ")"@
}

/// The signature help holds one signature: the function's label,
/// documentation and parameters, with the argument index as active
/// parameter (truncated to `u32`).
pub open spec fn describes(h: SignatureHelp, f: BuiltinFunctionSpec, a: usize) -> bool {
    &&& h.signatures@.len() == 1
    &&& h.signatures@[0].label@ == signature_label(f)
    &&& h.signatures@[0].documentation matches Some(d) && d@ == f.doc
    &&& h.signatures@[0].parameters matches Some(ps) && ps@.len() == f.params.len() && forall|i: int|
        0 <= i < ps@.len() ==> (#[trigger] ps@[i]).label@ == f.params[i]
    &&& h.signatures@[0].active_parameter == Some(a as u32)
    &&& h.active_signature == Some(0u32)
    &&& h.active_parameter == Some(a as u32)
}

fn first_call_index(refs: &Vec<crate::makefile::VariableReference>, o: usize) -> (r: Option<usize>)
    ensures
        match r {
            Some(k) => k < refs@.len() && first_call_at(crate::makefile::references_view(refs@), o as int, 0) == Some(
                k as int,
            ),
            None => first_call_at(crate::makefile::references_view(refs@), o as int, 0) is None,
        },
{
    let ghost rv = crate::makefile::references_view(refs@);
    let mut k: usize = 0;
    while k < refs.len()
        invariant
            k <= refs@.len(),
            rv == crate::makefile::references_view(refs@),
            first_call_at(rv, o as int, 0) == first_call_at(rv, o as int, k as int),
        decreases refs@.len() - k,
    {
        assert(rv[k as int] == refs@[k as int]@);
        let r = &refs[k];
        if r.range.start as usize <= o && o <= r.range.end as usize && r.is_function_call {
            return Some(k);
        }
        k += 1;
    }
    None
}

/// Get signature help for the cursor position.
pub fn get_signature_help(makefile: &Makefile, source_text: &str, position: Position) -> (r: Option<SignatureHelp>)
    requires
        source_text.spec_bytes().len() <= u32::MAX,
    ensures
        match spec_signature_at(source_text@, source_text.spec_bytes(), makefile@.references, position) {
            Some((f, a)) => r matches Some(h) && describes(h, f, a),
            None => r is None,
        },
{
    let offset = try_position_to_offset(source_text, position)?;
    let k = first_call_index(&makefile.references, offset)?;
    assert(makefile@.references[k as int] == makefile.references@[k as int]@);
    let func_name = match &makefile.references[k].name {
        Some(n) => n,
        None => {
            return None;
        },
    };
    let active_param = argument_index_at(source_text, k, offset)?;
    let f = find_builtin_function(func_name.as_str())?;
    let mut parameters: Vec<ParameterInformation> = Vec::new();
    let mut i: usize = 0;
    while i < f.params.len()
        invariant
            i <= f.params@.len(),
            parameters@.len() == i,
            forall|j: int| 0 <= j < i ==> (#[trigger] parameters@[j]).label@ == f.params@[j]@,
        decreases f.params@.len() - i,
    {
        let mut label = String::new();
        push_str(&mut label, f.params[i]);
        parameters.push(ParameterInformation { label });
        i += 1;
    }
    assert(f@.params == strs_view(f.params@));
    let mut label = String::new();
    push_str(&mut label, "$(");
    push_str(&mut label, f.name);
    push_str(&mut label, " ");
    let joined = join_strs(&f.params, ",");
    push_str(&mut label, joined.as_str());
    push_str(&mut label, ")");
    let mut doc = String::new();
    push_str(&mut doc, f.doc);
    let active = active_param as u32;
    let sig = SignatureInformation {
        label,
        documentation: Some(doc),
        parameters: Some(parameters),
        active_parameter: Some(active),
    };
    let mut signatures: Vec<SignatureInformation> = Vec::new();
    signatures.push(sig);
    Some(SignatureHelp { signatures, active_signature: Some(0), active_parameter: Some(active) })
}

} // verus!
