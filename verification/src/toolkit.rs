use vstd::prelude::*;

use crate::error::ComposeError;
use naga::back::wgsl::{write_string, WriterFlags};
use naga::front::glsl::{Frontend, Options};
use naga::front::wgsl::parse_str;
use naga::valid::Validator;

verus! {

#[verifier::external_type_specification]
#[verifier::external_body]
pub struct ExModule(naga::Module);

#[verifier::external_type_specification]
#[verifier::external_body]
pub struct ExWgslParseError(naga::front::wgsl::ParseError);

#[verifier::external_type_specification]
#[verifier::external_body]
pub struct ExGlslParseErrors(naga::front::glsl::ParseErrors);

/// Whether the canonical-dialect parser accepts this source text.
pub uninterp spec fn wgsl_accepts(source: Seq<u8>) -> bool;

/// Whether the module parsed from this canonical-dialect text validates.
pub uninterp spec fn wgsl_valid(source: Seq<u8>) -> bool;

/// Whether the validated module of this canonical-dialect text emits.
pub uninterp spec fn wgsl_emits(source: Seq<u8>) -> bool;

/// The canonical re-emission of this canonical-dialect text.
pub uninterp spec fn wgsl_canonical_of(source: Seq<u8>) -> Seq<u8>;

/// Whether the C-style-dialect parser accepts this source text.
pub uninterp spec fn glsl_accepts(source: Seq<u8>) -> bool;

/// Whether the module parsed from this C-style-dialect text validates.
pub uninterp spec fn glsl_valid(source: Seq<u8>) -> bool;

/// Whether the validated module of this C-style-dialect text emits.
pub uninterp spec fn glsl_emits(source: Seq<u8>) -> bool;

/// The canonical-dialect re-emission of this C-style-dialect text.
pub uninterp spec fn glsl_canonical_of(source: Seq<u8>) -> Seq<u8>;

/// Relies on naga's `front::wgsl::parse_str` to build a module from
/// canonical-dialect source text; whether it succeeds depends on the
/// source bytes alone.
#[verifier::external_body]
pub(crate) fn parse_wgsl(source: &Vec<u8>) -> (r: Result<
    naga::Module,
    naga::front::wgsl::ParseError,
>)
    ensures
        r is Ok <==> wgsl_accepts(source@),
{
    naga::front::wgsl::parse_str(&String::from_utf8_lossy(source.as_slice()))
}

/// Relies on naga's `front::wgsl::ParseError::emit_to_string` to render a
/// canonical-dialect diagnostic against the source it arose from.
#[verifier::external_body]
pub(crate) fn render_wgsl_error(
    error: &naga::front::wgsl::ParseError,
    source: &Vec<u8>,
) -> String {
    error.emit_to_string(&String::from_utf8_lossy(source.as_slice()))
}

/// Relies on naga's `front::wgsl::parse_str`, `valid::Validator::validate`
/// (default flags and capabilities) and `back::wgsl::write_string` (empty
/// writer flags), run in that order and stopping at the first failure.
/// Each stage's outcome, and the emitted text, depend on the source bytes
/// alone.
#[verifier::external_body]
pub(crate) fn emit_canonical(source: &Vec<u8>) -> (r: Result<Vec<u8>, ComposeError>)
    ensures
        r is Ok <==> (wgsl_accepts(source@) && wgsl_valid(source@) && wgsl_emits(source@)),
        r matches Ok(o) ==> o@ == wgsl_canonical_of(source@),
        r matches Err(e) ==> (e is DialectAParse <==> !wgsl_accepts(source@)),
        r matches Err(e) ==> (e is Validation <==> (wgsl_accepts(source@) && !wgsl_valid(
        source@))),
        r matches Err(e) ==> (e is Emission <==> (wgsl_accepts(source@) && wgsl_valid(source@)
            && !wgsl_emits(source@))),
{
    let text = String::from_utf8_lossy(source.as_slice());
    let module = match parse_str(&text) { Ok(m) => m, Err(e) => return Err(ComposeError::DialectAParse { rendered: e.emit_to_string(&text) }) };
    let mut v = Validator::new(Default::default(), Default::default());
    let info = match v.validate(&module) { Ok(i) => i, Err(e) => return Err(ComposeError::Validation { message: format!("{e}") }) };
    match write_string(&module, &info, WriterFlags::empty()) { Ok(o) => Ok(o.into_bytes()), Err(e) => Err(ComposeError::Emission { message: format!("{e}") }) }
}

/// Relies on naga's `front::glsl::Frontend::parse` (a fixed configuration:
/// fragment stage, no preprocessor definitions), `valid::Validator::validate`
/// (default flags and capabilities) and `back::wgsl::write_string` (empty
/// writer flags), run in that order and stopping at the first failure.
/// Each stage's outcome, and the emitted text, depend on the source bytes
/// alone. A parse failure keeps the count of underlying causes and the
/// first cause rendered with its std `Display` form.
#[verifier::external_body]
pub(crate) fn glsl_to_canonical(source: &Vec<u8>) -> (r: Result<Vec<u8>, ComposeError>)
    ensures
        r is Ok <==> (glsl_accepts(source@) && glsl_valid(source@) && glsl_emits(source@)),
        r matches Ok(o) ==> o@ == glsl_canonical_of(source@),
        r matches Err(e) ==> (e is DialectBParse <==> !glsl_accepts(source@)),
        r matches Err(e) ==> (e is Validation <==> (glsl_accepts(source@) && !glsl_valid(
        source@))),
        r matches Err(e) ==> (e is Emission <==> (glsl_accepts(source@) && glsl_valid(source@)
            && !glsl_emits(source@))),
{
    let text = String::from_utf8_lossy(source.as_slice());
    let opts = Options { stage: naga::ShaderStage::Fragment, defines: Default::default() };
    let module = match Frontend::default().parse(&opts, &text) { Ok(m) => m, Err(es) => return Err(bparse_error(es)) };
    let mut v = Validator::new(Default::default(), Default::default());
    let info = match v.validate(&module) { Ok(i) => i, Err(e) => return Err(ComposeError::Validation { message: format!("{e}") }) };
    match write_string(&module, &info, WriterFlags::empty()) { Ok(o) => Ok(o.into_bytes()), Err(e) => Err(ComposeError::Emission { message: format!("{e}") }) }
}

/// Relies on naga's `front::glsl::ParseErrors`: its `errors` field holds the
/// underlying causes; the count is kept, and the first cause is rendered
/// with its std `Display` form.
#[verifier::external_body]
fn bparse_error(errors: naga::front::glsl::ParseErrors) -> ComposeError {
    let first = errors.errors.first().map(|e| format!("{e}"));
    ComposeError::DialectBParse { count: errors.errors.len(), first }
}

} // verus!
