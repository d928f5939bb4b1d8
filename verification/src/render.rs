//! The Haskell module that imports the functions of a list of signatures.

use crate::signature::{signature_text, Signature, SignatureView};
use crate::text::{join, join_with, texts};
use vstd::prelude::*;

verus! {

/// What every module starts with: a notice, and the language extension and
/// the compiler option that foreign imports need.
pub const PREAMBLE: &'static str =
    "-- This file was generated by `hs-bindgen` crate and contain C FFI bindings
-- wrappers for every Rust function annotated with `#[hs_bindgen]`

{-# LANGUAGE ForeignFunctionInterface #-}

-- Why not rather using `{-# LANGUAGE CApiFFI #-}` language extension?
--
-- * Because it's GHC specific and not part of the Haskell standard:
--   https://ghc.gitlab.haskell.org/ghc/doc/users_guide/exts/ffi.html ;
--
-- * Because the capabilities it gave (by rather works on top of symbols of a C
--   header file) can't work in our case. Maybe we want a future with an
--   {-# LANGUAGE RustApiFFI #-} language extension that would enable us to
--   work on top of a `.rs` source file (or a `.rlib`, but this is unlikely as
--   this format has purposely no public specifications).

{-# OPTIONS_GHC -Wno-unused-imports #-}

";

/// The modules that the foreign imports of every module rest on.
pub const IMPORTS: &'static str =
    "

import Data.Int
import Data.Word
import Foreign.C.String
import Foreign.C.Types
import Foreign.Ptr

";

/// What each signature of `sigs` holds.
pub open spec fn signature_views(sigs: Seq<Signature>) -> Seq<SignatureView> {
    Seq::new(sigs.len(), |i: int| sigs[i]@)
}

/// The names of `sigs`, in their order.
pub open spec fn export_names(sigs: Seq<SignatureView>) -> Seq<Seq<char>> {
    Seq::new(sigs.len(), |i: int| sigs[i].name)
}

/// The line that imports the function of `sig`: the native symbol is the
/// name behind `__c_`.
pub open spec fn import_line(sig: SignatureView) -> Seq<char> {
    "foreign import ccall unsafe \"__c_"@ + sig.name + "\" "@ + signature_text(sig)
}

/// The import lines of `sigs`, in their order.
pub open spec fn import_lines(sigs: Seq<SignatureView>) -> Seq<Seq<char>> {
    Seq::new(sigs.len(), |i: int| import_line(sigs[i]))
}

/// The line that opens the module `module` and exports `names`.
pub open spec fn module_header(module: Seq<char>, names: Seq<Seq<char>>) -> Seq<char> {
    "module "@ + module + " ("@ + join(names, ", "@) + ") where"@
}

/// The text of the module `module` for `sigs`: the preamble, the header with
/// the names, the imports, and one import line for each signature.
pub open spec fn rendered(module: Seq<char>, sigs: Seq<SignatureView>) -> Seq<char> {
    PREAMBLE@ + module_header(module, export_names(sigs)) + IMPORTS@ + join(
        import_lines(sigs),
        "\n"@,
    )
}

/// The line that imports the function of `sig`.
pub fn foreign_import(sig: &Signature) -> (line: String)
    ensures
        line@ == import_line(sig@),
{
    let mut line: String = String::from_str("foreign import ccall unsafe \"__c_");
    line.append(sig.name.as_str());
    line.append("\" ");
    let written: String = sig.to_text();
    line.append(written.as_str());
    line
}

/// The text of the module `module_name` that imports the functions of
/// `signatures`, in their order.
pub fn render(module_name: &str, signatures: &[Signature]) -> (out: String)
    ensures
        out@ == rendered(module_name@, signature_views(signatures@)),
{
    let ghost views = signature_views(signatures@);
    let mut names: Vec<String> = Vec::new();
    let mut lines: Vec<String> = Vec::new();
    let mut i: usize = 0;
    while i < signatures.len()
        invariant
            i <= signatures.len(),
            views == signature_views(signatures@),
            names@.len() == i,
            lines@.len() == i,
            forall|j: int| 0 <= j < i ==> (#[trigger] names@[j])@ == views[j].name,
            forall|j: int| 0 <= j < i ==> (#[trigger] lines@[j])@ == import_line(views[j]),
        decreases signatures.len() - i,
    {
        names.push(signatures[i].name.clone());
        lines.push(foreign_import(&signatures[i]));
        i += 1;
    }
    assert(texts(names@) =~= export_names(views));
    assert(texts(lines@) =~= import_lines(views));
    let exports: String = join_with(&names, ", ");
    let block: String = join_with(&lines, "\n");
    let mut header: String = String::from_str("module ");
    header.append(module_name);
    header.append(" (");
    header.append(exports.as_str());
    header.append(") where");
    let mut out: String = String::from_str(PREAMBLE);
    out.append(header.as_str());
    out.append(IMPORTS);
    out.append(block.as_str());
    out
}

} // verus!
