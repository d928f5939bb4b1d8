use hs_sig::descriptor::TypeDescriptor;
use hs_sig::render::{foreign_import, render, IMPORTS, PREAMBLE};
use hs_sig::signature::Signature;

fn signature(name: &str, types: &[&str]) -> Signature {
    Signature {
        name: name.to_string(),
        ordered_types: types.iter().map(|t| TypeDescriptor { text: t.to_string() }).collect(),
    }
}

fn import_lines(out: &str) -> Vec<&str> {
    out.lines().filter(|line| line.starts_with("foreign import")).collect()
}

#[test]
fn render_single_signature() {
    let out = render("Math", &vec![signature("add", &["Int", "Int", "Int"])]);
    assert!(out.contains("module Math (add) where"));
    assert!(out.contains("foreign import ccall unsafe \"__c_add\" add :: Int -> Int -> Int"));
}

#[test]
fn render_function_without_arguments() {
    let out = render("M", &vec![signature("noop", &["()"])]);
    let lines = import_lines(&out);
    assert_eq!(lines, vec!["foreign import ccall unsafe \"__c_noop\" noop :: ()"]);
    assert!(!lines[0].contains("->"));
}

#[test]
fn render_two_signatures_in_order() {
    let out = render("M", &vec![signature("f", &["Foo", "Bar"]), signature("g", &["Baz"])]);
    assert!(out.contains("module M (f, g) where"));
    assert_eq!(
        import_lines(&out),
        vec![
            "foreign import ccall unsafe \"__c_f\" f :: Foo -> Bar",
            "foreign import ccall unsafe \"__c_g\" g :: Baz",
        ]
    );
}

#[test]
fn render_whole_module() {
    let out = render("Lib", &vec![signature("f", &["CInt", "IO (())"]), signature("g", &["()"])]);
    let expected = "-- This file was generated by `hs-bindgen` crate and contain C FFI bindings
-- wrappers for every Rust function annotated with `#[hs_bindgen]`

{-# LANGUAGE ForeignFunctionInterface #-}

-- Why not rather using `{-# LANGUAGE CApiFFI #-}` language extension?
--
-- * Because it's GHC specific and not part of the Haskell standard:
--   https://ghc.gitlab.haskell.org/ghc/doc/users_guide/exts/ffi.html ;
--
-- * Because the capabilities it gave (by rather works on top of symbols of a C
--   header file) can't work in our case. Maybe we want a future with an
--   {-# LANGUAGE RustApiFFI #-} language extension that would enable us to
--   work on top of a `.rs` source file (or a `.rlib`, but this is unlikely as
--   this format has purposely no public specifications).

{-# OPTIONS_GHC -Wno-unused-imports #-}

module Lib (f, g) where

import Data.Int
import Data.Word
import Foreign.C.String
import Foreign.C.Types
import Foreign.Ptr

foreign import ccall unsafe \"__c_f\" f :: CInt -> IO (())
foreign import ccall unsafe \"__c_g\" g :: ()";
    assert_eq!(out, expected);
}

#[test]
fn render_without_signatures() {
    let out = render("Empty", &vec![]);
    assert_eq!(out, format!("{}module Empty () where{}", PREAMBLE, IMPORTS));
}

#[test]
fn render_twice_gives_the_same_text() {
    let sigs = vec![signature("f", &["Foo", "Bar"]), signature("g", &["Baz"])];
    assert_eq!(render("M", &sigs), render("M", &sigs));
}

#[test]
fn render_follows_the_order_of_the_signatures() {
    let out = render("M", &vec![signature("g", &["Baz"]), signature("f", &["Foo", "Bar"])]);
    assert!(out.contains("module M (g, f) where"));
    assert_eq!(
        import_lines(&out),
        vec![
            "foreign import ccall unsafe \"__c_g\" g :: Baz",
            "foreign import ccall unsafe \"__c_f\" f :: Foo -> Bar",
        ]
    );
}

#[test]
fn render_neither_sorts_nor_drops_repeated_names() {
    let out = render("M", &vec![signature("b", &["X"]), signature("a", &["Y"]), signature("b", &["X"])]);
    assert!(out.contains("module M (b, a, b) where"));
    assert_eq!(import_lines(&out).len(), 3);
}

#[test]
fn render_holds_each_import_line() {
    let sigs = vec![signature("f", &["Foo", "Bar"]), signature("g", &["Baz"])];
    let out = render("M", &sigs);
    for sig in &sigs {
        let types: Vec<String> = sig.ordered_types.iter().map(|t| t.text.clone()).collect();
        let line = format!(
            "foreign import ccall unsafe \"__c_{}\" {} :: {}",
            sig.name,
            sig.name,
            types.join(" -> ")
        );
        assert!(out.contains(&line));
    }
}

#[test]
fn render_parsed_signatures() {
    let sigs = vec![
        Signature::parse("length :: CString -> CULong").unwrap().unwrap(),
        Signature::parse("hello :: IO ()").unwrap().unwrap(),
    ];
    let out = render("Greetings", &sigs);
    assert!(out.contains("module Greetings (length, hello) where"));
    assert_eq!(
        import_lines(&out),
        vec![
            "foreign import ccall unsafe \"__c_length\" length :: CString -> CULong",
            "foreign import ccall unsafe \"__c_hello\" hello :: IO (())",
        ]
    );
}

#[test]
fn foreign_import_names_symbol_and_binding() {
    assert_eq!(
        foreign_import(&signature("add", &["Int", "Int", "Int"])),
        "foreign import ccall unsafe \"__c_add\" add :: Int -> Int -> Int"
    );
}
