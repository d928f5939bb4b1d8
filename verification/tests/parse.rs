use hs_sig::descriptor::{can_read, is_narrow, recognize_token, TypeDescriptor};
use hs_sig::error::Error;
use hs_sig::signature::{is_valid_name, split_signature, Signature};

fn parse(raw: &str) -> Result<Signature, Error> {
    Signature::parse(raw).expect("a type cannot be cut between characters")
}

fn texts_of(sig: &Signature) -> Vec<String> {
    sig.ordered_types.iter().map(|ty| ty.text.clone()).collect()
}

fn descriptor(text: &str) -> TypeDescriptor {
    TypeDescriptor { text: text.to_string() }
}

#[test]
fn parse_keeps_name_and_types_in_order() {
    let sig = parse("add :: CInt -> CUInt -> CLong").unwrap();
    assert_eq!(sig.name, "add");
    assert_eq!(texts_of(&sig), vec!["CInt", "CUInt", "CLong"]);
}

#[test]
fn parse_single_type_is_a_function_without_arguments() {
    let sig = parse("noop :: ()").unwrap();
    assert_eq!(sig.name, "noop");
    assert_eq!(texts_of(&sig), vec!["()"]);
}

#[test]
fn parse_names_types_as_the_recogniser_does() {
    let sig = parse("peek :: Ptr CChar -> IO ()").unwrap();
    assert_eq!(sig.name, "peek");
    assert_eq!(texts_of(&sig), vec!["Ptr (CChar)", "IO (())"]);
}

#[test]
fn parse_trims_whitespace_around_separators() {
    let sig = parse("  \tinc   ::\n CInt   ->\tCInt  ").unwrap();
    assert_eq!(sig.name, "inc");
    assert_eq!(texts_of(&sig), vec!["CInt", "CInt"]);
}

#[test]
fn parse_trims_unicode_whitespace_around_the_name() {
    let sig = parse("\u{a0}inc\u{2003}:: CInt").unwrap();
    assert_eq!(sig.name, "inc");
}

#[test]
fn parse_without_separator_is_missing_sig() {
    assert_eq!(parse("bad_sig"), Err(Error::MissingSig));
    assert_eq!(parse(""), Err(Error::MissingSig));
    assert_eq!(parse("f : CInt"), Err(Error::MissingSig));
}

#[test]
fn parse_without_types_is_malformed_sig() {
    assert_eq!(parse("f ::"), Err(Error::MalformedSig("f ::".to_string())));
    assert_eq!(parse("f ::  \t"), Err(Error::MalformedSig("f ::  \t".to_string())));
}

#[test]
fn parse_with_second_separator_is_malformed_sig() {
    assert_eq!(
        parse("f :: X :: Y"),
        Err(Error::MalformedSig("f :: X :: Y".to_string()))
    );
    assert_eq!(
        parse("f :: CInt :: CInt"),
        Err(Error::MalformedSig("f :: CInt :: CInt".to_string()))
    );
    assert_eq!(parse("f ::::"), Err(Error::MalformedSig("f ::::".to_string())));
}

#[test]
fn parse_counts_separators_from_the_left() {
    match parse("f:::") {
        Err(Error::HsType(message)) => assert!(message.contains("`:`")),
        other => panic!("unexpected: {:?}", other),
    }
}

#[test]
fn parse_unknown_type_is_hs_type_error() {
    match parse("f :: CInt -> Foo -> Bar") {
        Err(Error::HsType(message)) => {
            assert!(message.contains("`Foo`"));
            assert!(!message.contains("Bar"));
        }
        other => panic!("unexpected: {:?}", other),
    }
}

#[test]
fn parse_empty_type_is_left_to_the_recogniser() {
    assert!(matches!(parse("f :: CInt -> -> CInt"), Err(Error::HsType(_))));
}

#[test]
fn parse_unmatched_parenthesis_is_hs_type_error() {
    match parse("f :: Ptr (CInt") {
        Err(Error::HsType(message)) => assert!(message.contains("without the matching closing")),
        other => panic!("unexpected: {:?}", other),
    }
}

#[test]
fn parse_without_name_is_malformed_sig() {
    assert_eq!(parse(":: CInt"), Err(Error::MalformedSig(":: CInt".to_string())));
    assert_eq!(
        parse(" \t :: CInt -> CInt"),
        Err(Error::MalformedSig(" \t :: CInt -> CInt".to_string()))
    );
}

#[test]
fn parse_reports_a_refused_type_before_the_name() {
    match parse(":::") {
        Err(Error::HsType(message)) => assert!(message.contains("`:`")),
        other => panic!("unexpected: {:?}", other),
    }
    match parse(" :: CInt -> Foo") {
        Err(Error::HsType(message)) => assert!(message.contains("`Foo`")),
        other => panic!("unexpected: {:?}", other),
    }
    match parse("a -> b :: Foo") {
        Err(Error::HsType(message)) => assert!(message.contains("`Foo`")),
        other => panic!("unexpected: {:?}", other),
    }
}

#[test]
fn parse_reports_the_shape_before_a_refused_type() {
    assert_eq!(parse("f :: Foo :: Bar"), Err(Error::MalformedSig("f :: Foo :: Bar".to_string())));
    assert_eq!(parse(" :: Foo :: "), Err(Error::MalformedSig(" :: Foo :: ".to_string())));
}

#[test]
fn parse_hands_over_no_type_behind_a_refused_one() {
    match Signature::parse("f :: Foo -> é") {
        Some(Err(Error::HsType(message))) => assert!(message.contains("`Foo`")),
        other => panic!("unexpected: {:?}", other),
    }
    match Signature::parse("f :: CInt -> Foo -> aé -> é") {
        Some(Err(Error::HsType(message))) => assert!(message.contains("`Foo`")),
        other => panic!("unexpected: {:?}", other),
    }
    assert_eq!(Signature::parse("f :: é -> Foo"), None);
    assert_eq!(Signature::parse("f :: CInt -> é -> Foo"), None);
    assert_eq!(Signature::parse(" :: é"), None);
}

#[test]
fn parse_with_arrow_in_name_is_malformed_sig() {
    assert_eq!(
        parse("a -> b :: CInt"),
        Err(Error::MalformedSig("a -> b :: CInt".to_string()))
    );
    assert_eq!(parse("->:: CInt"), Err(Error::MalformedSig("->:: CInt".to_string())));
    assert!(parse("a - > b :: CInt").is_ok());
}

#[test]
fn parse_gives_a_valid_name_and_a_type() {
    for raw in ["f :: CInt", "  g\t::CInt->CInt", "h :: IO ()", "a-b>c :: CBool"] {
        let sig = parse(raw).unwrap();
        assert!(!sig.name.is_empty());
        assert_eq!(sig.name, sig.name.trim());
        assert!(!sig.name.contains("::"));
        assert!(!sig.name.contains("->"));
        assert!(!sig.ordered_types.is_empty());
    }
}

#[test]
fn split_signature_cuts_name_and_types() {
    assert_eq!(
        split_signature("f :: A -> B"),
        Ok(("f".to_string(), vec!["A".to_string(), "B".to_string()]))
    );
    assert_eq!(
        split_signature(" g::Foo->  ->Bar "),
        Ok(("g".to_string(), vec!["Foo".to_string(), "".to_string(), "Bar".to_string()]))
    );
    assert_eq!(split_signature("é :: ü"), Ok(("é".to_string(), vec!["ü".to_string()])));
}

#[test]
fn split_signature_reports_shape() {
    assert_eq!(split_signature("bad_sig"), Err(Error::MissingSig));
    assert_eq!(split_signature("f ::"), Err(Error::MalformedSig("f ::".to_string())));
    assert_eq!(split_signature(" :: A"), Ok(("".to_string(), vec!["A".to_string()])));
    assert_eq!(split_signature("f->g :: A"), Ok(("f->g".to_string(), vec!["A".to_string()])));
    assert_eq!(
        split_signature("f :: X :: Y"),
        Err(Error::MalformedSig("f :: X :: Y".to_string()))
    );
}

#[test]
fn assemble_keeps_types_in_order() {
    let sig = Signature::assemble(
        "f :: A -> B -> C",
        "f".to_string(),
        vec![Ok(descriptor("A")), Ok(descriptor("B")), Ok(descriptor("C"))],
    )
    .unwrap();
    assert_eq!(sig.name, "f");
    assert_eq!(texts_of(&sig), vec!["A", "B", "C"]);
}

#[test]
fn assemble_reports_first_failure() {
    let res = Signature::assemble(
        "f :: A -> x -> y",
        "f".to_string(),
        vec![Ok(descriptor("A")), Err("first".to_string()), Err("second".to_string())],
    );
    assert_eq!(res, Err(Error::HsType("first".to_string())));
}

#[test]
fn to_text_writes_the_signature() {
    let sig = Signature {
        name: "add".to_string(),
        ordered_types: vec![descriptor("Int"), descriptor("Int"), descriptor("Int")],
    };
    assert_eq!(sig.to_text(), "add :: Int -> Int -> Int");
    let noop = Signature { name: "noop".to_string(), ordered_types: vec![descriptor("()")] };
    assert_eq!(noop.to_text(), "noop :: ()");
}

#[test]
fn to_text_of_parsed_signature() {
    let sig = parse("get::CInt->IO CInt").unwrap();
    assert_eq!(sig.to_text(), "get :: CInt -> IO (CInt)");
}

#[test]
fn parse_reads_nothing_where_a_type_would_be_cut_inside_a_character() {
    assert_eq!(Signature::parse("f :: é"), None);
    assert_eq!(Signature::parse("f :: aé"), None);
    assert_eq!(Signature::parse("f :: abé"), None);
    assert_eq!(Signature::parse("f :: CInt -> IO ü"), None);
    assert_eq!(Signature::parse("f :: Ptr (ü)"), None);
}

#[test]
fn parse_hands_other_types_to_the_recogniser() {
    match Signature::parse("f :: CIntü") {
        Some(Err(Error::HsType(message))) => assert!(message.contains("`CIntü`")),
        other => panic!("unexpected: {:?}", other),
    }
    let sig = Signature::parse("f :: IO\u{a0}CInt -> \u{a0}CInt\u{a0}").unwrap().unwrap();
    assert_eq!(texts_of(&sig), vec!["IO (CInt)", "CInt"]);
    assert!(matches!(Signature::parse("f :: (ü"), Some(Err(Error::HsType(_)))));
}

#[test]
fn can_read_follows_the_cuts_of_the_recogniser() {
    for token in ["", "  ", "()", "(", "CInt", "IO ()", "Ptr (Ptr CChar)", "abcé", "C"] {
        assert!(can_read(token), "{:?}", token);
    }
    for token in ["é", " é ", "aé", "abé", "IOé", "IO aé", "Ptré", "(é)", "( abé )", "Ptr IO (é)"] {
        assert!(!can_read(token), "{:?}", token);
    }
    for token in ["Ptrx é", "IOxé", "(IO é)"] {
        assert!(!can_read(token), "{:?}", token);
    }
    for token in ["(é", "Ptr\u{2003}(CInt)", "IO (abcé)", "xyzé", "(abc é", "Ptr(IO(abcé))"] {
        assert!(can_read(token), "{:?}", token);
    }
}

#[test]
fn what_can_be_read_reaches_the_recogniser() {
    for token in [
        "()", "(", ")", "CInt", "IO ()", "Ptr (Ptr CChar)", "abcé", "C", "(é", "IO (abcé)",
        "Ptr\u{2003}(CInt)", "xyzé", "(abc é", "Ptr(IO(abcé))", "IO", "Ptr", "((()))", "IOIOIO",
    ] {
        assert!(can_read(token), "{:?}", token);
        let raw = format!("f :: {} -> {}", token, token);
        assert!(Signature::parse(&raw).is_some(), "{:?}", token);
    }
}

#[test]
fn is_narrow_is_one_byte_in_utf8() {
    for code in 0u32..0x3000 {
        if let Some(c) = char::from_u32(code) {
            assert_eq!(is_narrow(c), c.len_utf8() == 1, "U+{:04X}", code);
        }
    }
}

#[test]
fn parse_reports_shape_before_unreadable_types() {
    assert_eq!(Signature::parse("é"), Some(Err(Error::MissingSig)));
    assert_eq!(
        Signature::parse("f :: é :: ü"),
        Some(Err(Error::MalformedSig("f :: é :: ü".to_string())))
    );
}

#[test]
fn assemble_reports_an_invalid_name_behind_the_types() {
    let accepted = || vec![Ok(descriptor("A"))];
    for name in ["", " f", "f ", "a::b", "a->b"] {
        assert_eq!(
            Signature::assemble("raw text", name.to_string(), accepted()),
            Err(Error::MalformedSig("raw text".to_string())),
            "{:?}",
            name
        );
        assert_eq!(
            Signature::assemble("raw text", name.to_string(), vec![Err("refused".to_string())]),
            Err(Error::HsType("refused".to_string())),
            "{:?}",
            name
        );
    }
    assert_eq!(
        Signature::assemble("raw text", "f".to_string(), vec![]),
        Err(Error::MalformedSig("raw text".to_string()))
    );
}

#[test]
fn is_valid_name_asks_for_a_trimmed_name_without_separators() {
    for name in ["f", "a b", "a-b>c", "é", "a:b"] {
        assert!(is_valid_name(name), "{:?}", name);
    }
    for name in ["", " ", " f", "f\t", "a::b", "a->b", "->", "::"] {
        assert!(!is_valid_name(name), "{:?}", name);
    }
}

#[test]
fn recognize_token_asks_the_recogniser_where_it_can() {
    assert_eq!(recognize_token("Ptr CInt"), Some(Ok(descriptor("Ptr (CInt)"))));
    assert_eq!(recognize_token(" () "), Some(Ok(descriptor("()"))));
    assert!(matches!(recognize_token("Foo"), Some(Err(_))));
    assert!(matches!(recognize_token(""), Some(Err(_))));
    assert!(matches!(recognize_token("abcé"), Some(Err(_))));
    assert_eq!(recognize_token("é"), None);
    assert_eq!(recognize_token("IO é"), None);
}
