use vct::dict::Vocab;
use vct::error::VctErrorKind;

#[test]
fn decode_simple_entry() {
    let v = Vocab::from_string(String::from("Hund;dog,canine")).unwrap();
    assert_eq!(v.get_name(), "Hund");
    assert_eq!(v.get_meanings(), vec!["dog".to_string(), "canine".to_string()]);
    assert!(v.get_additionals().is_none());
}

#[test]
fn decode_lowercases_meanings() {
    let v = Vocab::from_string(String::from("Haus;House,HOME")).unwrap();
    assert_eq!(v.get_meanings(), vec!["house".to_string(), "home".to_string()]);
    assert_eq!(v.get_name(), "Haus");
}

#[test]
fn decode_lowercases_unicode_meanings() {
    let v = Vocab::from_string(String::from("Apfel;GRÜN,Äpfel")).unwrap();
    assert_eq!(v.get_meanings(), vec!["grün".to_string(), "äpfel".to_string()]);
    assert_eq!(v.get_name(), "Apfel");
}

#[test]
fn decode_with_additionals() {
    let v = Vocab::from_string(String::from("Katze;cat;gender:feminine,plural:Katzen")).unwrap();
    assert_eq!(
        v.get_additionals(),
        Some(vec!["gender:feminine".to_string(), "plural:Katzen".to_string()])
    );
}

#[test]
fn decode_missing_fields_is_error() {
    let e = Vocab::from_string(String::from("Hund")).unwrap_err();
    assert!(matches!(e.kind, VctErrorKind::ParsingError));
    assert_eq!(e.message().as_str(), "parsing error: omitting necessary parts of vocabulary");
}

#[test]
fn decode_empty_line_is_error() {
    assert!(Vocab::from_string(String::new()).is_err());
}

#[test]
fn decode_empty_name_is_error() {
    let e = Vocab::from_string(String::from(";dog")).unwrap_err();
    assert!(matches!(e.kind, VctErrorKind::ParsingError));
    assert_eq!(e.message().as_str(), "parsing error: empty name");
}

#[test]
fn decode_never_yields_empty_name_or_meanings() {
    for line in ["Hund;dog", "a;b,c;d:e", "x;", "Haus;HOME"] {
        let v = Vocab::from_string(String::from(line)).unwrap();
        assert!(!v.get_name().is_empty());
        assert!(!v.get_meanings().is_empty());
    }
}

#[test]
fn decode_empty_meanings_field_keeps_one_empty_token() {
    let v = Vocab::from_string(String::from("Hund;")).unwrap();
    assert_eq!(v.get_meanings(), vec![String::new()]);
}

#[test]
fn malformed_additional_collapses_to_placeholder() {
    let v = Vocab::from_string(String::from("Hund;dog;gender")).unwrap();
    assert_eq!(v.get_additionals(), Some(vec![String::new()]));
    let v = Vocab::from_string(String::from("Hund;dog;a:b:c")).unwrap();
    assert_eq!(v.get_additionals(), Some(vec![String::new()]));
    let v = Vocab::from_string(String::from("Hund;dog;a:b,broken,c:d")).unwrap();
    assert_eq!(
        v.get_additionals(),
        Some(vec!["a:b".to_string(), String::new(), "c:d".to_string()])
    );
}

#[test]
fn encode_without_additionals() {
    let v = Vocab::new(
        String::from("Hund"),
        vec!["dog".to_string(), "canine".to_string()],
        None,
    );
    assert_eq!(v.encode(), "Hund;dog,canine");
}

#[test]
fn encode_with_additionals() {
    let v = Vocab::new(
        String::from("Katze"),
        vec!["cat".to_string()],
        Some(vec!["gender:feminine".to_string()]),
    );
    assert_eq!(v.encode(), "Katze;cat;gender:feminine");
}

#[test]
fn round_trip_decoded_entries() {
    for line in [
        "Hund;dog,canine",
        "Katze;cat;gender:feminine",
        "a;b,c,d;k:v,x:y",
        "Haus;home",
    ] {
        let v = Vocab::from_string(String::from(line)).unwrap();
        let back = Vocab::from_string(v.encode()).unwrap();
        assert_eq!(back, v);
    }
}

#[test]
fn round_trip_keeps_placeholder_additionals() {
    let v = Vocab::from_string(String::from("Hund;dog;gender")).unwrap();
    let back = Vocab::from_string(v.encode()).unwrap();
    assert_eq!(back, v);
}

#[test]
fn encode_checked_accepts_decoded_entries() {
    let v = Vocab::from_string(String::from("Katze;cat;gender:feminine")).unwrap();
    let line = v.encode_checked().expect("decoded entries are reproducible");
    assert_eq!(line, "Katze;cat;gender:feminine");
    assert_eq!(Vocab::from_string(line).unwrap(), v);
}

#[test]
fn encode_checked_rejects_unreproducible_entries() {
    // an unfolded meaning would come back lowercased
    let v = Vocab::new(String::from("Haus"), vec!["HOME".to_string()], None);
    assert!(v.encode_checked().is_none());
    // a separator inside a field would split the line differently
    let v = Vocab::new(String::from("Haus"), vec!["a;b".to_string()], None);
    assert!(v.encode_checked().is_none());
    // a newline inside a field would break the one-entry-per-line layout
    let v = Vocab::new(String::from("Haus"), vec!["a\nb".to_string()], None);
    assert!(v.encode_checked().is_none());
    // an empty meanings list cannot be told apart from one empty meaning
    let v = Vocab::new(String::from("Haus"), Vec::new(), None);
    assert!(v.encode_checked().is_none());
    let v = Vocab::new(String::from("Haus"), vec!["home".to_string()], None);
    assert_eq!(v.encode_checked().as_deref(), Some("Haus;home"));
}

#[test]
fn db_fields_join_with_commas() {
    let v = Vocab::new(
        String::from("Hund"),
        vec!["dog".to_string(), "canine".to_string()],
        Some(vec!["gender:masculine".to_string(), "plural:Hunde".to_string()]),
    );
    let (meanings, additionals) = v.db_fields();
    assert_eq!(meanings, "dog,canine");
    assert_eq!(additionals.as_deref(), Some("gender:masculine,plural:Hunde"));
    let w = Vocab::new(String::from("Hund"), vec!["dog".to_string()], None);
    assert_eq!(w.db_fields(), ("dog".to_string(), None));
}

#[test]
fn error_messages_carry_kind_prefix() {
    let e = vct::error::VctError::new(VctErrorKind::DatabaseError, "no connection");
    assert_eq!(e.message().as_str(), "database error: no connection");
    let e = vct::error::VctError::new(VctErrorKind::FileError, "missing");
    assert_eq!(e.message().as_str(), "file error: missing");
    let e = vct::error::VctError::new(VctErrorKind::ParamError, "bad flag");
    assert_eq!(e.message().as_str(), "parameter error: bad flag");
}
