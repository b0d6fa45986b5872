use vct::dict::{DbRow, Vocab};
use vct::dict::{load_vocab_from_rows, load_vocab_from_text};
use vct::error::VctErrorKind;
use vct::query::{query, query_db_rows, query_text};

#[test]
fn load_empty_text_is_empty_list() {
    assert_eq!(load_vocab_from_text("").unwrap(), Vec::<Vocab>::new());
}

#[test]
fn load_empty_rows_is_empty_list() {
    assert_eq!(load_vocab_from_rows(&Vec::new()).unwrap(), Vec::<Vocab>::new());
}

#[test]
fn load_text_decodes_every_line() {
    let vs = load_vocab_from_text("Hund;dog,canine\nKatze;cat;gender:feminine\n").unwrap();
    assert_eq!(vs.len(), 2);
    assert_eq!(vs[0].get_name(), "Hund");
    assert_eq!(vs[1].get_name(), "Katze");
    assert_eq!(vs[1].get_additionals(), Some(vec!["gender:feminine".to_string()]));
}

#[test]
fn load_text_skips_blank_lines() {
    let vs = load_vocab_from_text("\nHund;dog\n\n\nKatze;cat\n").unwrap();
    assert_eq!(vs.len(), 2);
}

#[test]
fn load_text_strips_carriage_returns() {
    let vs = load_vocab_from_text("Hund;dog\r\nKatze;cat\r\n").unwrap();
    assert_eq!(vs.len(), 2);
    assert_eq!(vs[0].get_meanings(), vec!["dog".to_string()]);
}

#[test]
fn load_text_propagates_first_parse_error() {
    let e = load_vocab_from_text("Hund;dog\nbroken\nKatze;cat").unwrap_err();
    assert!(matches!(e.kind, VctErrorKind::ParsingError));
}

#[test]
fn appending_an_encoded_line_appends_one_record() {
    let contents = "Hund;dog\nKatze;cat\n".to_string();
    let before = load_vocab_from_text(contents.as_str()).unwrap();
    let new_entry = Vocab::from_string(String::from("Baum;tree")).unwrap();
    let appended = format!("{}{}\n", contents, new_entry.encode());
    let after = load_vocab_from_text(appended.as_str()).unwrap();
    assert_eq!(after.len(), before.len() + 1);
    assert_eq!(&after[..before.len()], &before[..]);
    assert_eq!(after[before.len()], new_entry);
}

#[test]
fn load_rows_rebuilds_lines() {
    let rows = vec![
        DbRow {
            name: "Hund".to_string(),
            meanings: "dog,canine".to_string(),
            additionals: None,
        },
        DbRow {
            name: "Katze".to_string(),
            meanings: "cat".to_string(),
            additionals: Some("gender:feminine".to_string()),
        },
    ];
    let vs = load_vocab_from_rows(&rows).unwrap();
    assert_eq!(vs.len(), 2);
    assert_eq!(vs[0].get_meanings(), vec!["dog".to_string(), "canine".to_string()]);
    assert_eq!(vs[1].get_additionals(), Some(vec!["gender:feminine".to_string()]));
}

#[test]
fn load_rows_rejects_bad_row() {
    let rows = vec![DbRow {
        name: String::new(),
        meanings: "dog".to_string(),
        additionals: None,
    }];
    let e = load_vocab_from_rows(&rows).unwrap_err();
    assert!(matches!(e.kind, VctErrorKind::ParsingError));
}

#[test]
fn query_finds_only_matching_entries() {
    let files = vec!["Hund;dog,canine\nKatze;cat\n".to_string()];
    let found = query(&Vec::new(), &files, "dog");
    assert_eq!(found.len(), 1);
    assert_eq!(found[0].get_name(), "Hund");
}

#[test]
fn query_matches_rows_on_name_or_meanings() {
    let rows = vec![
        DbRow {
            name: "Hund".to_string(),
            meanings: "dog,canine".to_string(),
            additionals: None,
        },
        DbRow {
            name: "Katze".to_string(),
            meanings: "cat".to_string(),
            additionals: None,
        },
    ];
    let by_meaning = query_db_rows(&rows, "dog");
    assert_eq!(by_meaning.len(), 1);
    assert_eq!(by_meaning[0].get_name(), "Hund");
    let by_name = query_db_rows(&rows, "Katz");
    assert_eq!(by_name.len(), 1);
    assert_eq!(by_name[0].get_name(), "Katze");
}

#[test]
fn query_database_results_come_first() {
    let rows = vec![DbRow {
        name: "Hund".to_string(),
        meanings: "dog".to_string(),
        additionals: None,
    }];
    let files = vec!["Pferd;horse,dog-like\n".to_string()];
    let found = query(&rows, &files, "dog");
    assert_eq!(found.len(), 2);
    assert_eq!(found[0].get_name(), "Hund");
    assert_eq!(found[1].get_name(), "Pferd");
}

#[test]
fn query_skips_undecodable_lines() {
    let found = query_text("dog-gone\nHund;dog\n", "dog");
    assert_eq!(found.len(), 1);
    assert_eq!(found[0].get_name(), "Hund");
}

#[test]
fn query_empty_pattern_returns_all_decodable() {
    let found = query_text("Hund;dog\nKatze;cat\n", "");
    assert_eq!(found.len(), 2);
}

#[test]
fn query_is_case_sensitive_on_raw_text() {
    let found = query_text("Hund;dog\n", "DOG");
    assert!(found.is_empty());
}
