use vct::dict::Vocab;
use vct::question::{AnswerMode, Feedback, Prompt, Session};

fn entry(line: &str) -> Vocab {
    Vocab::from_string(String::from(line)).unwrap()
}

#[test]
fn mode_all_asks_every_meaning() {
    let mut s = Session::new(vec![entry("Hund;dog,canine")], AnswerMode::All, true);
    match s.next_prompt() {
        Some(Prompt::Meaning { name, done, total }) => {
            assert_eq!(name, "Hund");
            assert_eq!(done, 0);
            assert_eq!(total, 2);
        }
        p => panic!("unexpected prompt {:?}", p),
    }
    assert!(matches!(s.submit("dog"), Feedback::Correct));
    match s.next_prompt() {
        Some(Prompt::Meaning { done, .. }) => assert_eq!(done, 1),
        p => panic!("unexpected prompt {:?}", p),
    }
    assert!(matches!(s.submit("canine"), Feedback::Correct));
    assert!(s.is_complete());
    assert_eq!(s.score(), (1, 0));
}

#[test]
fn mode_one_ends_phase_on_first_match() {
    let mut s = Session::new(vec![entry("Hund;dog,canine")], AnswerMode::One, true);
    assert!(matches!(s.submit("dog"), Feedback::Correct));
    assert!(s.is_complete());
    assert!(s.next_prompt().is_none());
    assert_eq!(s.score(), (1, 0));
}

#[test]
fn matching_is_case_insensitive() {
    let mut s = Session::new(vec![entry("Haus;haus")], AnswerMode::One, true);
    assert!(matches!(s.submit("HAUS"), Feedback::Correct));
    assert!(s.is_complete());
    assert_eq!(s.score(), (1, 0));
}

#[test]
fn matching_is_case_insensitive_beyond_ascii() {
    let mut s = Session::new(vec![entry("Apfel;grün")], AnswerMode::One, true);
    assert!(matches!(s.submit("GRÜN"), Feedback::Correct));
    assert!(s.is_complete());
    assert_eq!(s.score(), (1, 0));
}

#[test]
fn wrong_meaning_reveals_list_and_scores_nothing() {
    let mut s = Session::new(vec![entry("Hund;dog,canine")], AnswerMode::All, true);
    match s.submit("cat") {
        Feedback::WrongMeaning { meanings } => {
            assert_eq!(meanings, vec!["dog".to_string(), "canine".to_string()]);
        }
        fb => panic!("unexpected feedback {:?}", fb),
    }
    assert!(s.is_complete());
    assert_eq!(s.score(), (0, 0));
}

#[test]
fn repeated_correct_answer_is_already_used() {
    let mut s = Session::new(vec![entry("Hund;dog,canine")], AnswerMode::All, true);
    assert!(matches!(s.submit("dog"), Feedback::Correct));
    assert!(matches!(s.submit("dog"), Feedback::AlreadyUsed));
    assert_eq!(s.score(), (0, 0));
    assert!(matches!(s.submit("canine"), Feedback::Correct));
    assert_eq!(s.score(), (1, 0));
}

#[test]
fn correct_additional_counts() {
    let mut s = Session::new(vec![entry("Katze;cat;gender:feminine")], AnswerMode::One, true);
    assert!(matches!(s.submit("cat"), Feedback::Correct));
    match s.next_prompt() {
        Some(Prompt::Additional { name, key }) => {
            assert_eq!(name, "Katze");
            assert_eq!(key, "gender");
        }
        p => panic!("unexpected prompt {:?}", p),
    }
    assert!(matches!(s.submit("feminine"), Feedback::CorrectAdditional));
    assert!(s.is_complete());
    assert_eq!(s.score(), (1, 1));
}

#[test]
fn wrong_additional_reveals_value_and_is_still_done() {
    let mut s = Session::new(vec![entry("Katze;cat;gender:feminine")], AnswerMode::One, true);
    assert!(matches!(s.submit("cat"), Feedback::Correct));
    match s.submit("masculine") {
        Feedback::WrongAdditional { expected } => assert_eq!(expected, "feminine"),
        fb => panic!("unexpected feedback {:?}", fb),
    }
    assert!(s.is_complete());
    assert_eq!(s.score(), (1, 0));
}

#[test]
fn additionals_skipped_when_disabled() {
    let mut s = Session::new(vec![entry("Katze;cat;gender:feminine")], AnswerMode::One, false);
    assert!(matches!(s.submit("cat"), Feedback::Correct));
    assert!(s.is_complete());
    assert_eq!(s.score(), (1, 0));
}

#[test]
fn additionals_asked_after_wrong_meaning_too() {
    let mut s = Session::new(vec![entry("Katze;cat;gender:feminine")], AnswerMode::One, true);
    assert!(matches!(s.submit("dog"), Feedback::WrongMeaning { .. }));
    assert!(matches!(s.next_prompt(), Some(Prompt::Additional { .. })));
    assert!(matches!(s.submit("feminine"), Feedback::CorrectAdditional));
    assert!(s.is_complete());
    assert_eq!(s.score(), (0, 1));
}

#[test]
fn placeholder_additional_is_unmatchable() {
    let mut s = Session::new(vec![entry("Hund;dog;gender")], AnswerMode::One, true);
    assert!(matches!(s.submit("dog"), Feedback::Correct));
    match s.submit("") {
        Feedback::WrongAdditional { expected } => assert_eq!(expected, ""),
        fb => panic!("unexpected feedback {:?}", fb),
    }
    assert!(s.is_complete());
    assert_eq!(s.score(), (1, 0));
}

#[test]
fn every_entry_asked_exactly_once() {
    let lines = ["Hund;dog", "Katze;cat", "Haus;house", "Baum;tree", "Buch;book"];
    let entries: Vec<Vocab> = lines.iter().map(|l| entry(l)).collect();
    let mut s = Session::new(entries, AnswerMode::One, true);
    let mut asked: Vec<String> = Vec::new();
    while let Some(p) = s.next_prompt() {
        match p {
            Prompt::Meaning { name, .. } => {
                asked.push(name.clone());
                let answer = match name.as_str() {
                    "Hund" => "dog",
                    "Katze" => "cat",
                    "Haus" => "house",
                    "Baum" => "tree",
                    "Buch" => "book",
                    other => panic!("unknown entry {}", other),
                };
                assert!(matches!(s.submit(answer), Feedback::Correct));
            }
            Prompt::Additional { .. } => panic!("no additionals in this set"),
        }
    }
    assert!(s.is_complete());
    let mut sorted = asked.clone();
    sorted.sort();
    let mut expected: Vec<String> = ["Baum", "Buch", "Haus", "Hund", "Katze"]
        .iter()
        .map(|n| n.to_string())
        .collect();
    expected.sort();
    assert_eq!(sorted, expected, "each entry asked exactly once");
    let (correct, adds) = s.score();
    assert_eq!(correct, 5);
    assert_eq!(adds, 0);
}

#[test]
fn score_bounded_by_entry_count() {
    let lines = ["a;x", "b;y", "c;z"];
    let entries: Vec<Vocab> = lines.iter().map(|l| entry(l)).collect();
    let mut s = Session::new(entries, AnswerMode::One, true);
    while !s.is_complete() {
        s.submit("wrong answer");
    }
    let (correct, _) = s.score();
    assert!(correct <= 3);
    assert_eq!(correct, 0);
}

#[test]
fn try_new_rejects_entry_without_meanings() {
    let bad = Vocab::new(String::from("Hund"), Vec::new(), None);
    assert!(Session::try_new(vec![bad], AnswerMode::All, true).is_none());
    let good = entry("Hund;dog");
    assert!(Session::try_new(vec![good], AnswerMode::All, true).is_some());
}

#[test]
fn empty_session_is_complete_at_once() {
    let s = Session::new(Vec::new(), AnswerMode::All, true);
    assert!(s.is_complete());
    assert_eq!(s.score(), (0, 0));
}
