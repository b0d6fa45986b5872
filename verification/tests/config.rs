use vct::args::{resolve_flag, resolve_mode, resolve_usedb, Params};
use vct::cfg::Config;
use vct::info::MessageType;
use vct::question::AnswerMode;

fn base_config() -> Config {
    Config {
        dict: None,
        vocab: None,
        additionals: None,
        clearlines: None,
        database: None,
        dbpath: None,
    }
}

#[test]
fn db_path_defaults_under_config_dir() {
    let conf = base_config();
    assert_eq!(conf.resolve_db_path("/home/u/.config/vct"), "/home/u/.config/vct/db.sqlite");
}

#[test]
fn db_path_relative_is_rooted() {
    let mut conf = base_config();
    conf.dbpath = Some("store.db".to_string());
    assert_eq!(conf.resolve_db_path("/cfg"), "/cfg/store.db");
}

#[test]
fn db_path_absolute_is_kept() {
    let mut conf = base_config();
    conf.dbpath = Some("/var/db/vocab.db".to_string());
    assert_eq!(conf.resolve_db_path("/cfg"), "/var/db/vocab.db");
}

#[test]
fn dict_dir_defaults_to_dicts() {
    let conf = base_config();
    assert_eq!(conf.resolve_dict_dir("/cfg"), "/cfg/dicts");
}

#[test]
fn dict_dir_empty_config_is_ignored() {
    let mut conf = base_config();
    conf.dict = Some(String::new());
    assert_eq!(conf.resolve_dict_dir("/cfg"), "/cfg/dicts");
}

#[test]
fn dict_dir_relative_and_absolute() {
    let mut conf = base_config();
    conf.dict = Some("words".to_string());
    assert_eq!(conf.resolve_dict_dir("/cfg"), "/cfg/words");
    conf.dict = Some("/srv/words".to_string());
    assert_eq!(conf.resolve_dict_dir("/cfg"), "/srv/words");
}

#[test]
fn dict_file_is_dir_then_language() {
    let conf = base_config();
    assert_eq!(conf.resolve_dict_file("/cfg", "latin"), "/cfg/dicts/latin");
}

#[test]
fn mode_resolution_chain() {
    assert_eq!(resolve_mode("all", &None), AnswerMode::All);
    assert_eq!(resolve_mode("one", &None), AnswerMode::One);
    assert_eq!(resolve_mode("", &Some("all".to_string())), AnswerMode::All);
    assert_eq!(resolve_mode("", &Some("nonsense".to_string())), AnswerMode::One);
    assert_eq!(resolve_mode("", &None), AnswerMode::One);
    assert_eq!(resolve_mode("nonsense", &Some("all".to_string())), AnswerMode::All);
}

#[test]
fn flag_resolution_chain() {
    assert!(resolve_flag(&Some(true), &Some(false), false));
    assert!(!resolve_flag(&Some(false), &Some(true), true));
    assert!(resolve_flag(&None, &Some(true), false));
    assert!(!resolve_flag(&None, &None, false));
    assert!(resolve_flag(&None, &None, true));
}

#[test]
fn usedb_defaults_to_file_backend() {
    let params = Params {
        lang: String::new(),
        config_path: String::new(),
        config_dir: String::new(),
        quit: false,
        dict: String::new(),
        vocab: String::new(),
        adds: None,
        pretprin: None,
        clearlines: None,
        usedb: None,
    };
    let mut conf = base_config();
    assert!(!resolve_usedb(&params, &conf));
    conf.database = Some(true);
    assert!(resolve_usedb(&params, &conf));
}

#[test]
fn message_prefixes() {
    assert_eq!(MessageType::Warning.prefix(), "vct: warning: ");
    assert_eq!(MessageType::Error.prefix(), "vct: error: ");
}
