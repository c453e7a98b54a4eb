use rust_dictionary::collection::WordCollectionMemory;
use rust_dictionary::config::{get_collection, get_logger, Configuration};
use rust_dictionary::controller::{check_permute_size, check_random_size, request_key};
use rust_dictionary::dto::{anonymous_collection, keyed_collection};
use rust_dictionary::env::EnvArgs;
use rust_dictionary::log::{EventLog, LogService, Logger};
use rust_dictionary::utils::{add_combo_character, combo_character, combo_length, get_random_combo_character, get_random_combo_step};
use rust_dictionary::word::Word;

fn settings() -> EnvArgs {
    let mut a = EnvArgs::new();
    a.insert("ROCKET_ADDRESS".to_string(), "0.0.0.0".to_string());
    a.insert("ROCKET_PORT".to_string(), "8000".to_string());
    a.insert("SOURCE_FILE".to_string(), "in.csv".to_string());
    a.insert("REBUILD_FILE".to_string(), "out.csv".to_string());
    a
}

#[test]
fn env_args_keep_last_value() {
    let mut a = EnvArgs::new();
    assert!(a.get("X").is_none());
    a.insert("X".to_string(), "1".to_string());
    a.insert("Y".to_string(), "2".to_string());
    a.insert("X".to_string(), "3".to_string());
    assert_eq!(a.get("X").unwrap(), "3");
    assert_eq!(a.get("Y").unwrap(), "2");
}

#[test]
fn configuration_from_settings() {
    let a = settings();
    assert!(Configuration::accepts(&a));
    let c = Configuration::build(a, 1700000000123);
    assert_eq!(c.session_id, "RUST-DICTIONARY-1700000000123");
    assert_eq!(c.address, "0.0.0.0");
    assert_eq!(c.port, 8000);
    assert_eq!(c.max_random, 100);
    assert_eq!(c.max_permute, 100000);
    assert_eq!(c.timestamp, 1700000000123);
    assert_eq!(c.word_collection.len(), 0);
}

#[test]
fn configuration_reads_bounds() {
    let mut a = settings();
    a.insert("MAX_RANDOM".to_string(), "5".to_string());
    a.insert("MAX_PERMUTE".to_string(), "-1".to_string());
    let c = Configuration::build(a, 0);
    assert_eq!(c.max_random, 5);
    assert_eq!(c.max_permute, -1);
    assert_eq!(c.session_id, "RUST-DICTIONARY-0");
}

#[test]
fn configuration_refused() {
    let mut a = settings();
    a.insert("ROCKET_PORT".to_string(), "70000".to_string());
    assert!(!Configuration::accepts(&a));
    let mut b = settings();
    b.insert("MAX_RANDOM".to_string(), "many".to_string());
    assert!(!Configuration::accepts(&b));
    let mut c = EnvArgs::new();
    c.insert("ROCKET_PORT".to_string(), "80".to_string());
    assert!(!Configuration::accepts(&c));
}

#[test]
fn collection_and_logger_from_settings() {
    let c = get_collection(settings());
    assert_eq!(c.source_file(), "in.csv");
    assert!(WordCollectionMemory::accepts(&settings()));
    let _logger = get_logger(settings());
}

#[test]
fn event_console_line() {
    let e = EventLog::new("INFO".to_string(), "word".to_string(), "found".to_string(), "S-1".to_string(), 42);
    assert_eq!(e.console_line(), "42 - [INFO] -> [word]: found");
    assert!(e.register_id.is_none());
    assert_eq!(e.session_id, "S-1");
}

struct Silent;

impl Logger for Silent {
    fn log(&self, _event: &EventLog) {}
}

#[test]
fn log_service_events() {
    let s = LogService::new(Silent, "S-9".to_string());
    let e = s.event("WARN", "boot", "late", 7);
    assert_eq!(e.session_id, "S-9");
    assert_eq!(e.category, "WARN");
    assert_eq!(e.message, "late");
    assert_eq!(e.timestamp, 7);
    s.log("INFO", "boot", "ready");
}

#[test]
fn size_checks() {
    assert!(check_random_size(100, Some(100)).is_ok());
    assert!(check_random_size(100, None).is_ok());
    assert_eq!(
        check_random_size(100, Some(101)).unwrap_err(),
        "Cannot process the request, max size for random filter is 100 elements."
    );
    assert!(check_permute_size(10, None, None).is_ok());
    assert!(check_permute_size(10, Some(-1), Some(10)).is_ok());
    assert_eq!(
        check_permute_size(10, Some(0), None).unwrap_err(),
        "Cannot process the request, max size for permute filter is 10 elements."
    );
    assert!(check_permute_size(-3, Some(1), Some(-2)).is_err());
}

#[test]
fn request_key_is_lowercase() {
    assert_eq!(request_key("CaNCIÓN"), "canción");
}

#[test]
fn listings() {
    let mut w = Word::empty();
    w.word = "casa".to_string();
    w.meaning = vec!["a".to_string(), "b".to_string()];
    let words = vec![&w, &w];
    let k = keyed_collection("Casa".to_string(), &words, 10, 3);
    assert_eq!(k.key, "Casa");
    assert_eq!(k.size, 2);
    assert_eq!(k.time, 3);
    assert_eq!(k.result[1].meaning, Some("a#b".to_string()));
    let a = anonymous_collection(&words, 11, 0);
    assert_eq!(a.size, 2);
    assert_eq!(a.timestamp, 11);
    assert_eq!(a.result[0].word, Some("casa".to_string()));
}

#[test]
fn combos() {
    assert_eq!(combo_length(30), 26);
    assert_eq!(combo_length(5), 5);
    assert_eq!(combo_length(-3), -3);
    let letters = "bcdfghjklmnpqrstvwxyzaeiou";
    for _ in 0..50 {
        assert!(letters.contains(get_random_combo_character()));
    }
    let mut combo = String::from("ab");
    assert!(!add_combo_character(&mut combo, 'a'));
    assert!(add_combo_character(&mut combo, 'c'));
    assert_eq!(combo, "abc");
    let mut built = String::new();
    while built.chars().count() < 10 {
        get_random_combo_step(&mut built);
    }
    let mut seen: Vec<char> = built.chars().collect();
    seen.sort();
    seen.dedup();
    assert_eq!(seen.len(), 10);
}

#[test]
fn lookup_answers() {
    assert_eq!(rust_dictionary::controller::word_answer(Some(3)), Ok(3));
    assert_eq!(rust_dictionary::controller::word_answer::<i32>(None), Err("Not element found.".to_string()));
    assert_eq!(rust_dictionary::controller::lax_answer(vec![1, 2]), Ok(vec![1, 2]));
    assert_eq!(rust_dictionary::controller::lax_answer::<i32>(vec![]), Err("Not elements found.".to_string()));
}

#[test]
fn combo_character_picks_by_mode_and_index() {
    assert_eq!(combo_character(0, 0), 'b');
    assert_eq!(combo_character(1, 20), 'z');
    assert_eq!(combo_character(2, 0), 'a');
    assert_eq!(combo_character(3, 4), 'u');
    assert_eq!(combo_character(1, 3), 'f');
}
