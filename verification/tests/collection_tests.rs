use rust_dictionary::collection::{WordCollection, WordCollectionMemory};
use rust_dictionary::env::EnvArgs;
use rust_dictionary::word::{DTOWord, Word};

fn args(scraper: bool, rebuild: bool) -> EnvArgs {
    let mut a = EnvArgs::new();
    a.insert("SOURCE_FILE".to_string(), "in.csv".to_string());
    a.insert("REBUILD_FILE".to_string(), "out.csv".to_string());
    a.insert("ENABLE_SCRAPER".to_string(), format!(" {} ", scraper));
    a.insert("ENABLE_REBUILD".to_string(), rebuild.to_string());
    a
}

fn word(w: &str) -> Word {
    let mut x = Word::empty();
    x.word = w.to_string();
    x.meaning = vec![format!("def {}", w)];
    x
}

fn collection(words: &[&str]) -> WordCollectionMemory {
    let mut c = WordCollectionMemory::new(args(false, true));
    for w in words {
        c.insert(word(w));
    }
    c
}

fn spellings(v: &[&Word]) -> Vec<String> {
    v.iter().map(|w| w.word.clone()).collect()
}

#[test]
fn new_reads_settings() {
    let a = args(true, false);
    assert!(WordCollectionMemory::accepts(&a));
    let c = WordCollectionMemory::new(a);
    assert_eq!(c.source_file(), "in.csv");
    assert_eq!(c.rebuild_file(), "out.csv");
    assert_eq!(c.len(), 0);
    assert!(c.rebuild().is_none());
}

#[test]
fn settings_refused() {
    let mut a = EnvArgs::new();
    a.insert("SOURCE_FILE".to_string(), "in.csv".to_string());
    assert!(!WordCollectionMemory::accepts(&a));
    a.insert("REBUILD_FILE".to_string(), "out.csv".to_string());
    assert!(WordCollectionMemory::accepts(&a));
    a.insert("ENABLE_SCRAPER".to_string(), "yes".to_string());
    assert!(!WordCollectionMemory::accepts(&a));
}

#[test]
fn insert_then_find() {
    let c = collection(&["casa", "perro"]);
    assert_eq!(c.find_visible(&"casa".to_string()).unwrap().word, "casa");
    assert_eq!(c.find_visible(&"perro".to_string()).unwrap().meaning, vec!["def perro"]);
    assert!(c.find_visible(&"gato".to_string()).is_none());
    assert_eq!(c.len(), 2);
}

#[test]
fn accented_word_is_indexed_by_its_transliteration() {
    let c = collection(&["canción"]);
    assert_eq!(c.len(), 2);
    let w = c.find_visible(&"canción".to_string()).unwrap();
    assert_eq!(w.references, vec!["cancion"]);
    assert!(c.find_visible(&"cancion".to_string()).is_none());
    let lax = c.find_lax(&"cancion".to_string());
    assert_eq!(spellings(&lax), vec!["canción"]);
    let lax2 = c.find_lax(&"canción".to_string());
    assert_eq!(spellings(&lax2), vec!["canción"]);
}

#[test]
fn two_accented_words_share_a_transliteration() {
    let c = collection(&["papá", "papa"]);
    let lax = c.find_lax(&"papa".to_string());
    assert_eq!(spellings(&lax), vec!["papa", "papá"]);
}

#[test]
fn capitalised_word_is_hidden_by_its_transliteration() {
    let c = collection(&["Casa"]);
    assert_eq!(c.len(), 1);
    assert!(c.find_visible(&"casa".to_string()).is_none());
}

#[test]
fn reinsert_keeps_references() {
    let mut c = collection(&["canción"]);
    let mut again = word("canción");
    again.references = vec!["otra".to_string()];
    c.insert(again);
    assert_eq!(c.find_visible(&"canción".to_string()).unwrap().references, vec!["cancion"]);
}

#[test]
fn includes_by_prefix_suffix_and_inside() {
    let c = collection(&["cosa", "casa", "caso", "casada", "rasa"]);
    let prefix = c.find_includes(&"cas".to_string(), Some(-1), None, None);
    assert_eq!(spellings(&prefix), vec!["casa", "casada", "caso"]);
    let inside = c.find_includes(&"as".to_string(), None, None, None);
    assert_eq!(spellings(&inside), vec!["casa", "casada", "caso"]);
    let suffix = c.find_includes(&"sa".to_string(), Some(1), None, None);
    assert!(suffix.is_empty());
    let suffix2 = c.find_includes(&"rasa".to_string(), Some(1), None, None);
    assert_eq!(spellings(&suffix2), vec!["rasa"]);
}

#[test]
fn includes_stops_at_size() {
    let c = collection(&["casa", "caso", "casada"]);
    let two = c.find_includes(&"cas".to_string(), Some(-1), None, Some(2));
    assert_eq!(spellings(&two), vec!["casa", "casada"]);
    let zero = c.find_includes(&"cas".to_string(), Some(-1), None, Some(0));
    assert_eq!(spellings(&zero), vec!["casa"]);
}

#[test]
fn includes_lax_adds_accented_words() {
    let c = collection(&["canción", "canto"]);
    let r = c.find_includes(&"canc".to_string(), Some(-1), Some(true), None);
    assert_eq!(spellings(&r), vec!["canción"]);
}

#[test]
fn permute_finds_known_arrangements() {
    let mut c = collection(&["as", "sa", "a"]);
    let r = c.find_permute(&"as".to_string(), None, None, None, None, None);
    let s: Vec<String> = r.iter().map(|w| w.word.clone()).collect();
    assert_eq!(s, vec!["a", "as", "sa"]);
}

#[test]
fn permute_with_minimum_and_unknown_codes() {
    let c = collection(&["as"]);
    let r = c.find_permute(&"as".to_string(), Some(2), Some(false), None, None, None);
    let s: Vec<String> = r.iter().map(|w| w.word.clone()).collect();
    assert_eq!(s, vec!["as", "sa"]);
    assert_eq!(r[1].category, "rust-dictionary-permutation");
    assert_eq!(r[0].category, "");
}

#[test]
fn permute_stops_when_size_is_spent() {
    let c = collection(&["as", "sa", "a"]);
    let r = c.find_permute(&"as".to_string(), None, None, None, None, Some(2));
    let s: Vec<String> = r.iter().map(|w| w.word.clone()).collect();
    assert_eq!(s, vec!["a", "as"]);
    let neg = c.find_permute(&"as".to_string(), None, Some(false), None, None, Some(-5));
    assert_eq!(neg.len(), 1);
    assert_eq!(neg[0].word, "");
}

#[test]
fn permute_with_inclusion_mode() {
    let c = collection(&["sal", "salsa", "as"]);
    let r = c.find_permute(&"sa".to_string(), Some(2), None, None, Some(-1), Some(10));
    let s: Vec<String> = r.iter().map(|w| w.word.clone()).collect();
    assert_eq!(s, vec!["sal", "salsa", "as"]);
}

#[test]
fn load_records_skips_nameless_rows() {
    let mut c = WordCollectionMemory::new(args(false, true));
    let named = Word::from_dto(DTOWord {
        word: Some("casa".to_string()),
        unicode: None,
        category: None,
        genre: None,
        number: None,
        root: None,
        affix: None,
        tonic: None,
        syllables: None,
        locale: None,
        origin: None,
        synonyms: None,
        meaning: Some("x#y".to_string()),
    })
    .as_dto();
    let nameless = DTOWord {
        word: None,
        unicode: None,
        category: None,
        genre: None,
        number: None,
        root: None,
        affix: None,
        tonic: None,
        syllables: None,
        locale: None,
        origin: None,
        synonyms: None,
        meaning: None,
    };
    c.load_records(vec!["word".to_string()], vec![nameless, named]);
    assert_eq!(c.len(), 1);
    assert_eq!(c.find_visible(&"casa".to_string()).unwrap().meaning, vec!["x", "y"]);
    let (headers, rows) = c.rebuild().unwrap();
    assert_eq!(headers, vec!["word"]);
    assert_eq!(rows.len(), 1);
}

#[test]
fn rebuild_writes_shown_words_sorted() {
    let c = collection(&["perro", "canción", "árbol", "casa"]);
    let (_, rows) = c.rebuild().unwrap();
    let firsts: Vec<String> = rows.iter().map(|r| r[0].clone()).collect();
    assert_eq!(firsts, vec!["canción", "casa", "perro", "árbol"]);
    assert_eq!(rows[0][12], "def canción");
}

#[test]
fn scraper_fills_missing_meanings() {
    let mut c = WordCollectionMemory::new(args(true, false));
    c.insert(Word { meaning: Vec::new(), ..word("casa") });
    c.insert(word("perro"));
    assert!(c.wants_scrape(&"casa".to_string()));
    assert!(!c.wants_scrape(&"perro".to_string()));
    assert!(!c.wants_scrape(&"gato".to_string()));
    assert!(c.scraper(&"casa".to_string(), vec!["Edificio".to_string()]));
    assert_eq!(c.find_visible(&"casa".to_string()).unwrap().meaning, vec!["Edificio"]);
    assert!(!c.scraper(&"perro".to_string(), vec!["x".to_string()]));
    assert_eq!(c.find_visible(&"perro".to_string()).unwrap().meaning, vec!["def perro"]);
}

#[test]
fn scraper_off_does_nothing() {
    let mut c = WordCollectionMemory::new(args(false, false));
    c.insert(Word { meaning: Vec::new(), ..word("casa") });
    assert!(!c.wants_scrape(&"casa".to_string()));
    assert!(!c.scraper(&"casa".to_string(), vec!["Edificio".to_string()]));
}

#[test]
fn random_pick_and_step() {
    let c = collection(&["canción", "casa"]);
    let mut picked: Vec<&Word> = Vec::new();
    // position 0 is "cancion", the hidden transliteration
    assert!(!c.find_random_pick(2, &mut picked, 0));
    assert!(picked.is_empty());
    assert!(!c.find_random_pick(2, &mut picked, 1));
    assert!(!c.find_random_pick(2, &mut picked, 1));
    assert_eq!(spellings(&picked), vec!["canción"]);
    assert!(c.find_random_pick(2, &mut picked, 2));
    assert_eq!(spellings(&picked), vec!["canción", "casa"]);
    let mut drawn: Vec<&Word> = Vec::new();
    let mut finish = false;
    while WordCollectionMemory::random_search_continues(Some(1), finish) {
        finish = c.find_random_step(1, &mut drawn);
    }
    assert_eq!(drawn.len(), 1);
    assert!(drawn[0].visible);
    assert!(!WordCollectionMemory::random_search_continues(None, false));
    assert!(!WordCollectionMemory::random_search_continues(Some(0), false));
}

#[test]
fn trait_lookups_agree() {
    let mut c = collection(&["casa", "canción"]);
    assert_eq!(WordCollection::find(&mut c, &"casa".to_string()).unwrap().word, "casa");
    assert_eq!(WordCollection::find_lax(&c, &"cancion".to_string()).len(), 1);
}

#[test]
fn insert_keyed_uses_given_keys() {
    let mut c = WordCollectionMemory::new(args(false, false));
    c.insert_keyed(word("Pez"), &"pez".to_string(), &"Pez".to_string(), &"pez".to_string());
    assert_eq!(c.len(), 1);
    let mut d = WordCollectionMemory::new(args(false, false));
    d.insert_keyed(word("niño"), &"niño".to_string(), &"nino".to_string(), &"nino".to_string());
    assert_eq!(d.len(), 2);
    assert_eq!(spellings(&d.find_lax_transliterated(&"nino".to_string())), vec!["niño"]);
    assert!(d.find_lax_transliterated(&"niño".to_string()).len() == 1);
    assert!(d.find_lax_transliterated(&"nada".to_string()).is_empty());
}

#[test]
fn includes_size_only_cuts_short() {
    let c = collection(&["casa", "caso", "casada", "casona", "perro"]);
    let all = c.find_includes(&"cas".to_string(), Some(-1), None, None);
    assert_eq!(spellings(&all), vec!["casa", "casada", "caso", "casona"]);
    for n in 1..7i64 {
        let some = c.find_includes(&"cas".to_string(), Some(-1), None, Some(n));
        let k = (n as usize).min(all.len());
        assert_eq!(spellings(&some), spellings(&all[..k]));
    }
}

#[test]
fn permute_size_only_cuts_short() {
    let c = collection(&["a", "as", "sa", "sol", "los"]);
    let all = c.find_permute(&"sol".to_string(), None, Some(false), None, None, None);
    let all_s: Vec<String> = all.iter().map(|w| w.word.clone()).collect();
    for n in 1..20i64 {
        let some = c.find_permute(&"sol".to_string(), None, Some(false), None, None, Some(n));
        let s: Vec<String> = some.iter().map(|w| w.word.clone()).collect();
        let k = (n as usize).min(all_s.len());
        assert_eq!(s, all_s[..k].to_vec());
    }
}
