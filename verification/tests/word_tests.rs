use rust_dictionary::word::{DTOWord, Word};

fn record(word: Option<&str>, meaning: Option<&str>) -> DTOWord {
    DTOWord {
        word: word.map(|s| s.to_string()),
        unicode: Some("U".to_string()),
        category: Some("sust.".to_string()),
        genre: None,
        number: Some("sing.".to_string()),
        root: None,
        affix: None,
        tonic: Some("ca".to_string()),
        syllables: Some("ca-sa".to_string()),
        locale: None,
        origin: Some("lat.".to_string()),
        synonyms: None,
        meaning: meaning.map(|s| s.to_string()),
    }
}

#[test]
fn empty_word_has_nothing() {
    let w = Word::empty();
    assert_eq!(w.word, "");
    assert_eq!(w.category, "");
    assert!(w.meaning.is_empty());
    assert!(w.references.is_empty());
    assert!(w.visible);
}

#[test]
fn from_dto_fills_absent_fields_and_splits_meanings() {
    let w = Word::from_dto(record(Some("casa"), Some("Edificio#Familia")));
    assert_eq!(w.word, "casa");
    assert_eq!(w.unicode, "U");
    assert_eq!(w.genre, "");
    assert_eq!(w.syllables, "ca-sa");
    assert_eq!(w.meaning, vec!["Edificio", "Familia"]);
    assert!(w.visible);
    assert!(w.references.is_empty());
    let none = Word::from_dto(record(None, None));
    assert_eq!(none.word, "");
    assert!(none.meaning.is_empty());
}

#[test]
fn as_vector_lists_fields_in_record_order() {
    let w = Word::from_dto(record(Some("casa"), Some("Edificio#Familia")));
    assert_eq!(
        w.as_vector(),
        vec!["casa", "U", "sust.", "", "sing.", "", "", "ca", "ca-sa", "", "lat.", "", "Edificio#Familia"]
    );
}

#[test]
fn record_round_trip() {
    let w = Word::from_dto(record(Some("casa"), Some("Edificio#Familia")));
    let back = Word::from_dto(w.as_dto());
    assert_eq!(back.word, w.word);
    assert_eq!(back.meaning, w.meaning);
    assert_eq!(back.as_vector(), w.as_vector());
    let d = Word::from_dto(record(Some("x"), None)).as_dto();
    assert_eq!(d.genre, Some(String::new()));
    assert_eq!(d.meaning, Some(String::new()));
    assert_eq!(d.word, Some("x".to_string()));
}

#[test]
fn empty_meanings_do_not_round_trip() {
    let w = Word::empty();
    let back = Word::from_dto(w.as_dto());
    assert_eq!(back.meaning, vec![""]);
}

#[test]
fn lite_record_leaves_out_transliteration() {
    let w = Word::from_dto(record(Some("casa"), Some("a#b")));
    let d = w.as_dto_lite();
    assert_eq!(d.word, Some("casa".to_string()));
    assert_eq!(d.meaning, Some("a#b".to_string()));
    assert_eq!(d.category, Some("sust.".to_string()));
}

#[test]
fn clone_keeps_everything() {
    let mut w = Word::from_dto(record(Some("casa"), Some("a#b")));
    w.references = vec!["x".to_string()];
    w.visible = false;
    let c = w.clone();
    assert_eq!(c.as_vector(), w.as_vector());
    assert_eq!(c.references, w.references);
    assert_eq!(c.visible, w.visible);
}
