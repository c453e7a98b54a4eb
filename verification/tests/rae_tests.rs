use rust_dictionary::rae_raider::RaeRaider;

const PAGE: &str = "<article><p class=\"j\"><span class=\"n_acep\">1. </span><abbr class=\"d\">f.</abbr> Edificio para habitar. <span class=\"h\">Una casa.</span></p><p class=\"j\"><span class=\"n_acep\">2. </span>Familia, <a class=\"a\">linaje</a>.</p><p class=\"j2\">Lugar.</p></article>";

#[test]
fn url_of_a_word() {
    let r = RaeRaider::new("casa".to_string());
    assert_eq!(r.url(), "https://dle.rae.es/casa?m=form");
    assert!(!r.is_loaded());
}

#[test]
fn load_keeps_first_page() {
    let mut r = RaeRaider::new("casa".to_string());
    assert!(r.load("<p>a</p>".to_string()));
    assert!(!r.load("<p>b</p>".to_string()));
    assert!(r.is_loaded());
}

#[test]
fn loot_descriptions_reads_levels() {
    let mut r = RaeRaider::new("casa".to_string());
    r.load(PAGE.to_string());
    let d = r.loot_descriptions().ok().unwrap();
    assert_eq!(d, vec!["Edificio para habitar", "Familia, Referencia a linaje", "Lugar"]);
}

#[test]
fn loot_descriptions_of_empty_page() {
    let mut r = RaeRaider::new("casa".to_string());
    r.load("<div></div>".to_string());
    let d = r.loot_descriptions().ok().unwrap();
    assert!(d.is_empty());
}

use rust_dictionary::rae_raider::{phrase_of, phrases_of_elements, HtmlChild};

#[test]
fn phrases_from_plain_nodes() {
    let element = vec![
        HtmlChild::Element(vec!["n_acep".to_string()], vec!["1.".to_string()]),
        HtmlChild::Text(" Dicho de ".to_string()),
        HtmlChild::Element(vec!["a".to_string()], vec!["algo".to_string(), "más".to_string()]),
        HtmlChild::Text(". ".to_string()),
    ];
    assert_eq!(phrase_of(&element), Some("Dicho de Referencia a algo".to_string()));
    let malformed = vec![HtmlChild::Text("x".to_string()), HtmlChild::Other];
    assert_eq!(phrase_of(&malformed), None);
    let textless = vec![HtmlChild::Element(vec!["b".to_string()], Vec::new())];
    assert_eq!(phrase_of(&textless), None);
    let skipped_only = vec![HtmlChild::Element(vec!["h".to_string()], Vec::new())];
    assert_eq!(phrase_of(&skipped_only), Some(String::new()));
    let all = vec![element, vec![HtmlChild::Text("Otro..".to_string())]];
    assert_eq!(phrases_of_elements(&all), Some(vec!["Dicho de Referencia a algo".to_string(), "Otro.".to_string()]));
    let bad = vec![malformed];
    assert_eq!(phrases_of_elements(&bad), None);
}
