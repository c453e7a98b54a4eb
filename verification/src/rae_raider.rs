//! Reading the meanings of a word off its page in the online dictionary of
//! the Real Academia Española.
use vstd::prelude::*;

use crate::numbers::{i64_to_string, signed_decimal, trim, trimmed};
use crate::text::{append_str, chars_of, string_of, string_views};

verus! {

/// The elements that hold the meanings of the first entry of a page.
pub const ELEMENTS_SELECTOR: &'static str = "article:first-child .j";
/// The class of the number of a meaning.
pub const DESCRIPTION_INDEX: &'static str = "n_acep";
/// The classes of the grammatical marks of a meaning.
pub const TYPE_CODE_I: &'static str = "d";
pub const TYPE_CODE_II: &'static str = "g";
pub const TYPE_CODE_III: &'static str = "c";
/// The class of an example phrase.
pub const EXAMPLE_PHRASE: &'static str = "h";
/// The class of a reference to another word.
pub const REFERENCE: &'static str = "a";
/// The browser the requests present themselves as.
pub const BROWSER_AGENT: &'static str = "Mozilla/5.0";
/// Where the pages of words are.
pub const DOMAIN: &'static str = "https://dle.rae.es/";
/// The query the page of a word is asked for with.
pub const QUERY_PARAMS: &'static str = "m=form";

/// A child node of a selected element, as the meaning reader needs it.
pub enum HtmlChild {
    /// A text node.
    Text(String),
    /// An element: its classes and its descendant texts in document order.
    Element(Vec<String>, Vec<String>),
    /// Any other node.
    Other,
}

/// The value of an `HtmlChild`.
pub enum ChildView {
    Text(Seq<char>),
    Element(Seq<Seq<char>>, Seq<Seq<char>>),
    Other,
}

impl View for HtmlChild {
    type V = ChildView;

    open spec fn view(&self) -> ChildView {
        match self {
            HtmlChild::Text(t) => ChildView::Text(t@),
            HtmlChild::Element(c, t) => ChildView::Element(string_views(c@), string_views(t@)),
            HtmlChild::Other => ChildView::Other,
        }
    }
}

/// The views of the children of the selected elements.
pub open spec fn element_views(v: Seq<Vec<HtmlChild>>) -> Seq<Seq<ChildView>> {
    v.map_values(|e: Vec<HtmlChild>| e@.map_values(|c: HtmlChild| c@))
}

/// What the page `page`, parsed as an HTML fragment, yields for the CSS
/// selector `selector`: the children of each matching element, in document
/// order; nothing when the selector does not parse.
pub uninterp spec fn page_elements(page: Seq<char>, selector: Seq<char>) -> Option<Seq<Seq<ChildView>>>;

/// Parses `page` as an HTML fragment (`scraper::Html::parse_fragment`),
/// selects the elements matching `selector` (`scraper::Selector::parse`,
/// `Html::select`) and gives, for each, its children (`children`): text
/// nodes with their text, elements with their classes (`Element::classes`)
/// and descendant texts (`ElementRef::text`), other nodes as such. Claimed:
/// the result is named `page_elements(page@, selector@)`, and a selector
/// that does not parse gives nothing. HTML parsing and CSS matching are not
/// stated.
#[verifier::external_body]
fn select_children(page: &str, selector: &str) -> (r: Option<Vec<Vec<HtmlChild>>>)
    ensures
        match r {
            Some(v) => page_elements(page@, selector@) == Some(element_views(v@)),
            None => page_elements(page@, selector@) is None,
        },
{
    let sel = scraper::Selector::parse(selector).ok()?;
    let html = scraper::Html::parse_fragment(page);
    Some(html.select(&sel).map(|e| e.children().map(|c| match c.value() {
        scraper::Node::Text(t) => HtmlChild::Text(t.to_string()),
        scraper::Node::Element(el) => HtmlChild::Element(
            el.classes().map(String::from).collect(),
            scraper::ElementRef::wrap(c).map_or(Vec::new(), |r| r.text().map(String::from).collect()),
        ),
        _ => HtmlChild::Other,
    }).collect()).collect())
}

/// The classes of the parts of a meaning that its text leaves out: its
/// number, its grammatical marks and its examples.
pub open spec fn skipped_classes(classes: Seq<Seq<char>>) -> bool {
    ||| classes.contains(DESCRIPTION_INDEX@)
    ||| classes.contains(TYPE_CODE_I@)
    ||| classes.contains(TYPE_CODE_II@)
    ||| classes.contains(TYPE_CODE_III@)
    ||| classes.contains(EXAMPLE_PHRASE@)
}

/// The non-empty texts of the children of a meaning element, in order: a
/// text node gives its text; an element that is not skipped gives its first
/// descendant text, prefixed with "Referencia a " when it is a reference.
/// Nothing comes of an element whose children include a node that is
/// neither, or a kept element without text.
pub open spec fn child_words(cs: Seq<ChildView>) -> Option<Seq<Seq<char>>>
    decreases cs.len(),
{
    if cs.len() == 0 {
        Some(Seq::<Seq<char>>::empty())
    } else {
        match child_words(cs.drop_last()) {
            None => None,
            Some(ws) => match cs.last() {
                ChildView::Other => None,
                ChildView::Text(t) => Some(if t.len() > 0 { ws.push(t) } else { ws }),
                ChildView::Element(classes, texts) => if skipped_classes(classes) {
                    Some(ws)
                } else if texts.len() == 0 {
                    None
                } else {
                    let w = if classes.contains(REFERENCE@) {
                        "Referencia a "@ + texts[0]
                    } else {
                        texts[0]
                    };
                    Some(if w.len() > 0 { ws.push(w) } else { ws })
                },
            },
        }
    }
}

/// The pieces put one after the other.
pub open spec fn concat_all(parts: Seq<Seq<char>>) -> Seq<char>
    decreases parts.len(),
{
    if parts.len() == 0 {
        Seq::<char>::empty()
    } else {
        concat_all(parts.drop_last()) + parts.last()
    }
}

/// `s` without one final full stop.
pub open spec fn strip_final_dot(s: Seq<char>) -> Seq<char> {
    if s.len() > 0 && s.last() == '.' {
        s.drop_last()
    } else {
        s
    }
}

/// The phrase of a meaning element: its words joined, trimmed, without a
/// final full stop.
pub open spec fn element_phrase(cs: Seq<ChildView>) -> Option<Seq<char>> {
    match child_words(cs) {
        Some(ws) => Some(strip_final_dot(trimmed(concat_all(ws)))),
        None => None,
    }
}

/// The phrases of the meaning elements, in order.
pub open spec fn element_phrases(es: Seq<Seq<ChildView>>) -> Option<Seq<Seq<char>>>
    decreases es.len(),
{
    if es.len() == 0 {
        Some(Seq::<Seq<char>>::empty())
    } else {
        match (element_phrases(es.drop_last()), element_phrase(es.last())) {
            (Some(ps), Some(p)) => Some(ps.push(p)),
            _ => None,
        }
    }
}

/// A part of a meaning that is its number, a grammatical mark or an example
/// (an element of class "n_acep", "d", "g", "c" or "h"), wherever it
/// stands among the children, adds nothing to the meaning's phrase.
pub proof fn lemma_skipped_part_adds_nothing(
    before: Seq<ChildView>,
    after: Seq<ChildView>,
    classes: Seq<Seq<char>>,
    texts: Seq<Seq<char>>,
)
    requires
        classes.contains("n_acep"@) || classes.contains("d"@) || classes.contains("g"@) || classes.contains("c"@)
            || classes.contains("h"@),
    ensures
        child_words(before + seq![ChildView::Element(classes, texts)] + after) == child_words(before + after),
        element_phrase(before + seq![ChildView::Element(classes, texts)] + after) == element_phrase(before + after),
    decreases after.len(),
{
    let e = ChildView::Element(classes, texts);
    let with = before + seq![e] + after;
    if after.len() == 0 {
        assert(with.drop_last() =~= before);
        assert(with.last() == e);
        assert(before + after =~= before);
        assert(skipped_classes(classes));
    } else {
        lemma_skipped_part_adds_nothing(before, after.drop_last(), classes, texts);
        assert(with.drop_last() =~= before + seq![e] + after.drop_last());
        assert((before + after).drop_last() =~= before + after.drop_last());
        assert(with.last() == (before + after).last());
    }
}

proof fn lemma_child_words_none(cs: Seq<ChildView>, i: int)
    requires
        0 <= i <= cs.len(),
        child_words(cs.take(i)) is None,
    ensures
        child_words(cs) is None,
    decreases cs.len() - i,
{
    if i < cs.len() {
        assert(cs.take(i + 1).drop_last() =~= cs.take(i));
        lemma_child_words_none(cs, i + 1);
    } else {
        assert(cs.take(i) =~= cs);
    }
}

proof fn lemma_element_phrases_none(es: Seq<Seq<ChildView>>, i: int)
    requires
        0 <= i <= es.len(),
        element_phrases(es.take(i)) is None,
    ensures
        element_phrases(es) is None,
    decreases es.len() - i,
{
    if i < es.len() {
        assert(es.take(i + 1).drop_last() =~= es.take(i));
        lemma_element_phrases_none(es, i + 1);
    } else {
        assert(es.take(i) =~= es);
    }
}

/// The selector of the meanings of level `index`: the base selector, with
/// the level number appended from the second level on.
pub open spec fn level_selector(index: int) -> Seq<char> {
    if index > 1 {
        ELEMENTS_SELECTOR@ + signed_decimal(index)
    } else {
        ELEMENTS_SELECTOR@
    }
}

/// The phrases of the meanings of level `index` of a page.
pub open spec fn level_phrases(page: Seq<char>, index: int) -> Option<Seq<Seq<char>>> {
    match page_elements(page, level_selector(index)) {
        Some(es) => element_phrases(es),
        None => None,
    }
}

/// The phrases of the levels from `index` on, up to and including the first
/// level without any; nothing when a level cannot be read or the levels run
/// past the largest `i16`.
pub open spec fn descriptions_from(page: Seq<char>, index: int) -> Option<Seq<Seq<char>>>
    decreases i16::MAX - index,
{
    if index < 1 || index > i16::MAX {
        None
    } else {
        match level_phrases(page, index) {
            None => None,
            Some(ps) => if ps.len() == 0 {
                Some(ps)
            } else if index == i16::MAX {
                None
            } else {
                match descriptions_from(page, index + 1) {
                    Some(rest) => Some(ps + rest),
                    None => None,
                }
            },
        }
    }
}

/// `done` before the phrases, if there are any.
pub open spec fn prefixed(done: Seq<Seq<char>>, rest: Option<Seq<Seq<char>>>) -> Option<Seq<Seq<char>>> {
    match rest {
        Some(r) => Some(done + r),
        None => None,
    }
}

/// Why the meanings of a page could not be read.
#[derive(Debug)]
pub enum ScrapeError {
    /// The selector of a level does not parse.
    BadSelector,
    /// A meaning element holds a node that is neither text nor element, or
    /// a kept element without text.
    MalformedPage,
    /// The levels run past the largest level number.
    TooManyLevels,
}

fn class_listed(classes: &Vec<String>, name: &str) -> (r: bool)
    ensures
        r == string_views(classes@).contains(name@),
{
    let target = chars_of(name);
    for i in 0..classes.len()
        invariant
            target@ == name@,
            forall|j: int| 0 <= j < i ==> string_views(classes@)[j] != name@,
    {
        let c = chars_of(classes[i].as_str());
        if crate::text::chars_equal(c.as_slice(), target.as_slice()) {
            assert(string_views(classes@)[i as int] == name@);
            return true;
        }
    }
    false
}

fn skipped(classes: &Vec<String>) -> (r: bool)
    ensures
        r == skipped_classes(string_views(classes@)),
{
    class_listed(classes, DESCRIPTION_INDEX) || class_listed(classes, TYPE_CODE_I) || class_listed(
        classes,
        TYPE_CODE_II,
    ) || class_listed(classes, TYPE_CODE_III) || class_listed(classes, EXAMPLE_PHRASE)
}

/// The phrase of a meaning element (see `element_phrase`).
pub fn phrase_of(children: &Vec<HtmlChild>) -> (r: Option<String>)
    ensures
        match r {
            Some(p) => element_phrase(children@.map_values(|c: HtmlChild| c@)) == Some(p@),
            None => element_phrase(children@.map_values(|c: HtmlChild| c@)) is None,
        },
{
    let ghost cs = children@.map_values(|c: HtmlChild| c@);
    let mut joined: Vec<char> = Vec::new();
    let ghost mut words: Seq<Seq<char>> = Seq::empty();
    for i in 0..children.len()
        invariant
            cs == children@.map_values(|c: HtmlChild| c@),
            child_words(cs.take(i as int)) == Some(words),
            joined@ == concat_all(words),
    {
        assert(cs.take(i + 1).drop_last() =~= cs.take(i as int));
        assert(cs.take(i + 1).last() == children@[i as int]@);
        match &children[i] {
            HtmlChild::Other => {
                proof {
                    lemma_child_words_none(cs, i + 1);
                }
                return None;
            },
            HtmlChild::Text(t) => {
                let ghost before = joined@;
                append_str(&mut joined, t.as_str());
                proof {
                    if t@.len() > 0 {
                        assert(words.push(t@).drop_last() =~= words);
                        words = words.push(t@);
                    } else {
                        assert(before + t@ =~= before);
                    }
                }
            },
            HtmlChild::Element(classes, texts) => {
                if !skipped(classes) {
                    if texts.len() == 0 {
                        proof {
                            lemma_child_words_none(cs, i + 1);
                        }
                        return None;
                    }
                    let mut w: Vec<char> = Vec::new();
                    if class_listed(classes, REFERENCE) {
                        append_str(&mut w, "Referencia a ");
                    }
                    append_str(&mut w, texts[0].as_str());
                    assert(string_views(texts@)[0] == texts@[0]@);
                    let ghost before = joined@;
                    append_str(&mut joined, string_of(w.as_slice()).as_str());
                    proof {
                        if w@.len() > 0 {
                            assert(words.push(w@).drop_last() =~= words);
                            words = words.push(w@);
                        } else {
                            assert(before + w@ =~= before);
                        }
                    }
                }
            },
        }
    }
    assert(cs.take(children@.len() as int) =~= cs);
    let t = trim(joined.as_slice());
    let n = t.len();
    if n > 0 && t[n - 1] == '.' {
        let mut cut: Vec<char> = Vec::new();
        for k in 0..n - 1
            invariant
                n == t@.len(),
                n > 0,
                cut@ == t@.take(k as int),
        {
            cut.push(t[k]);
            assert(t@.take(k + 1) =~= t@.take(k as int).push(t@[k as int]));
        }
        assert(t@.take(n - 1) =~= t@.drop_last());
        Some(string_of(cut.as_slice()))
    } else {
        Some(string_of(t.as_slice()))
    }
}

/// The phrases of the meaning elements, in order (see `element_phrases`).
pub fn phrases_of_elements(elements: &Vec<Vec<HtmlChild>>) -> (r: Option<Vec<String>>)
    ensures
        match r {
            Some(ps) => element_phrases(element_views(elements@)) == Some(string_views(ps@)),
            None => element_phrases(element_views(elements@)) is None,
        },
{
    let ghost es = element_views(elements@);
    let mut phrases: Vec<String> = Vec::new();
    for i in 0..elements.len()
        invariant
            es == element_views(elements@),
            element_phrases(es.take(i as int)) == Some(string_views(phrases@)),
    {
        assert(es.take(i + 1).drop_last() =~= es.take(i as int));
        assert(es.take(i + 1).last() == elements@[i as int]@.map_values(|c: HtmlChild| c@));
        match phrase_of(&elements[i]) {
            Some(p) => {
                let ghost before = string_views(phrases@);
                phrases.push(p);
                assert(string_views(phrases@) =~= before.push(p@));
            },
            None => {
                proof {
                    lemma_element_phrases_none(es, i + 1);
                }
                return None;
            },
        }
    }
    assert(es.take(es.len() as int) =~= es);
    Some(phrases)
}

/// Reads the meanings of a word off its page.
pub struct RaeRaider {
    code: String,
    html: Option<String>,
}

impl RaeRaider {
    /// The word whose page is read.
    pub closed spec fn code(&self) -> Seq<char> {
        self.code@
    }

    /// The page, once loaded.
    pub closed spec fn page(&self) -> Option<Seq<char>> {
        match self.html {
            Some(h) => Some(h@),
            None => None,
        }
    }

    /// A reader for the page of `code`, not loaded yet.
    pub fn new(code: String) -> (r: RaeRaider)
        ensures
            r.code() == code@,
            r.page() is None,
    {
        RaeRaider { code, html: None }
    }

    /// The address of the page: the domain, the word, then the query.
    pub fn url(&self) -> (u: String)
        ensures
            u@ == DOMAIN@ + self.code() + "?"@ + QUERY_PARAMS@,
    {
        let mut out: Vec<char> = Vec::new();
        append_str(&mut out, DOMAIN);
        append_str(&mut out, self.code.as_str());
        append_str(&mut out, "?");
        append_str(&mut out, QUERY_PARAMS);
        string_of(out.as_slice())
    }

    /// Whether the page is loaded.
    pub fn is_loaded(&self) -> (r: bool)
        ensures
            r == self.page() is Some,
    {
        self.html.is_some()
    }

    /// Keeps the fetched page unless one is loaded already; tells whether it
    /// was kept.
    pub fn load(&mut self, page: String) -> (status: bool)
        ensures
            status == old(self).page() is None,
            final(self).page() == (if status { Some(page@) } else { old(self).page() }),
            final(self).code() == old(self).code(),
    {
        if self.html.is_none() {
            self.html = Some(page);
            true
        } else {
            false
        }
    }

    /// The phrases of the meanings of level `index` of the loaded page.
    fn loot_description(&self, page: &String, index: i16) -> (r: Result<Vec<String>, ScrapeError>)
        requires
            index >= 1,
        ensures
            match r {
                Ok(ps) => level_phrases(page@, index as int) == Some(string_views(ps@)),
                Err(_) => level_phrases(page@, index as int) is None,
            },
    {
        let mut selector: Vec<char> = Vec::new();
        append_str(&mut selector, ELEMENTS_SELECTOR);
        if index > 1 {
            append_str(&mut selector, i64_to_string(index as i64).as_str());
        }
        assert(selector@ =~= level_selector(index as int));
        let elements = match select_children(page.as_str(), string_of(selector.as_slice()).as_str()) {
            Some(e) => e,
            None => {
                return Err(ScrapeError::BadSelector);
            },
        };
        match phrases_of_elements(&elements) {
            Some(phrases) => Ok(phrases),
            None => Err(ScrapeError::MalformedPage),
        }
    }

    /// The phrases of the meanings of the loaded page, level after level,
    /// up to the first level without any (see `descriptions_from`).
    pub fn loot_descriptions(&self) -> (r: Result<Vec<String>, ScrapeError>)
        requires
            self.page() is Some,
        ensures
            match r {
                Ok(ps) => descriptions_from(self.page().unwrap(), 1) == Some(string_views(ps@)),
                Err(_) => descriptions_from(self.page().unwrap(), 1) is None,
            },
    {
        let page = match &self.html {
            Some(h) => h,
            None => {
                return Err(ScrapeError::MalformedPage);
            },
        };
        let mut found = true;
        let mut index: i16 = 1;
        let mut phrases: Vec<String> = Vec::new();
        let ghost mut done: Seq<Seq<char>> = Seq::empty();
        proof {
            if let Some(r) = descriptions_from(page@, 1) {
                assert(done + r =~= r);
            }
        }
        while found
            invariant
                1 <= index <= i16::MAX,
                page@ == self.page().unwrap(),
                found ==> descriptions_from(page@, 1) == prefixed(done, descriptions_from(page@, index as int)),
                found ==> string_views(phrases@) == done,
                !found ==> descriptions_from(page@, 1) == Some(string_views(phrases@)),
            decreases i16::MAX - index, (if found { 1int } else { 0int }),
        {
            let level = match self.loot_description(page, index) {
                Ok(l) => l,
                Err(e) => {
                    return Err(e);
                },
            };
            let ghost ps = string_views(level@);
            let ghost before = string_views(phrases@);
            let empty = level.len() == 0;
            let mut level = level;
            phrases.append(&mut level);
            assert(string_views(phrases@) =~= before + ps);
            if empty {
                found = false;
                assert(before + ps =~= before);
            } else {
                if index == i16::MAX {
                    return Err(ScrapeError::TooManyLevels);
                }
                proof {
                    let rest = descriptions_from(page@, index + 1);
                    if let Some(r) = rest {
                        assert(done + (ps + r) =~= (done + ps) + r);
                    }
                    done = done + ps;
                }
                index = index + 1;
            }
        }
        Ok(phrases)
    }
}

} // verus!
