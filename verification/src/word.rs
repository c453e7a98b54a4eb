//! A dictionary entry and the records it is read from and written to.
use vstd::prelude::*;

use crate::text::{join, join_with, split, split_on, string_views, lemma_join_split, lemma_split_join};

verus! {

/// The separator between the meanings of a word in its flat records.
pub const SEPARATOR: char = '#';

/// A dictionary entry.
pub struct Word {
    pub word: String,
    pub unicode: String,
    pub category: String,
    pub genre: String,
    pub number: String,
    pub root: String,
    pub affix: String,
    pub tonic: String,
    pub syllables: String,
    pub locale: String,
    pub origin: String,
    pub synonyms: String,
    pub meaning: Vec<String>,
    /// Whether lookups show the entry (entries that only index the
    /// transliteration of another word are hidden).
    pub visible: bool,
    /// The words that this entry leads to: for a word, its transliteration;
    /// for a transliteration, the words that have it.
    pub references: Vec<String>,
}

/// The value of a `Word`.
pub struct WordView {
    pub word: Seq<char>,
    pub unicode: Seq<char>,
    pub category: Seq<char>,
    pub genre: Seq<char>,
    pub number: Seq<char>,
    pub root: Seq<char>,
    pub affix: Seq<char>,
    pub tonic: Seq<char>,
    pub syllables: Seq<char>,
    pub locale: Seq<char>,
    pub origin: Seq<char>,
    pub synonyms: Seq<char>,
    pub meaning: Seq<Seq<char>>,
    pub visible: bool,
    pub references: Seq<Seq<char>>,
}

impl View for Word {
    type V = WordView;

    open spec fn view(&self) -> WordView {
        WordView {
            word: self.word@,
            unicode: self.unicode@,
            category: self.category@,
            genre: self.genre@,
            number: self.number@,
            root: self.root@,
            affix: self.affix@,
            tonic: self.tonic@,
            syllables: self.syllables@,
            locale: self.locale@,
            origin: self.origin@,
            synonyms: self.synonyms@,
            meaning: string_views(self.meaning@),
            visible: self.visible,
            references: string_views(self.references@),
        }
    }
}

/// A copy of a list of strings.
pub fn clone_strings(v: &Vec<String>) -> (r: Vec<String>)
    ensures
        string_views(r@) == string_views(v@),
{
    let mut r: Vec<String> = Vec::new();
    for i in 0..v.len()
        invariant
            string_views(r@) == string_views(v@).take(i as int),
    {
        let s = v[i].clone();
        let ghost before = string_views(r@);
        r.push(s);
        assert(string_views(r@) =~= before.push(s@));
        assert(string_views(v@).take(i + 1) =~= string_views(v@).take(i as int).push(v@[i as int]@));
    }
    assert(string_views(v@).take(v@.len() as int) =~= string_views(v@));
    r
}

impl Clone for Word {
    fn clone(&self) -> (w: Word)
        ensures
            w@ == self@,
    {
        Word {
            word: self.word.clone(),
            unicode: self.unicode.clone(),
            category: self.category.clone(),
            genre: self.genre.clone(),
            number: self.number.clone(),
            root: self.root.clone(),
            affix: self.affix.clone(),
            tonic: self.tonic.clone(),
            syllables: self.syllables.clone(),
            locale: self.locale.clone(),
            origin: self.origin.clone(),
            synonyms: self.synonyms.clone(),
            meaning: clone_strings(&self.meaning),
            visible: self.visible,
            references: clone_strings(&self.references),
        }
    }
}

/// A word as a record of optional text fields, the meanings joined by
/// `SEPARATOR`.
pub struct DTOWord {
    pub word: Option<String>,
    pub unicode: Option<String>,
    pub category: Option<String>,
    pub genre: Option<String>,
    pub number: Option<String>,
    pub root: Option<String>,
    pub affix: Option<String>,
    pub tonic: Option<String>,
    pub syllables: Option<String>,
    pub locale: Option<String>,
    pub origin: Option<String>,
    pub synonyms: Option<String>,
    pub meaning: Option<String>,
}

/// The value of a `DTOWord`.
pub struct DTOWordView {
    pub word: Option<Seq<char>>,
    pub unicode: Option<Seq<char>>,
    pub category: Option<Seq<char>>,
    pub genre: Option<Seq<char>>,
    pub number: Option<Seq<char>>,
    pub root: Option<Seq<char>>,
    pub affix: Option<Seq<char>>,
    pub tonic: Option<Seq<char>>,
    pub syllables: Option<Seq<char>>,
    pub locale: Option<Seq<char>>,
    pub origin: Option<Seq<char>>,
    pub synonyms: Option<Seq<char>>,
    pub meaning: Option<Seq<char>>,
}

/// The view of an optional string.
pub open spec fn opt_view(o: Option<String>) -> Option<Seq<char>> {
    match o {
        Some(s) => Some(s@),
        None => None,
    }
}

impl View for DTOWord {
    type V = DTOWordView;

    open spec fn view(&self) -> DTOWordView {
        DTOWordView {
            word: opt_view(self.word),
            unicode: opt_view(self.unicode),
            category: opt_view(self.category),
            genre: opt_view(self.genre),
            number: opt_view(self.number),
            root: opt_view(self.root),
            affix: opt_view(self.affix),
            tonic: opt_view(self.tonic),
            syllables: opt_view(self.syllables),
            locale: opt_view(self.locale),
            origin: opt_view(self.origin),
            synonyms: opt_view(self.synonyms),
            meaning: opt_view(self.meaning),
        }
    }
}

/// A word as shown in listings: the record without the transliteration.
pub struct DTOWordLite {
    pub word: Option<String>,
    pub category: Option<String>,
    pub genre: Option<String>,
    pub number: Option<String>,
    pub root: Option<String>,
    pub affix: Option<String>,
    pub tonic: Option<String>,
    pub syllables: Option<String>,
    pub locale: Option<String>,
    pub origin: Option<String>,
    pub synonyms: Option<String>,
    pub meaning: Option<String>,
}

/// The value of a `DTOWordLite`.
pub struct DTOWordLiteView {
    pub word: Option<Seq<char>>,
    pub category: Option<Seq<char>>,
    pub genre: Option<Seq<char>>,
    pub number: Option<Seq<char>>,
    pub root: Option<Seq<char>>,
    pub affix: Option<Seq<char>>,
    pub tonic: Option<Seq<char>>,
    pub syllables: Option<Seq<char>>,
    pub locale: Option<Seq<char>>,
    pub origin: Option<Seq<char>>,
    pub synonyms: Option<Seq<char>>,
    pub meaning: Option<Seq<char>>,
}

impl View for DTOWordLite {
    type V = DTOWordLiteView;

    open spec fn view(&self) -> DTOWordLiteView {
        DTOWordLiteView {
            word: opt_view(self.word),
            category: opt_view(self.category),
            genre: opt_view(self.genre),
            number: opt_view(self.number),
            root: opt_view(self.root),
            affix: opt_view(self.affix),
            tonic: opt_view(self.tonic),
            syllables: opt_view(self.syllables),
            locale: opt_view(self.locale),
            origin: opt_view(self.origin),
            synonyms: opt_view(self.synonyms),
            meaning: opt_view(self.meaning),
        }
    }
}

/// The listing record of a word: its record without the transliteration.
pub open spec fn lite_record_of_word(w: WordView) -> DTOWordLiteView {
    DTOWordLiteView {
        word: Some(w.word),
        category: Some(w.category),
        genre: Some(w.genre),
        number: Some(w.number),
        root: Some(w.root),
        affix: Some(w.affix),
        tonic: Some(w.tonic),
        syllables: Some(w.syllables),
        locale: Some(w.locale),
        origin: Some(w.origin),
        synonyms: Some(w.synonyms),
        meaning: Some(join_with(w.meaning, SEPARATOR)),
    }
}

/// A present field, or the empty string.
pub open spec fn or_empty(o: Option<Seq<char>>) -> Seq<char> {
    match o {
        Some(s) => s,
        None => Seq::<char>::empty(),
    }
}

/// The word read from a record: absent fields are empty, the meanings are
/// the pieces of the meaning field between separators (none when it is
/// absent), the word is shown and has no references.
pub open spec fn word_of_record(d: DTOWordView) -> WordView {
    WordView {
        word: or_empty(d.word),
        unicode: or_empty(d.unicode),
        category: or_empty(d.category),
        genre: or_empty(d.genre),
        number: or_empty(d.number),
        root: or_empty(d.root),
        affix: or_empty(d.affix),
        tonic: or_empty(d.tonic),
        syllables: or_empty(d.syllables),
        locale: or_empty(d.locale),
        origin: or_empty(d.origin),
        synonyms: or_empty(d.synonyms),
        meaning: match d.meaning {
            Some(m) => split_on(m, SEPARATOR),
            None => Seq::<Seq<char>>::empty(),
        },
        visible: true,
        references: Seq::<Seq<char>>::empty(),
    }
}

/// The record of a word: every field present, the meanings joined by the
/// separator.
pub open spec fn record_of_word(w: WordView) -> DTOWordView {
    DTOWordView {
        word: Some(w.word),
        unicode: Some(w.unicode),
        category: Some(w.category),
        genre: Some(w.genre),
        number: Some(w.number),
        root: Some(w.root),
        affix: Some(w.affix),
        tonic: Some(w.tonic),
        syllables: Some(w.syllables),
        locale: Some(w.locale),
        origin: Some(w.origin),
        synonyms: Some(w.synonyms),
        meaning: Some(join_with(w.meaning, SEPARATOR)),
    }
}

/// The flat row of a word: its twelve text fields in record order, then the
/// meanings joined by the separator.
pub open spec fn row_of_word(w: WordView) -> Seq<Seq<char>> {
    seq![
        w.word,
        w.unicode,
        w.category,
        w.genre,
        w.number,
        w.root,
        w.affix,
        w.tonic,
        w.syllables,
        w.locale,
        w.origin,
        w.synonyms,
        join_with(w.meaning, SEPARATOR),
    ]
}

fn take_or_empty(o: Option<String>) -> (s: String)
    ensures
        s@ == or_empty(opt_view(o)),
{
    match o {
        Some(s) => s,
        None => String::new(),
    }
}

/// A word whose text fields are all empty, with no meanings and no
/// references, shown: what an empty record reads as.
pub open spec fn empty_word() -> WordView {
    word_of_record(DTOWordView {
            word: None,
            unicode: None,
            category: None,
            genre: None,
            number: None,
            root: None,
            affix: None,
            tonic: None,
            syllables: None,
            locale: None,
            origin: None,
            synonyms: None,
            meaning: None,
    })
}

impl Word {
    /// A word whose text fields are all empty, with no meanings and no
    /// references, shown.
    pub fn empty() -> (w: Word)
        ensures
            w@ == empty_word(),
    {
        let w = Word {
            word: String::new(),
            unicode: String::new(),
            category: String::new(),
            genre: String::new(),
            number: String::new(),
            root: String::new(),
            affix: String::new(),
            tonic: String::new(),
            syllables: String::new(),
            locale: String::new(),
            origin: String::new(),
            synonyms: String::new(),
            meaning: Vec::new(),
            visible: true,
            references: Vec::new(),
        };
        assert(string_views(w.meaning@) =~= Seq::<Seq<char>>::empty());
        assert(string_views(w.references@) =~= Seq::<Seq<char>>::empty());
        w
    }

    /// The word that a record describes.
    pub fn from_dto(dto: DTOWord) -> (w: Word)
        ensures
            w@ == word_of_record(dto@),
    {
        let ghost d = dto@;
        let meaning = match dto.meaning {
            Some(m) => split(m.as_str(), SEPARATOR),
            None => Vec::new(),
        };
        let references: Vec<String> = Vec::new();
        assert(string_views(references@) =~= Seq::<Seq<char>>::empty());
        assert(dto.meaning is None ==> string_views(meaning@) =~= Seq::<Seq<char>>::empty());
        Word {
            word: take_or_empty(dto.word),
            unicode: take_or_empty(dto.unicode),
            category: take_or_empty(dto.category),
            genre: take_or_empty(dto.genre),
            number: take_or_empty(dto.number),
            root: take_or_empty(dto.root),
            affix: take_or_empty(dto.affix),
            tonic: take_or_empty(dto.tonic),
            syllables: take_or_empty(dto.syllables),
            locale: take_or_empty(dto.locale),
            origin: take_or_empty(dto.origin),
            synonyms: take_or_empty(dto.synonyms),
            meaning,
            visible: true,
            references,
        }
    }

    /// The flat row of the word, as written to the dictionary file.
    pub fn as_vector(&self) -> (row: Vec<String>)
        ensures
            string_views(row@) == row_of_word(self@),
    {
        let v = self.clone();
        let row = vec![
            v.word,
            v.unicode,
            v.category,
            v.genre,
            v.number,
            v.root,
            v.affix,
            v.tonic,
            v.syllables,
            v.locale,
            v.origin,
            v.synonyms,
            join(&v.meaning, SEPARATOR),
        ];
        assert(string_views(row@) =~= row_of_word(self@));
        row
    }

    /// The record of the word.
    pub fn as_dto(&self) -> (d: DTOWord)
        ensures
            d@ == record_of_word(self@),
    {
        let v = self.clone();
        DTOWord {
            word: Some(v.word),
            unicode: Some(v.unicode),
            category: Some(v.category),
            genre: Some(v.genre),
            number: Some(v.number),
            root: Some(v.root),
            affix: Some(v.affix),
            tonic: Some(v.tonic),
            syllables: Some(v.syllables),
            locale: Some(v.locale),
            origin: Some(v.origin),
            synonyms: Some(v.synonyms),
            meaning: Some(join(&v.meaning, SEPARATOR)),
        }
    }

    /// The listing record of the word: the record without the
    /// transliteration.
    pub fn as_dto_lite(&self) -> (d: DTOWordLite)
        ensures
            d@ == lite_record_of_word(self@),
    {
        let v = self.clone();
        DTOWordLite {
            word: Some(v.word),
            category: Some(v.category),
            genre: Some(v.genre),
            number: Some(v.number),
            root: Some(v.root),
            affix: Some(v.affix),
            tonic: Some(v.tonic),
            syllables: Some(v.syllables),
            locale: Some(v.locale),
            origin: Some(v.origin),
            synonyms: Some(v.synonyms),
            meaning: Some(join(&v.meaning, SEPARATOR)),
        }
    }
}

/// Writing a word to a record and reading it back keeps its text fields and
/// its meanings, provided it has at least one meaning and no meaning holds
/// the separator; the word read back is shown and has no references.
pub proof fn lemma_record_round_trip(w: WordView)
    requires
        w.meaning.len() >= 1,
        forall|i: int| 0 <= i < w.meaning.len() ==> !(#[trigger] w.meaning[i]).contains(SEPARATOR),
    ensures
        word_of_record(record_of_word(w)) == (WordView { visible: true, references: Seq::<Seq<char>>::empty(), ..w }),
{
    lemma_split_join(w.meaning, SEPARATOR);
}

/// Reading a record and writing the word back gives the record with every
/// absent field filled in with the empty string.
pub proof fn lemma_word_round_trip(d: DTOWordView)
    ensures
        record_of_word(word_of_record(d)) == (DTOWordView {
            word: Some(or_empty(d.word)),
            unicode: Some(or_empty(d.unicode)),
            category: Some(or_empty(d.category)),
            genre: Some(or_empty(d.genre)),
            number: Some(or_empty(d.number)),
            root: Some(or_empty(d.root)),
            affix: Some(or_empty(d.affix)),
            tonic: Some(or_empty(d.tonic)),
            syllables: Some(or_empty(d.syllables)),
            locale: Some(or_empty(d.locale)),
            origin: Some(or_empty(d.origin)),
            synonyms: Some(or_empty(d.synonyms)),
            meaning: Some(or_empty(d.meaning)),
        }),
{
    if let Some(m) = d.meaning {
        lemma_join_split(m, SEPARATOR);
    }
}

} // verus!
