//! From a text to the words that get a card: the text is cut into tokens,
//! each token in simplified Chinese is resolved in the dictionary, and of the
//! entries found those are kept that the level filter lets pass and that are
//! not yet chosen.

use crate::chunking::is_cut;
use crate::dict::{has_entry, resolved, word_views, CEDict, Word, WordModel};
use crate::text::string_views;
use vstd::prelude::*;

verus! {

/// The list of HSK levels of the crate `hsk`; nothing of its inside is used.
#[verifier::external_type_specification]
#[verifier::external_body]
pub struct ExHsk(hsk::Hsk);

/// The segmenter of the crate `jieba_rs`; nothing of its inside is used.
#[verifier::external_type_specification]
#[verifier::external_body]
pub struct ExJieba(jieba_rs::Jieba);

/// Whether the text reads as simplified Chinese, as
/// `cjk::is_simplified_chinese` says.
pub uninterp spec fn simplified_chinese(s: Seq<char>) -> bool;

/// The HSK level of a word as `hsk::Hsk::get_hsk` gives it: 1 to 6, or 0 for
/// a word that the list does not hold.
pub uninterp spec fn hsk_level(word: Seq<char>) -> u8;

/// `cjk::is_simplified_chinese`: whether every character of the text lies in
/// one of the ranges of code points that the crate lists for simplified
/// Chinese. The result is named, not described.
#[verifier::external_body]
fn is_simplified_chinese(s: &str) -> (b: bool)
    ensures
        b == simplified_chinese(s@),
{
    cjk::is_simplified_chinese(s)
}

/// `hsk::Hsk::get_hsk`: the level under which the list holds the word, or 0.
/// Every list is made from the same data, so the level depends on the word
/// alone. The result is named, not described.
#[verifier::external_body]
fn get_hsk(list: &hsk::Hsk, word: &str) -> (level: u8)
    ensures
        level == hsk_level(word@),
{
    list.get_hsk(word)
}

/// `jieba_rs::Jieba::new`: a segmenter with the crate's own word list.
#[verifier::external_body]
fn new_segmenter() -> (jieba: jieba_rs::Jieba) {
    jieba_rs::Jieba::new()
}

/// `jieba_rs::Jieba::add_word`: makes the word known to the segmenter, with
/// the frequency that the segmenter suggests and no tag.
#[verifier::external_body]
fn add_word(jieba: &mut jieba_rs::Jieba, word: &str)
    requires
        word@.len() > 0,
{
    jieba.add_word(word, None, None);
}

/// `jieba_rs::Jieba::cut` without the hidden Markov model: the tokens of the
/// sentence, in order. Where the segmenter cuts is its own choice, and it
/// weighs the words by logarithms whose last digit a machine may round as
/// it likes; so the tokens are not named. What holds of every outcome: the
/// sentence is parted into runs of word characters and runs of others, and
/// each run into tokens that follow one another without a gap, so no token
/// is empty and the tokens, one after another, give the sentence.
#[verifier::external_body]
fn cut(jieba: &jieba_rs::Jieba, sentence: &str) -> (tokens: Vec<String>)
    ensures
        is_cut(string_views(tokens@), sentence@),
{
    jieba.cut(sentence, false).into_iter().map(String::from).collect()
}

/// Whether a word of the level `level` passes the filter: without a filter
/// every word does; with one, a word does unless it has a level and that
/// level is at or below the filter.
pub open spec fn passes(level: u8, filter: Option<u8>) -> bool {
    match filter {
        Some(f) => level == 0 || level > f,
        None => true,
    }
}

/// Whether a word of the level `level` passes the filter.
pub fn passes_filter(level: u8, filter: Option<u8>) -> (b: bool)
    ensures
        b == passes(level, filter),
{
    match filter {
        Some(f) => level == 0 || level > f,
        None => true,
    }
}

/// The selection `sel` after the first `n` of the entries `found` were
/// offered, each with its level: an entry is added behind the others if it
/// passes the filter and none of its written form is chosen yet.
pub open spec fn chosen_upto(
    sel: Seq<WordModel>,
    found: Seq<WordModel>,
    levels: Seq<u8>,
    filter: Option<u8>,
    n: int,
) -> Seq<WordModel>
    decreases n,
{
    if n <= 0 {
        sel
    } else {
        let prev = chosen_upto(sel, found, levels, filter, n - 1);
        if passes(levels[n - 1], filter) && !has_entry(prev, found[n - 1].simplified) {
            prev.push(found[n - 1])
        } else {
            prev
        }
    }
}

/// Whether an entry of the written form `key` is among `selection`.
fn is_chosen(selection: &Vec<&Word>, key: &String) -> (b: bool)
    ensures
        b == has_entry(word_views(selection@), key@),
{
    let mut i: usize = 0;
    while i < selection.len()
        invariant
            i <= selection.len(),
            forall|j: int| 0 <= j < i ==> (#[trigger] word_views(selection@)[j]).simplified != key@,
        decreases selection.len() - i,
    {
        if selection[i].simplified == *key {
            assert(word_views(selection@)[i as int].simplified == key@);
            return true;
        }
        i += 1;
    }
    false
}

/// Offers the entries `found`, each with its level, to the selection.
pub fn choose_cards<'a>(
    selection: &mut Vec<&'a Word>,
    found: &Vec<&'a Word>,
    levels: &Vec<u8>,
    filter: Option<u8>,
)
    requires
        found.len() == levels.len(),
    ensures
        word_views(final(selection)@) == chosen_upto(
            word_views(old(selection)@),
            word_views(found@),
            levels@,
            filter,
            found.len() as int,
        ),
{
    let ghost start = word_views(selection@);
    let mut i: usize = 0;
    while i < found.len()
        invariant
            i <= found.len(),
            found.len() == levels.len(),
            word_views(selection@) == chosen_upto(
                start,
                word_views(found@),
                levels@,
                filter,
                i as int,
            ),
        decreases found.len() - i,
    {
        let result: &'a Word = found[i];
        assert(word_views(found@)[i as int] == result@);
        if passes_filter(levels[i], filter) && !is_chosen(selection, &result.simplified) {
            let ghost before = word_views(selection@);
            selection.push(result);
            assert(word_views(selection@) =~= before.push(result@));
        }
        i += 1;
    }
}

/// The levels of the entries `found`, one for each.
pub open spec fn levels_of(found: Seq<WordModel>) -> Seq<u8> {
    Seq::new(found.len(), |i: int| hsk_level(found[i].simplified))
}

/// Whether the token is one that must resolve and does not: it reads as
/// simplified Chinese, and the dictionary has no entries for it.
pub open spec fn is_unresolved(entries: Seq<WordModel>, token: Seq<char>) -> bool {
    simplified_chinese(token) && resolved(entries, token) is None
}

/// The words that get a card after the first `n` tokens: for each token that
/// reads as simplified Chinese, the entries it resolves to are offered to the
/// selection with their levels.
pub open spec fn cards_upto(
    entries: Seq<WordModel>,
    tokens: Seq<Seq<char>>,
    filter: Option<u8>,
    n: int,
) -> Seq<WordModel>
    decreases n,
{
    if n <= 0 {
        Seq::empty()
    } else {
        let prev = cards_upto(entries, tokens, filter, n - 1);
        let token = tokens[n - 1];
        if simplified_chinese(token) && resolved(entries, token) is Some {
            let found = resolved(entries, token)->0;
            chosen_upto(prev, found, levels_of(found), filter, found.len() as int)
        } else {
            prev
        }
    }
}

/// The levels of the entries `found`.
fn levels_for(list: &hsk::Hsk, found: &Vec<&Word>) -> (levels: Vec<u8>)
    ensures
        levels@ == levels_of(word_views(found@)),
{
    let mut levels: Vec<u8> = Vec::new();
    let mut i: usize = 0;
    while i < found.len()
        invariant
            i <= found.len(),
            levels@ == levels_of(word_views(found@)).take(i as int),
        decreases found.len() - i,
    {
        levels.push(get_hsk(list, found[i].simplified.as_str()));
        i += 1;
        assert(levels@ =~= levels_of(word_views(found@)).take(i as int));
    }
    assert(levels_of(word_views(found@)).take(found@.len() as int) =~= levels_of(
        word_views(found@),
    ));
    levels
}

/// The words that get a card, in the order in which the tokens first lead to
/// them. A token that does not read as simplified Chinese is passed over.
/// Where a token that does has no entries, its place among the tokens is
/// returned instead.
pub fn words_for_cards<'a>(
    dict: &'a CEDict,
    list: &hsk::Hsk,
    tokens: &Vec<String>,
    filter: Option<u8>,
) -> (result: Result<Vec<&'a Word>, usize>)
    requires
        dict.wf(),
    ensures
        match result {
            Ok(selection) => {
                &&& forall|i: int|
                    0 <= i < tokens@.len() ==> !is_unresolved(
                        dict.entries(),
                        #[trigger] string_views(tokens@)[i],
                    )
                &&& word_views(selection@) == cards_upto(
                    dict.entries(),
                    string_views(tokens@),
                    filter,
                    tokens@.len() as int,
                )
            },
            Err(at) => {
                &&& at < tokens@.len()
                &&& is_unresolved(dict.entries(), string_views(tokens@)[at as int])
                &&& forall|i: int|
                    0 <= i < at ==> !is_unresolved(
                        dict.entries(),
                        #[trigger] string_views(tokens@)[i],
                    )
            },
        },
{
    let mut selection: Vec<&'a Word> = Vec::new();
    let mut i: usize = 0;
    assert(word_views(selection@) =~= Seq::<WordModel>::empty());
    while i < tokens.len()
        invariant
            i <= tokens.len(),
            dict.wf(),
            forall|j: int|
                0 <= j < i ==> !is_unresolved(dict.entries(), #[trigger] string_views(tokens@)[j]),
            word_views(selection@) == cards_upto(
                dict.entries(),
                string_views(tokens@),
                filter,
                i as int,
            ),
        decreases tokens.len() - i,
    {
        let token = tokens[i].as_str();
        assert(token@ == string_views(tokens@)[i as int]);
        if is_simplified_chinese(token) {
            match dict.resolve(token) {
                Some(found) => {
                    let levels = levels_for(list, &found);
                    choose_cards(&mut selection, &found, &levels, filter);
                },
                None => {
                    return Err(i);
                },
            }
        }
        i += 1;
    }
    Ok(selection)
}

/// The tokens into which the segmenter cuts `text`, once it knows every
/// written form of the dictionary beside its own words. Where it cuts is
/// the segmenter's choice; the tokens are one of the ways to cut `text` into
/// non-empty pieces.
pub fn tokens_of(dict: &CEDict, text: &str) -> (tokens: Vec<String>)
    ensures
        is_cut(string_views(tokens@), text@),
{
    let mut jieba = new_segmenter();
    let words = dict.words();
    let mut i: usize = 0;
    while i < words.len()
        invariant
            i <= words.len(),
        decreases words.len() - i,
    {
        let word = words[i].simplified.as_str();
        if !word.is_empty() {
            add_word(&mut jieba, word);
        }
        i += 1;
    }
    cut(&jieba, text)
}

} // verus!
