//! The grammar of one line of the dictionary source:
//!
//! ```text
//! <traditional> <simplified> [<syllable> <syllable> ...] /<gloss>/<gloss>/.../
//! ```

use crate::dict::{
    interpunct, is_syllable, syllable, syllable_of, syllable_ok, PinYin, PinYinSyllable,
    SyllableModel, Word, WordModel,
};
use crate::text::{
    find, index_of, lemma_words_solid, slice, solid, split, split_on, split_words, string_of,
    string_views, trim_end, trim_end_matches, views, words,
};
use vstd::prelude::*;

verus! {

/// Why a line of the source is no entry.
#[derive(Copy, Clone, Debug, PartialEq, Eq, Structural)]
pub enum LineError {
    /// No `[` stands before the first `/`.
    MissingBracket,
    /// Fewer than two written forms stand before the `[`.
    MissingSimplified,
    /// A syllable ends in a digit that names no tone.
    InvalidTone,
}

/// What stands before the first `/` of the line.
pub open spec fn head(line: Seq<char>) -> Seq<char> {
    split(line, '/')[0]
}

/// The place of the first `[` in the head of the line, or the head's length
/// where it has none.
pub open spec fn bracket(line: Seq<char>) -> int {
    find(head(line), '[')
}

/// The written forms: the words that stand before the bracket.
pub open spec fn written_forms(line: Seq<char>) -> Seq<Seq<char>> {
    words(head(line).take(bracket(line)))
}

/// What closes the transcription: a bracket and a blank.
pub open spec fn closing() -> Seq<char> {
    seq![']', ' ']
}

/// What stands between the bracket and the closing of the head.
pub open spec fn transcription(line: Seq<char>) -> Seq<char> {
    trim_end(head(line).skip(bracket(line) + 1), closing())
}

/// The syllables of the transcription as they are written.
pub open spec fn tokens(line: Seq<char>) -> Seq<Seq<char>> {
    words(transcription(line))
}

/// The reading that the line gives.
pub open spec fn reading(line: Seq<char>) -> Seq<SyllableModel> {
    Seq::new(tokens(line).len(), |i: int| syllable(tokens(line)[i]))
}

/// The glosses that the line gives: what stands between two `/`, or behind
/// the last, and is not empty.
pub open spec fn glosses(line: Seq<char>) -> Set<Seq<char>> {
    Set::new(|g: Seq<char>| g.len() > 0 && split(line, '/').skip(1).contains(g))
}

/// What is wrong with the line, if anything: the first of a missing bracket,
/// a missing simplified form and a syllable with a digit that names no tone.
pub open spec fn error(line: Seq<char>) -> Option<LineError> {
    if bracket(line) >= head(line).len() {
        Some(LineError::MissingBracket)
    } else if written_forms(line).len() < 2 {
        Some(LineError::MissingSimplified)
    } else if exists|i: int|
        0 <= i < tokens(line).len() && !syllable_ok(#[trigger] tokens(line)[i]) {
        Some(LineError::InvalidTone)
    } else {
        None
    }
}

/// The entry that a line without error stands for: the second written form,
/// with the one reading and its glosses.
pub open spec fn entry(line: Seq<char>) -> WordModel {
    WordModel { simplified: written_forms(line)[1], pinyins: seq![(reading(line), glosses(line))] }
}

/// The non-empty pieces among `segments[1..]`, as strings.
fn glosses_among(segments: &Vec<Vec<char>>) -> (found: Vec<String>)
    requires
        segments.len() >= 1,
    ensures
        string_views(found@).to_set() == Set::new(
            |g: Seq<char>| g.len() > 0 && views(segments@).skip(1).contains(g),
        ),
{
    let ghost all = views(segments@);
    let mut found: Vec<String> = Vec::new();
    let mut i: usize = 1;
    while i < segments.len()
        invariant
            1 <= i <= segments.len(),
            all == views(segments@),
            forall|g: Seq<char>|
                string_views(found@).contains(g) <==> g.len() > 0 && exists|j: int|
                    1 <= j < i && #[trigger] all[j] == g,
        decreases segments.len() - i,
    {
        let ghost before = string_views(found@);
        if segments[i].len() > 0 {
            found.push(string_of(&segments[i]));
            assert(string_views(found@) =~= before.push(all[i as int]));
            assert forall|g: Seq<char>|
                string_views(found@).contains(g) <==> g.len() > 0 && exists|j: int|
                    1 <= j < i + 1 && #[trigger] all[j] == g by {
                if string_views(found@).contains(g) {
                    let m = choose|m: int|
                        0 <= m < string_views(found@).len() && string_views(found@)[m] == g;
                    if m < before.len() {
                        assert(before[m] == g);
                        assert(before.contains(g));
                    } else {
                        assert(all[i as int] == g);
                    }
                }
                if g.len() > 0 && exists|j: int| 1 <= j < i + 1 && #[trigger] all[j] == g {
                    let j = choose|j: int| 1 <= j < i + 1 && #[trigger] all[j] == g;
                    if j < i {
                        assert(before.contains(g));
                        let m = choose|m: int| 0 <= m < before.len() && before[m] == g;
                        assert(string_views(found@)[m] == g);
                    } else {
                        assert(string_views(found@)[before.len() as int] == g);
                    }
                }
            }
        } else {
            assert forall|g: Seq<char>|
                string_views(found@).contains(g) <==> g.len() > 0 && exists|j: int|
                    1 <= j < i + 1 && #[trigger] all[j] == g by {
                if g.len() > 0 && exists|j: int| 1 <= j < i + 1 && #[trigger] all[j] == g {
                    let j = choose|j: int| 1 <= j < i + 1 && #[trigger] all[j] == g;
                    assert(j < i);
                }
            }
        }
        i += 1;
    }
    proof {
        let target = Set::new(|g: Seq<char>| g.len() > 0 && all.skip(1).contains(g));
        assert forall|g: Seq<char>| string_views(found@).to_set().contains(g) <==> target.contains(
            g,
        ) by {
            if string_views(found@).contains(g) {
                let j = choose|j: int| 1 <= j < i && #[trigger] all[j] == g;
                assert(all.skip(1)[j - 1] == g);
            }
            if g.len() > 0 && all.skip(1).contains(g) {
                let m = choose|m: int| 0 <= m < all.skip(1).len() && all.skip(1)[m] == g;
                assert(all[m + 1] == g);
            }
        }
        assert(string_views(found@).to_set() =~= target);
    }
    found
}

/// Reads one line of the source as an entry.
pub fn parse(line: &Vec<char>) -> (result: Result<Word, LineError>)
    ensures
        match result {
            Ok(word) => error(line@) is None && word.wf() && word@ == entry(line@),
            Err(e) => error(line@) == Some(e),
        },
{
    let segments = split_on(line, '/');
    let first = &segments[0];
    assert(first@ == head(line@));
    let b = index_of(first, '[');
    if b >= first.len() {
        return Err(LineError::MissingBracket);
    }
    let before = slice(first, 0, b);
    assert(first@.subrange(0, b as int) =~= first@.take(b as int));
    let forms = split_words(&before);
    if forms.len() < 2 {
        return Err(LineError::MissingSimplified);
    }
    let after = slice(first, b + 1, first.len());
    assert(first@.subrange(b + 1, first@.len() as int) =~= first@.skip(b + 1));
    let mut close: Vec<char> = Vec::new();
    close.push(']');
    close.push(' ');
    assert(close@ =~= closing());
    let inner = trim_end_matches(&after, &close);
    let toks = split_words(&inner);
    assert(views(toks@) == tokens(line@));
    let mut syllables: Vec<PinYinSyllable> = Vec::new();
    let mut i: usize = 0;
    while i < toks.len()
        invariant
            i <= toks.len(),
            views(toks@) == tokens(line@),
            bracket(line@) < head(line@).len(),
            written_forms(line@).len() >= 2,
            syllables.len() == i,
            forall|j: int| 0 <= j < i ==> syllable_ok(#[trigger] tokens(line@)[j]),
            forall|j: int| 0 <= j < i ==> (#[trigger] syllables@[j])@ == syllable(tokens(line@)[j]),
        decreases toks.len() - i,
    {
        assert(toks@[i as int]@ == tokens(line@)[i as int]);
        if !is_syllable(&toks[i]) {
            return Err(LineError::InvalidTone);
        }
        syllables.push(syllable_of(&toks[i]));
        i += 1;
    }
    let found = glosses_among(&segments);
    let pinyin = PinYin(syllables);
    assert(pinyin@ =~= reading(line@));
    let mut word = Word::new(string_of(&forms[1]));
    assert(!word@.has_reading(pinyin@));
    word.add_reading(pinyin, &found);
    assert(views(forms@)[1] == written_forms(line@)[1]);
    assert(word@.pinyins =~= entry(line@).pinyins);
    Ok(word)
}

/// The reading has one syllable for each token of the transcription, and
/// where a token is the interpunct, the syllable at its place is the
/// interpunct without a tone.
pub proof fn lemma_interpunct_kept(line: Seq<char>, i: int)
    requires
        0 <= i < tokens(line).len(),
        tokens(line)[i] == interpunct(),
    ensures
        reading(line).len() == tokens(line).len(),
        reading(line)[i].text == interpunct(),
        reading(line)[i].tone is None,
{
}

/// Every token of a transcription is non-empty and holds no white space.
pub proof fn lemma_tokens_solid(line: Seq<char>)
    ensures
        forall|i: int| 0 <= i < tokens(line).len() ==> solid(#[trigger] tokens(line)[i]),
{
    lemma_words_solid(transcription(line));
}

} // verus!
