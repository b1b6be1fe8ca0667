//! The deck: its card model, the colours of the tones, and what a word
//! becomes on a card.

use crate::dict::{
    colourise, coloured, reading_markable, shown_reading, PinYin, SyllableModel, Tone, Word,
    WordModel,
};
use crate::text::{
    chars_of, flat, join, joined, same_chars, split, split_on, string_of, string_views, views,
};
use vstd::prelude::*;
use vstd::utf8::encode_utf8;

verus! {

/// The style of the tones where the colours are off.
pub const PLAIN_TONES: &'static str = ".tone1 {color: black;}\n                 .tone2 {color: black;}\n                 .tone3 {color: black;}\n                 .tone4 {color: black;}\n                 .tone5 {color: black;}";

/// What stands before the colour of the first tone in the style of the tones.
pub const TONE_STYLE_1: &'static str = ".tone1 {color: #";

/// What stands between the colours of the first and second tone.
pub const TONE_STYLE_2: &'static str = ";}\n                 .tone2 {color: #";

/// What stands between the colours of the second and third tone.
pub const TONE_STYLE_3: &'static str = ";}\n                 .tone3 {color: #";

/// What stands between the colours of the third and fourth tone.
pub const TONE_STYLE_4: &'static str = ";}\n                 .tone4 {color: #";

/// What stands between the colours of the fourth and fifth tone.
pub const TONE_STYLE_5: &'static str = ";}\n                 .tone5 {color: #";

/// What stands behind the colour of the fifth tone.
pub const TONE_STYLE_END: &'static str = ";}";

/// The style of a card, without that of the tones.
pub const CARD_STYLE: &'static str = ".card {\n            font-family: arial;\n            font-size: 20px;\n            text-align: center;\n            color: black;\n            background-color: white;\n        }\n        .card { word-wrap: break-word; }\n        .win .chinese { font-family: \"MS Mincho\", \"ＭＳ 明朝\"; }\n        .mac .chinese { }\n        .linux .chinese { font-family: \"Kochi Mincho\", \"東風明朝\"; }\n        .mobile .chinese { font-family: \"PingFang SC\"; }\n        .chinese { font-size: 48px;}\n        \n        .reading { font-size: 16px;}\n        .comment {font-size: 15px; color:grey;}\n        .tags {color:gray;text-align:right;font-size:10pt;}\n        .note {color:gray;font-size:12pt;margin-top:20pt;}\n        .hint {font-size:12pt;}\n        .answer { background-color:bisque; border:dotted;border-width:1px}";

/// The answer side of a card up to the place of the sound.
pub const ANSWER_HEAD: &'static str = "\n                <div class=chinese>\n                    <a href=\"plecoapi://x-callback-url/s?q={{Hanzi}}\" style=\"text-decoration:none\">\n                        {{ColourHanzi}}\n                    </a>\n                </div>\n                <div>{{AllDefinitionsWithPinyin}}</div>\n                <div class=chinese>{{Example}}</div>";

/// The answer side of a card behind the place of the sound.
pub const ANSWER_TAIL: &'static str = "\n                ";

/// The sound on the answer side.
pub const ANSWER_SOUND: &'static str = "<br>{{Sound}}";

/// The number by which the card model is known.
pub const MODEL_ID: i64 = 1607392319;

/// The number by which the deck is known.
pub const DECK_ID: i64 = 1234;

/// What the colours of the tones are.
pub enum ToneColoursModel {
    Off,
    On(Seq<Seq<char>>),
}

/// The colours in which the five tones are shown.
#[derive(Debug)]
pub enum ToneColours {
    /// No tone colours
    Off,
    /// RGB codes for tones 1-5
    On([String; 5]),
}

impl View for ToneColours {
    type V = ToneColoursModel;

    open spec fn view(&self) -> ToneColoursModel {
        match self {
            ToneColours::Off => ToneColoursModel::Off,
            ToneColours::On(codes) => ToneColoursModel::On(string_views(codes@)),
        }
    }
}

impl Clone for ToneColours {
    fn clone(&self) -> (copy: Self)
        ensures
            copy@ == self@,
    {
        match self {
            ToneColours::Off => ToneColours::Off,
            ToneColours::On(codes) => {
                let copy = ToneColours::On(
                    [
                        codes[0].clone(),
                        codes[1].clone(),
                        codes[2].clone(),
                        codes[3].clone(),
                        codes[4].clone(),
                    ],
                );
                assert(copy@->On_0 =~= self@->On_0);
                copy
            },
        }
    }
}

/// Which side of a card asks.
#[derive(Debug, Clone, Copy, PartialEq, Eq, Structural)]
pub enum Side {
    CeToEn,
    EnToCe,
}

/// What is wrong with a list of colours.
pub enum ColourErrorModel {
    BadCode(Seq<char>),
    WrongCount(Seq<char>),
}

/// Why a text names no colours.
#[derive(Debug, PartialEq, Eq)]
pub enum ColourError {
    /// A code is not made of six bytes that are all letters or digits.
    BadCode(String),
    /// The codes are not five.
    WrongCount(String),
}

impl View for ColourError {
    type V = ColourErrorModel;

    open spec fn view(&self) -> ColourErrorModel {
        match self {
            ColourError::BadCode(code) => ColourErrorModel::BadCode(code@),
            ColourError::WrongCount(text) => ColourErrorModel::WrongCount(text@),
        }
    }
}

impl Clone for ColourError {
    fn clone(&self) -> (copy: Self)
        ensures
            copy@ == self@,
    {
        match self {
            ColourError::BadCode(code) => ColourError::BadCode(code.clone()),
            ColourError::WrongCount(text) => ColourError::WrongCount(text.clone()),
        }
    }
}

impl ColourError {
    /// The error in words.
    pub fn message(&self) -> (text: String)
        ensures
            text@ == match self@ {
                ColourErrorModel::BadCode(code) => "Expected 6-char alphanumeric code, got "@
                    + code,
                ColourErrorModel::WrongCount(given) => "Should specify five RGB codes, specified '"@
                    + given + "' instead"@,
            },
    {
        match self {
            ColourError::BadCode(code) => {
                let mut text = "Expected 6-char alphanumeric code, got ".to_owned();
                text.append(code.as_str());
                text
            },
            ColourError::WrongCount(given) => {
                let mut text = "Should specify five RGB codes, specified '".to_owned();
                text.append(given.as_str());
                text.append("' instead");
                text
            },
        }
    }
}

/// The text `s` in small letters, as `str::to_lowercase` of std gives it.
pub uninterp spec fn lowercased(s: Seq<char>) -> Seq<char>;

/// Whether `c` is a letter or a digit, as `char::is_alphanumeric` of std says.
pub uninterp spec fn alphanumeric(c: char) -> bool;

/// `str::to_lowercase` of std: the text with each character in its small
/// form. The result is named, not described.
#[verifier::external_body]
fn to_lowercase(s: &str) -> (lowered: String)
    ensures
        lowered@ == lowercased(s@),
{
    s.to_lowercase()
}

/// `char::is_alphanumeric` of std: whether the character is a letter or a
/// digit of any script. The result is named, not described.
#[verifier::external_body]
fn is_alphanumeric(c: char) -> (b: bool)
    ensures
        b == alphanumeric(c),
{
    c.is_alphanumeric()
}

/// Whether `v` is a colour code: six bytes long, every character a letter or
/// a digit.
pub open spec fn is_code(v: Seq<char>) -> bool {
    encode_utf8(v).len() == 6 && forall|i: int| 0 <= i < v.len() ==> alphanumeric(#[trigger] v[i])
}

/// The place of the first of `parts` that is no colour code, or their number
/// where all are.
pub open spec fn first_bad_code(parts: Seq<Seq<char>>) -> int
    decreases parts.len(),
{
    if parts.len() == 0 || !is_code(parts[0]) {
        0
    } else {
        1 + first_bad_code(parts.skip(1))
    }
}

/// A place `k` with only colour codes before it, and with none at it unless
/// it is the end, is the one that `first_bad_code` yields.
pub proof fn lemma_first_bad_code_is(parts: Seq<Seq<char>>, k: int)
    requires
        0 <= k <= parts.len(),
        forall|j: int| 0 <= j < k ==> is_code(#[trigger] parts[j]),
        k == parts.len() || !is_code(parts[k]),
    ensures
        first_bad_code(parts) == k,
    decreases parts.len(),
{
    if k == 0 {
    } else {
        assert(is_code(parts[0]));
        assert forall|j: int| 0 <= j < k - 1 implies is_code(#[trigger] parts.skip(1)[j]) by {
            assert(parts.skip(1)[j] == parts[j + 1]);
        }
        lemma_first_bad_code_is(parts.skip(1), k - 1);
    }
}

/// Whether the small-letter text turns the colours off.
pub open spec fn is_off(lowered: Seq<char>) -> bool {
    lowered == seq!['o', 'f', 'f'] || lowered == seq!['n', 'o', 'n', 'e']
}

/// The colours that a text names. `lowered` is the text in small letters,
/// `given` the text as it was typed. `off` and `none` turn the colours
/// off. Any other text is cut at each `;`: the first piece that is no colour
/// code is an error, then a number of pieces other than five is one.
pub open spec fn colours_from(lowered: Seq<char>, given: Seq<char>) -> Result<
    ToneColoursModel,
    ColourErrorModel,
> {
    if is_off(lowered) {
        Ok(ToneColoursModel::Off)
    } else {
        let parts = split(lowered, ';');
        let k = first_bad_code(parts);
        if k < parts.len() {
            Err(ColourErrorModel::BadCode(parts[k]))
        } else if parts.len() != 5 {
            Err(ColourErrorModel::WrongCount(given))
        } else {
            Ok(ToneColoursModel::On(parts))
        }
    }
}

/// Whether `v` is a colour code.
fn code(v: &Vec<char>) -> (b: bool)
    ensures
        b == is_code(v@),
{
    let text = string_of(v);
    if text.as_str().as_bytes().len() != 6 {
        return false;
    }
    let mut i: usize = 0;
    while i < v.len()
        invariant
            i <= v.len(),
            encode_utf8(v@).len() == 6,
            forall|j: int| 0 <= j < i ==> alphanumeric(#[trigger] v@[j]),
        decreases v.len() - i,
    {
        if !is_alphanumeric(v[i]) {
            return false;
        }
        i += 1;
    }
    true
}

/// The style of the tones under the colours `c`.
pub open spec fn tone_style(c: ToneColoursModel) -> Seq<char> {
    match c {
        ToneColoursModel::Off => PLAIN_TONES@,
        ToneColoursModel::On(t) => TONE_STYLE_1@ + t[0] + TONE_STYLE_2@ + t[1] + TONE_STYLE_3@
            + t[2] + TONE_STYLE_4@ + t[3] + TONE_STYLE_5@ + t[4] + TONE_STYLE_END@,
    }
}

/// The colours that are used where none are asked for.
pub open spec fn default_colours() -> ToneColoursModel {
    ToneColoursModel::On(seq!["00e304"@, "b35815"@, "f00f0f"@, "1767fe"@, "777777"@])
}

impl Default for ToneColours {
    fn default() -> (colours: Self)
        ensures
            colours@ == default_colours(),
    {
        let colours = ToneColours::On(
            [
                "00e304".to_owned(),
                "b35815".to_owned(),
                "f00f0f".to_owned(),
                "1767fe".to_owned(),
                "777777".to_owned(),
            ],
        );
        assert(colours@->On_0 =~= default_colours()->On_0);
        colours
    }
}

impl ToneColours {
    /// Reads the colours from a text and from the same text in small
    /// letters: `off` or `none`, or five codes of six letters or digits with
    /// `;` between them.
    pub fn from_lowered(lowered: &str, given: &str) -> (result: Result<ToneColours, ColourError>)
        ensures
            match result {
                Ok(colours) => colours_from(lowered@, given@) == Ok::<
                    ToneColoursModel,
                    ColourErrorModel,
                >(colours@),
                Err(e) => colours_from(lowered@, given@) == Err::<
                    ToneColoursModel,
                    ColourErrorModel,
                >(e@),
            },
    {
        let chars = chars_of(lowered);
        let mut off: Vec<char> = Vec::new();
        off.push('o');
        off.push('f');
        off.push('f');
        let mut none: Vec<char> = Vec::new();
        none.push('n');
        none.push('o');
        none.push('n');
        none.push('e');
        assert(off@ =~= seq!['o', 'f', 'f']);
        assert(none@ =~= seq!['n', 'o', 'n', 'e']);
        if same_chars(&chars, &off) || same_chars(&chars, &none) {
            return Ok(ToneColours::Off);
        }
        let parts = split_on(&chars, ';');
        let mut codes: Vec<String> = Vec::new();
        let mut i: usize = 0;
        while i < parts.len()
            invariant
                i <= parts.len(),
                !is_off(lowered@),
                views(parts@) == split(lowered@, ';'),
                codes.len() == i,
                forall|j: int| 0 <= j < i ==> is_code(#[trigger] views(parts@)[j]),
                forall|j: int| 0 <= j < i ==> (#[trigger] codes@[j])@ == parts@[j]@,
            decreases parts.len() - i,
        {
            assert(views(parts@)[i as int] == parts@[i as int]@);
            if !code(&parts[i]) {
                proof {
                    lemma_first_bad_code_is(views(parts@), i as int);
                }
                return Err(ColourError::BadCode(string_of(&parts[i])));
            }
            codes.push(string_of(&parts[i]));
            i += 1;
        }
        proof {
            lemma_first_bad_code_is(views(parts@), i as int);
        }
        if codes.len() != 5 {
            return Err(ColourError::WrongCount(given.to_owned()));
        }
        let t5 = codes.pop().unwrap();
        let t4 = codes.pop().unwrap();
        let t3 = codes.pop().unwrap();
        let t2 = codes.pop().unwrap();
        let t1 = codes.pop().unwrap();
        let colours = ToneColours::On([t1, t2, t3, t4, t5]);
        assert(colours@->On_0 =~= views(parts@));
        Ok(colours)
    }

    /// Reads the colours from a text: `off` or `none` in any case of letters,
    /// or five codes of six letters or digits with `;` between them.
    pub fn from_str(s: &str) -> (result: Result<ToneColours, ColourError>)
        ensures
            match result {
                Ok(colours) => colours_from(lowercased(s@), s@) == Ok::<
                    ToneColoursModel,
                    ColourErrorModel,
                >(colours@),
                Err(e) => colours_from(lowercased(s@), s@) == Err::<
                    ToneColoursModel,
                    ColourErrorModel,
                >(e@),
            },
    {
        let lowered = to_lowercase(s);
        ToneColours::from_lowered(lowered.as_str(), s)
    }

    /// The style that gives each tone its colour.
    pub fn css(&self) -> (style: String)
        ensures
            style@ == tone_style(self@),
    {
        match self {
            ToneColours::Off => PLAIN_TONES.to_owned(),
            ToneColours::On(codes) => {
                let mut style = TONE_STYLE_1.to_owned();
                style.append(codes[0].as_str());
                style.append(TONE_STYLE_2);
                style.append(codes[1].as_str());
                style.append(TONE_STYLE_3);
                style.append(codes[2].as_str());
                style.append(TONE_STYLE_4);
                style.append(codes[3].as_str());
                style.append(TONE_STYLE_5);
                style.append(codes[4].as_str());
                style.append(TONE_STYLE_END);
                assert(style@ =~= tone_style(self@));
                style
            },
        }
    }
}

/// The tones of the reading `r`, syllable by syllable.
pub open spec fn tones(r: Seq<SyllableModel>) -> Seq<Option<Tone>> {
    Seq::new(r.len(), |i: int| r[i].tone)
}

/// Whether the readings of the word agree in their tones: there is a
/// reading, and every reading has the tones of the first.
pub open spec fn agree(w: WordModel) -> bool {
    w.pinyins.len() > 0 && forall|i: int|
        0 <= i < w.pinyins.len() ==> tones((#[trigger] w.pinyins[i]).0) == tones(w.pinyins[0].0)
}

/// The tone in which each character of the word is shown. Where the
/// readings agree these are their tones, one for each character as far as
/// both go; where they do not, every character has the neutral tone.
pub open spec fn consensus(w: WordModel) -> Seq<Option<Tone>> {
    if agree(w) {
        let t = tones(w.pinyins[0].0);
        if t.len() <= w.simplified.len() {
            t
        } else {
            t.take(w.simplified.len() as int)
        }
    } else {
        Seq::new(w.simplified.len(), |i: int| Some(Tone::Fifth))
    }
}

/// The characters of the word, each in the colour of its tone.
pub open spec fn colour_hanzi(w: WordModel) -> Seq<char> {
    flat(
        Seq::new(consensus(w).len(), |i: int| coloured(seq![w.simplified[i]], consensus(w)[i])),
    )
}

/// The glosses `g` as one block: with a dot between each two of them.
pub open spec fn definitions_block(g: Seq<Seq<char>>) -> Seq<char> {
    "<div>"@ + joined(g, " · "@) + "</div>"@
}

/// The glosses of every reading, block after block.
pub open spec fn all_definitions(listing: Seq<(Seq<SyllableModel>, Seq<Seq<char>>)>) -> Seq<char> {
    flat(Seq::new(listing.len(), |i: int| definitions_block(listing[i].1)))
}

/// A reading as it is shown, and the glosses given under it.
pub open spec fn reading_block(r: Seq<SyllableModel>, g: Seq<Seq<char>>) -> Seq<char> {
    "<div class=reading>"@ + shown_reading(r) + "</div><div>"@ + joined(g, " · "@) + "</div>"@
}

/// Every reading with its glosses, block after block.
pub open spec fn all_definitions_with_pinyin(
    listing: Seq<(Seq<SyllableModel>, Seq<Seq<char>>)>,
) -> Seq<char> {
    flat(Seq::new(listing.len(), |i: int| reading_block(listing[i].0, listing[i].1)))
}

/// Whether every reading of the word can be shown: each of its syllables can
/// carry the mark of its tone.
pub open spec fn showable(w: WordModel) -> bool {
    forall|i: int| 0 <= i < w.pinyins.len() ==> reading_markable((#[trigger] w.pinyins[i]).0)
}

/// Whether the two readings have the same tones.
fn same_tones(a: &PinYin, b: &PinYin) -> (same: bool)
    ensures
        same == (tones(a@) == tones(b@)),
{
    if a.0.len() != b.0.len() {
        assert(tones(a@).len() != tones(b@).len());
        return false;
    }
    let mut i: usize = 0;
    while i < a.0.len()
        invariant
            i <= a.0.len(),
            a.0.len() == b.0.len(),
            forall|j: int| 0 <= j < i ==> tones(a@)[j] == tones(b@)[j],
        decreases a.0.len() - i,
    {
        let x = a.0[i].tone;
        let y = b.0[i].tone;
        assert(tones(a@)[i as int] == x && tones(b@)[i as int] == y);
        let equal = match (x, y) {
            (None, None) => true,
            (Some(p), Some(q)) => p == q,
            _ => false,
        };
        if !equal {
            return false;
        }
        i += 1;
    }
    assert(tones(a@) =~= tones(b@));
    true
}

/// Whether the word can be shown.
pub fn can_show(word: &Word) -> (b: bool)
    ensures
        b == showable(word@),
{
    let mut i: usize = 0;
    while i < word.pinyins.len()
        invariant
            i <= word.pinyins.len(),
            forall|j: int| 0 <= j < i ==> reading_markable((#[trigger] word@.pinyins[j]).0),
        decreases word.pinyins.len() - i,
    {
        if !word.pinyins[i].0.markable() {
            assert(!reading_markable(word@.pinyins[i as int].0));
            return false;
        }
        i += 1;
    }
    true
}

/// The tone in which each character of the word is shown: the tones on
/// which its readings agree, or the neutral tone throughout.
pub fn tone_consensus(word: &Word) -> (result: Vec<Option<Tone>>)
    ensures
        result@ == consensus(word@),
{
    let chars = chars_of(word.simplified.as_str());
    let mut agreed = word.pinyins.len() > 0;
    let mut i: usize = 0;
    while agreed && i < word.pinyins.len()
        invariant
            i <= word.pinyins.len(),
            agreed ==> word.pinyins.len() > 0,
            agreed ==> forall|j: int|
                0 <= j < i ==> tones((#[trigger] word@.pinyins[j]).0) == tones(word@.pinyins[0].0),
            !agreed ==> !agree(word@),
        decreases word.pinyins.len() - i + (if agreed { 1int } else { 0int }),
    {
        assert(word@.pinyins[i as int].0 == word.pinyins@[i as int].0@);
        assert(word@.pinyins[0].0 == word.pinyins@[0].0@);
        if same_tones(&word.pinyins[i].0, &word.pinyins[0].0) {
            i += 1;
        } else {
            agreed = false;
        }
    }
    let mut result: Vec<Option<Tone>> = Vec::new();
    if agreed {
        assert(agree(word@));
        let first = &word.pinyins[0].0;
        assert(word@.pinyins[0].0 == first@);
        let mut k: usize = 0;
        while k < first.0.len() && k < chars.len()
            invariant
                k <= first.0.len(),
                k <= chars.len(),
                result@ == tones(first@).take(k as int),
            decreases first.0.len() - k,
        {
            result.push(first.0[k].tone);
            k += 1;
            assert(result@ =~= tones(first@).take(k as int));
        }
        assert(tones(first@).take(first@.len() as int) =~= tones(first@));
    } else {
        let mut k: usize = 0;
        while k < chars.len()
            invariant
                k <= chars.len(),
                result@ == Seq::new(k as nat, |i: int| Some(Tone::Fifth)),
            decreases chars.len() - k,
        {
            result.push(Some(Tone::Fifth));
            k += 1;
            assert(result@ =~= Seq::new(k as nat, |i: int| Some(Tone::Fifth)));
        }
    }
    result
}

/// The characters of the word, each in the colour of its tone.
pub fn to_colour_hanzi(word: &Word) -> (html: String)
    ensures
        html@ == colour_hanzi(word@),
{
    let chars = chars_of(word.simplified.as_str());
    let tones_consensus = tone_consensus(word);
    let ghost parts = Seq::new(
        consensus(word@).len(),
        |i: int| coloured(seq![word@.simplified[i]], consensus(word@)[i]),
    );
    let mut html = String::new();
    let mut i: usize = 0;
    assert(parts.take(0) =~= Seq::<Seq<char>>::empty());
    assert(consensus(word@).len() <= word@.simplified.len());
    while i < tones_consensus.len()
        invariant
            i <= tones_consensus.len(),
            tones_consensus.len() <= chars.len(),
            chars@ == word@.simplified,
            tones_consensus@ == consensus(word@),
            parts == Seq::new(
                consensus(word@).len(),
                |i: int| coloured(seq![word@.simplified[i]], consensus(word@)[i]),
            ),
            html@ == flat(parts.take(i as int)),
        decreases tones_consensus.len() - i,
    {
        let mut one: Vec<char> = Vec::new();
        one.push(chars[i]);
        assert(one@ =~= seq![word@.simplified[i as int]]);
        let piece = colourise(string_of(&one).as_str(), tones_consensus[i]);
        html.append(piece.as_str());
        i += 1;
        assert(parts.take(i as int).drop_last() =~= parts.take(i - 1));
        assert(parts.take(i as int).last() == piece@);
    }
    assert(parts.take(parts.len() as int) =~= parts);
    html
}

/// The glosses of every reading of the word, block after block.
pub fn to_all_definitions(word: &Word) -> (html: String)
    ensures
        html@ == all_definitions(word.listing()),
{
    let ghost listing = word.listing();
    let ghost parts = Seq::new(listing.len(), |i: int| definitions_block(listing[i].1));
    let mut html = String::new();
    let mut i: usize = 0;
    assert(parts.take(0) =~= Seq::<Seq<char>>::empty());
    while i < word.pinyins.len()
        invariant
            i <= word.pinyins.len(),
            listing == word.listing(),
            parts == Seq::new(listing.len(), |i: int| definitions_block(listing[i].1)),
            html@ == flat(parts.take(i as int)),
        decreases word.pinyins.len() - i,
    {
        let ghost before = html@;
        html.append("<div>");
        html.append(join(&word.pinyins[i].1, " · ").as_str());
        html.append("</div>");
        assert(html@ =~= before + definitions_block(listing[i as int].1));
        i += 1;
        assert(parts.take(i as int).drop_last() =~= parts.take(i - 1));
        assert(parts.take(i as int).last() == definitions_block(listing[i - 1].1));
    }
    assert(parts.take(parts.len() as int) =~= parts);
    html
}

/// Every reading of the word as it is shown, with its glosses, block after
/// block.
pub fn to_all_definitions_with_pinyin(word: &Word) -> (html: String)
    requires
        showable(word@),
    ensures
        html@ == all_definitions_with_pinyin(word.listing()),
{
    let ghost listing = word.listing();
    let ghost parts = Seq::new(
        listing.len(),
        |i: int| reading_block(listing[i].0, listing[i].1),
    );
    let mut html = String::new();
    let mut i: usize = 0;
    assert(parts.take(0) =~= Seq::<Seq<char>>::empty());
    while i < word.pinyins.len()
        invariant
            i <= word.pinyins.len(),
            showable(word@),
            listing == word.listing(),
            parts == Seq::new(listing.len(), |i: int| reading_block(listing[i].0, listing[i].1)),
            html@ == flat(parts.take(i as int)),
        decreases word.pinyins.len() - i,
    {
        let ghost before = html@;
        assert(word@.pinyins[i as int].0 == word.pinyins@[i as int].0@);
        html.append("<div class=reading>");
        html.append(word.pinyins[i].0.colourise().as_str());
        html.append("</div><div>");
        html.append(join(&word.pinyins[i].1, " · ").as_str());
        html.append("</div>");
        assert(html@ =~= before + reading_block(listing[i as int].0, listing[i as int].1));
        i += 1;
        assert(parts.take(i as int).drop_last() =~= parts.take(i - 1));
        assert(parts.take(i as int).last() == reading_block(listing[i - 1].0, listing[i - 1].1));
    }
    assert(parts.take(parts.len() as int) =~= parts);
    html
}

/// What a card template is: its name and the two sides of the card.
pub struct TemplateModel {
    pub name: Seq<char>,
    pub qfmt: Seq<char>,
    pub afmt: Seq<char>,
}

/// One kind of card: its name, the question side and the answer side.
#[derive(Debug, PartialEq, Eq)]
pub struct CardTemplate {
    pub name: String,
    pub qfmt: String,
    pub afmt: String,
}

impl View for CardTemplate {
    type V = TemplateModel;

    open spec fn view(&self) -> TemplateModel {
        TemplateModel { name: self.name@, qfmt: self.qfmt@, afmt: self.afmt@ }
    }
}

/// The model of the notes: the fields of a note, the cards made of it and
/// their style.
#[derive(Debug, PartialEq, Eq)]
pub struct NoteModel {
    pub id: i64,
    pub name: String,
    pub fields: Vec<String>,
    pub templates: Vec<CardTemplate>,
    pub css: String,
}

/// The deck: its name and its notes, each a list of field values.
#[derive(Debug, PartialEq, Eq)]
pub struct Deck {
    pub id: i64,
    pub name: String,
    pub description: String,
    pub notes: Vec<Vec<String>>,
}

/// A deck in the making, with the model of its notes.
#[derive(Debug, PartialEq, Eq)]
pub struct Anki {
    pub model: NoteModel,
    pub deck: Deck,
}

/// What the templates in `list` are.
pub open spec fn template_views(list: Seq<CardTemplate>) -> Seq<TemplateModel> {
    Seq::new(list.len(), |i: int| list[i]@)
}

/// The field values of the notes in `notes`.
pub open spec fn note_views(notes: Seq<Vec<String>>) -> Seq<Seq<Seq<char>>> {
    Seq::new(notes.len(), |i: int| string_views(notes[i]@))
}

/// The answer side of a card, with the sound where the deck has sound.
pub open spec fn answer_side(tts: bool) -> Seq<char> {
    ANSWER_HEAD@ + (if tts {
        ANSWER_SOUND@
    } else {
        Seq::empty()
    }) + ANSWER_TAIL@
}

/// The card that shows the glosses and asks for the word.
pub open spec fn en_to_ce(tts: bool) -> TemplateModel {
    TemplateModel {
        name: "Card 1"@,
        qfmt: "<div>{{AllDefinitions}}</div>"@,
        afmt: answer_side(tts),
    }
}

/// The card that shows the word and asks for its glosses.
pub open spec fn ce_to_en(tts: bool) -> TemplateModel {
    TemplateModel {
        name: "Card 2"@,
        qfmt: "<div class=chinese>{{Hanzi}}</div>"@,
        afmt: answer_side(tts),
    }
}

/// The cards of a note: the one that is asked for, or both, the one from the
/// word to its glosses first.
pub open spec fn sides(side: Option<Side>, tts: bool) -> Seq<TemplateModel> {
    match side {
        Some(Side::CeToEn) => seq![ce_to_en(tts)],
        Some(Side::EnToCe) => seq![en_to_ce(tts)],
        None => seq![ce_to_en(tts), en_to_ce(tts)],
    }
}

/// The names of the fields of a note; the sound is the last, where the deck
/// has sound.
pub open spec fn field_names(tts: bool) -> Seq<Seq<char>> {
    let fields = seq![
        "AllDefinitions"@,
        "AllDefinitionsWithPinyin"@,
        "Hanzi"@,
        "ColourHanzi"@,
        "Example"@,
    ];
    if tts {
        fields.push("Sound"@)
    } else {
        fields
    }
}

/// The field values of the note of a word: its glosses, its readings with
/// their glosses, the word, the word in colour, an empty example and, where
/// a sound file is given, the mention of it.
pub open spec fn note_fields(word: &Word, mp3_file: Option<Seq<char>>) -> Seq<Seq<char>> {
    let fields = seq![
        all_definitions(word.listing()),
        all_definitions_with_pinyin(word.listing()),
        word@.simplified,
        colour_hanzi(word@),
        Seq::empty(),
    ];
    match mp3_file {
        Some(f) => fields.push("[sound:"@ + f + "]"@),
        None => fields,
    }
}

/// The answer side of a card.
fn answer(tts: bool) -> (afmt: String)
    ensures
        afmt@ == answer_side(tts),
{
    let mut afmt = ANSWER_HEAD.to_owned();
    if tts {
        afmt.append(ANSWER_SOUND);
    }
    afmt.append(ANSWER_TAIL);
    assert(afmt@ =~= answer_side(tts));
    afmt
}

impl Anki {
    /// A deck of the name `deck_name` without notes, and the model of its
    /// notes: the cards that `side` asks for, the tones in `tone_colours`,
    /// and a field for the sound where `tts` is set.
    pub fn new(
        deck_name: &str,
        tone_colours: &ToneColours,
        side: &Option<Side>,
        tts: bool,
    ) -> (anki: Anki)
        ensures
            anki.model.id == MODEL_ID,
            anki.model.name@ == "Simple Model"@,
            string_views(anki.model.fields@) == field_names(tts),
            template_views(anki.model.templates@) == sides(*side, tts),
            anki.model.css@ == CARD_STYLE@ + tone_style(tone_colours@),
            anki.deck.id == DECK_ID,
            anki.deck.name@ == deck_name@,
            anki.deck.description@ == Seq::<char>::empty(),
            anki.deck.notes@.len() == 0,
    {
        let en_to_ce_card = CardTemplate {
            name: "Card 1".to_owned(),
            qfmt: "<div>{{AllDefinitions}}</div>".to_owned(),
            afmt: answer(tts),
        };
        let ce_to_en_card = CardTemplate {
            name: "Card 2".to_owned(),
            qfmt: "<div class=chinese>{{Hanzi}}</div>".to_owned(),
            afmt: answer(tts),
        };
        let mut templates: Vec<CardTemplate> = Vec::new();
        match side {
            Some(Side::CeToEn) => {
                templates.push(ce_to_en_card);
            },
            Some(Side::EnToCe) => {
                templates.push(en_to_ce_card);
            },
            None => {
                templates.push(ce_to_en_card);
                templates.push(en_to_ce_card);
            },
        }
        assert(template_views(templates@) =~= sides(*side, tts));
        let mut fields: Vec<String> = Vec::new();
        fields.push("AllDefinitions".to_owned());
        fields.push("AllDefinitionsWithPinyin".to_owned());
        fields.push("Hanzi".to_owned());
        fields.push("ColourHanzi".to_owned());
        fields.push("Example".to_owned());
        if tts {
            fields.push("Sound".to_owned());
        }
        assert(string_views(fields@) =~= field_names(tts));
        let mut css = CARD_STYLE.to_owned();
        css.append(tone_colours.css().as_str());
        let model = NoteModel {
            id: MODEL_ID,
            name: "Simple Model".to_owned(),
            fields,
            templates,
            css,
        };
        let deck = Deck {
            id: DECK_ID,
            name: deck_name.to_owned(),
            description: String::new(),
            notes: Vec::new(),
        };
        Anki { model, deck }
    }

    /// Adds the note of `word` to the deck, with the mention of its sound
    /// file where one is given.
    pub fn add_note(&mut self, word: &Word, mp3_file: Option<&str>)
        requires
            showable(word@),
        ensures
            final(self).model == old(self).model,
            final(self).deck.id == old(self).deck.id,
            final(self).deck.name == old(self).deck.name,
            final(self).deck.description == old(self).deck.description,
            note_views(final(self).deck.notes@) == note_views(old(self).deck.notes@).push(
                note_fields(
                    word,
                    match mp3_file {
                        Some(f) => Some(f@),
                        None => None,
                    },
                ),
            ),
    {
        let all_definitions = to_all_definitions(word);
        let all_definitions_with_pinyin = to_all_definitions_with_pinyin(word);
        let colour_hanzi = to_colour_hanzi(word);
        let mut fields: Vec<String> = Vec::new();
        fields.push(all_definitions);
        fields.push(all_definitions_with_pinyin);
        fields.push(word.simplified.clone());
        fields.push(colour_hanzi);
        fields.push(String::new());
        match mp3_file {
            Some(f) => {
                let mut sound = "[sound:".to_owned();
                sound.append(f);
                sound.append("]");
                fields.push(sound);
            },
            None => {},
        }
        let ghost expected = note_fields(
            word,
            match mp3_file {
                Some(f) => Some(f@),
                None => None,
            },
        );
        assert(string_views(fields@) =~= expected);
        let ghost before = note_views(self.deck.notes@);
        self.deck.notes.push(fields);
        assert(note_views(self.deck.notes@) =~= before.push(expected));
    }

    /// Whether every note has as many field values as the model has fields.
    pub open spec fn consistent(&self) -> bool {
        forall|i: int|
            0 <= i < self.deck.notes@.len() ==> (#[trigger] self.deck.notes@[i])@.len()
                == self.model.fields@.len()
    }

    /// Whether every note has as many field values as the model has fields:
    /// only such a deck can be written.
    pub fn is_consistent(&self) -> (b: bool)
        ensures
            b == self.consistent(),
    {
        let mut i: usize = 0;
        while i < self.deck.notes.len()
            invariant
                i <= self.deck.notes.len(),
                forall|j: int|
                    0 <= j < i ==> (#[trigger] self.deck.notes@[j])@.len()
                        == self.model.fields@.len(),
            decreases self.deck.notes.len() - i,
        {
            if self.deck.notes[i].len() != self.model.fields.len() {
                return false;
            }
            i += 1;
        }
        true
    }
}

/// Where the readings of a word agree in their tones, each character of the
/// word is shown in the tone that every reading gives to its place.
pub proof fn lemma_consensus_agreement(w: WordModel, k: int)
    requires
        agree(w),
        0 <= k < w.pinyins.len(),
    ensures
        consensus(w).len() == if tones(w.pinyins[k].0).len() <= w.simplified.len() {
            tones(w.pinyins[k].0).len()
        } else {
            w.simplified.len()
        },
        forall|c: int|
            0 <= c < consensus(w).len() ==> #[trigger] consensus(w)[c] == w.pinyins[k].0[c].tone,
{
    assert(tones(w.pinyins[k].0) == tones(w.pinyins[0].0));
    assert forall|c: int| 0 <= c < consensus(w).len() implies #[trigger] consensus(w)[c]
        == w.pinyins[k].0[c].tone by {
        assert(consensus(w)[c] == tones(w.pinyins[0].0)[c]);
        assert(tones(w.pinyins[k].0)[c] == w.pinyins[k].0[c].tone);
    }
}

/// Where two readings of a word differ in their tones, every character of
/// the word is shown in the neutral tone.
pub proof fn lemma_consensus_disagreement(w: WordModel, i: int, j: int)
    requires
        0 <= i < w.pinyins.len(),
        0 <= j < w.pinyins.len(),
        tones(w.pinyins[i].0) != tones(w.pinyins[j].0),
    ensures
        consensus(w).len() == w.simplified.len(),
        forall|c: int|
            0 <= c < consensus(w).len() ==> #[trigger] consensus(w)[c] == Some(Tone::Fifth),
{
    if agree(w) {
        assert(tones(w.pinyins[i].0) == tones(w.pinyins[0].0));
        assert(tones(w.pinyins[j].0) == tones(w.pinyins[0].0));
    }
}

} // verus!
