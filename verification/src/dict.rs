//! The dictionary: tones, syllables, readings, words and the store that
//! resolves a written form to its entries.

use crate::chunking::{
    chunk_views, chunkings, generate_all_chunkings, is_cut, lemma_chunkings_valid,
};
use crate::line::LineError;
use crate::pinyin::{add_diacritic, can_add_diacritic, can_mark, with_diacritic};
use crate::text::{
    chars_of, flat, lemma_lex_total, lemma_lex_transitive, less, lex_lt, lines, push_char,
    split_lines, string_of, string_views, views,
};
use vstd::hash_map::StringHashMap;
use vstd::prelude::*;

verus! {

/// One of the five pitch contours of Mandarin; the fifth is the neutral tone.
#[derive(Copy, Clone, Debug, PartialEq, Eq, Hash, Structural)]
pub enum Tone {
    First,
    Second,
    Third,
    Fourth,
    Fifth,
}

impl Tone {
    /// The number, 1 to 5, under which the tone is written after a syllable.
    pub open spec fn number(self) -> nat {
        match self {
            Tone::First => 1,
            Tone::Second => 2,
            Tone::Third => 3,
            Tone::Fourth => 4,
            Tone::Fifth => 5,
        }
    }

    /// The tone written as `value`.
    pub fn from(value: u8) -> (tone: Tone)
        requires
            1 <= value <= 5,
        ensures
            tone.number() == value,
    {
        if value == 1 {
            Tone::First
        } else if value == 2 {
            Tone::Second
        } else if value == 3 {
            Tone::Third
        } else if value == 4 {
            Tone::Fourth
        } else {
            Tone::Fifth
        }
    }
}

impl From<Tone> for usize {
    fn from(value: Tone) -> (n: usize) {
        match value {
            Tone::First => 1,
            Tone::Second => 2,
            Tone::Third => 3,
            Tone::Fourth => 4,
            Tone::Fifth => 5,
        }
    }
}

impl vstd::std_specs::convert::FromSpecImpl<Tone> for usize {
    open spec fn obeys_from_spec() -> bool {
        true
    }

    open spec fn from_spec(v: Tone) -> usize {
        v.number() as usize
    }
}

/// What a syllable is: its letters and, unless it is a separator, its tone.
pub struct SyllableModel {
    pub text: Seq<char>,
    pub tone: Option<Tone>,
}

/// One syllable of a transcription.
#[derive(Debug, PartialEq, Eq, Hash)]
pub struct PinYinSyllable {
    pub text: String,
    pub tone: Option<Tone>,
}

impl View for PinYinSyllable {
    type V = SyllableModel;

    open spec fn view(&self) -> SyllableModel {
        SyllableModel { text: self.text@, tone: self.tone }
    }
}

impl Clone for PinYinSyllable {
    fn clone(&self) -> (copy: Self)
        ensures
            copy@ == self@,
    {
        PinYinSyllable { text: self.text.clone(), tone: self.tone }
    }
}

/// The dot that stands between the parts of a transliterated name.
pub open spec fn interpunct() -> Seq<char> {
    seq!['·']
}

/// The tone that the digit `c` stands for, if it is one of `1` to `5`.
pub open spec fn digit_tone(c: char) -> Option<Tone> {
    if c == '1' {
        Some(Tone::First)
    } else if c == '2' {
        Some(Tone::Second)
    } else if c == '3' {
        Some(Tone::Third)
    } else if c == '4' {
        Some(Tone::Fourth)
    } else if c == '5' {
        Some(Tone::Fifth)
    } else {
        None
    }
}

/// Whether `c` is a digit that names no tone.
pub open spec fn is_bad_tone_digit(c: char) -> bool {
    c == '0' || c == '6' || c == '7' || c == '8' || c == '9'
}

/// `s` with every `u:` replaced by `ü`, read from the left.
pub open spec fn fix_umlaut(s: Seq<char>) -> Seq<char>
    decreases s.len(),
{
    if s.len() >= 2 && s[0] == 'u' && s[1] == ':' {
        seq!['ü'] + fix_umlaut(s.skip(2))
    } else if s.len() >= 1 {
        seq![s[0]] + fix_umlaut(s.skip(1))
    } else {
        Seq::empty()
    }
}

/// Whether the token `tok` of a transcription can be read as a syllable: it
/// is the interpunct, or it is not empty and does not end in a digit that
/// names no tone.
pub open spec fn syllable_ok(tok: Seq<char>) -> bool {
    tok == interpunct() || (tok.len() > 0 && !is_bad_tone_digit(tok.last()))
}

/// The syllable that the token `tok` stands for. The interpunct is a
/// syllable of its own without a tone. Of any other token the last character
/// is the tone, where it is a digit from `1` to `5`, and what stands before
/// it is the text, with `u:` written as `ü`.
pub open spec fn syllable(tok: Seq<char>) -> SyllableModel {
    if tok == interpunct() {
        SyllableModel { text: tok, tone: None }
    } else {
        SyllableModel { text: fix_umlaut(tok.drop_last()), tone: digit_tone(tok.last()) }
    }
}

/// The tone that the digit `c` stands for.
fn tone_of_digit(c: char) -> (tone: Option<Tone>)
    ensures
        tone == digit_tone(c),
{
    if c == '1' {
        Some(Tone::First)
    } else if c == '2' {
        Some(Tone::Second)
    } else if c == '3' {
        Some(Tone::Third)
    } else if c == '4' {
        Some(Tone::Fourth)
    } else if c == '5' {
        Some(Tone::Fifth)
    } else {
        None
    }
}

/// The first `n` characters of `chars` with every `u:` replaced by `ü`.
fn umlauts_fixed(chars: &Vec<char>, n: usize) -> (out: Vec<char>)
    requires
        n <= chars.len(),
    ensures
        out@ == fix_umlaut(chars@.take(n as int)),
{
    let ghost s = chars@.take(n as int);
    let mut out: Vec<char> = Vec::new();
    let mut i: usize = 0;
    assert(s.skip(0) =~= s);
    assert(out@ + fix_umlaut(s) =~= fix_umlaut(s));
    while i < n
        invariant
            i <= n <= chars.len(),
            s == chars@.take(n as int),
            fix_umlaut(s) == out@ + fix_umlaut(s.skip(i as int)),
        decreases n - i,
    {
        let ghost rest = s.skip(i as int);
        let ghost before = out@;
        assert(rest[0] == chars@[i as int]);
        if i + 1 < n && chars[i] == 'u' && chars[i + 1] == ':' {
            assert(rest[1] == chars@[i + 1]);
            assert(rest.skip(2) =~= s.skip(i + 2));
            out.push('ü');
            i += 2;
            assert(out@ + fix_umlaut(s.skip(i as int)) =~= before + fix_umlaut(rest));
        } else {
            assert(rest.skip(1) =~= s.skip(i + 1));
            out.push(chars[i]);
            i += 1;
            assert(out@ + fix_umlaut(s.skip(i as int)) =~= before + fix_umlaut(rest));
        }
    }
    assert(out@ + fix_umlaut(s.skip(n as int)) =~= out@);
    out
}

/// Whether `tok` is the interpunct alone.
fn is_interpunct(tok: &Vec<char>) -> (b: bool)
    ensures
        b == (tok@ == interpunct()),
{
    let b = tok.len() == 1 && tok[0] == '·';
    proof {
        if b {
            assert(tok@ =~= interpunct());
        } else if tok.len() == 1 {
            assert(interpunct()[0] == '·');
        }
    }
    b
}

/// Whether the token `tok` can be read as a syllable.
pub fn is_syllable(tok: &Vec<char>) -> (b: bool)
    ensures
        b == syllable_ok(tok@),
{
    if is_interpunct(tok) {
        return true;
    }
    if tok.len() == 0 {
        return false;
    }
    let c = tok[tok.len() - 1];
    !(c == '0' || c == '6' || c == '7' || c == '8' || c == '9')
}

/// Reads the token `tok` of a transcription as a syllable.
pub fn syllable_of(tok: &Vec<char>) -> (syl: PinYinSyllable)
    requires
        syllable_ok(tok@),
    ensures
        syl@ == syllable(tok@),
{
    if is_interpunct(tok) {
        return PinYinSyllable { text: string_of(tok), tone: None };
    }
    let n: usize = tok.len() - 1;
    let text = umlauts_fixed(tok, n);
    assert(tok@.take(n as int) =~= tok@.drop_last());
    PinYinSyllable { text: string_of(&text), tone: tone_of_digit(tok[n]) }
}

impl PinYinSyllable {
    /// Reads a syllable as the dictionary writes it, such as `yang3` or `lu:4`.
    pub fn from(value: &str) -> (syl: PinYinSyllable)
        requires
            syllable_ok(value@),
        ensures
            syl@ == syllable(value@),
    {
        let tok = chars_of(value);
        syllable_of(&tok)
    }

    /// Whether the two syllables have the same text and tone.
    pub fn same(&self, other: &PinYinSyllable) -> (b: bool)
        ensures
            b == (self@ == other@),
    {
        let same_tone = match (self.tone, other.tone) {
            (None, None) => true,
            (Some(a), Some(b)) => a == b,
            _ => false,
        };
        same_tone && self.text == other.text
    }
}

/// The digit under which `tone` is written.
pub open spec fn tone_digit(tone: Tone) -> char {
    match tone {
        Tone::First => '1',
        Tone::Second => '2',
        Tone::Third => '3',
        Tone::Fourth => '4',
        Tone::Fifth => '5',
    }
}

/// `token` in the colour of `tone`: inside a `span` of the class that is
/// named after the tone; as it is where it has no tone.
pub open spec fn coloured(token: Seq<char>, tone: Option<Tone>) -> Seq<char> {
    match tone {
        None => token,
        Some(t) => "<span class=\"tone"@ + seq![tone_digit(t)] + "\">"@ + token + "</span>"@,
    }
}

/// `token` in the colour of `tone`.
pub fn colourise(token: &str, tone: Option<Tone>) -> (html: String)
    ensures
        html@ == coloured(token@, tone),
{
    match tone {
        None => token.to_owned(),
        Some(t) => {
            let digit = match t {
                Tone::First => '1',
                Tone::Second => '2',
                Tone::Third => '3',
                Tone::Fourth => '4',
                Tone::Fifth => '5',
            };
            let mut html = "<span class=\"tone".to_owned();
            push_char(&mut html, digit);
            html.append("\">");
            html.append(token);
            html.append("</span>");
            assert(html@ =~= coloured(token@, tone));
            html
        },
    }
}

/// The syllable `s` as it is shown: its tone written onto it, in the colour
/// of the tone.
pub open spec fn shown(s: SyllableModel) -> Seq<char> {
    coloured(with_diacritic(s.text, s.tone), s.tone)
}

/// The syllables of `r` as they are shown, one after another.
pub open spec fn shown_reading(r: Seq<SyllableModel>) -> Seq<char> {
    flat(Seq::new(r.len(), |i: int| shown(r[i])))
}

/// Whether every syllable of `r` can carry the mark of its tone.
pub open spec fn reading_markable(r: Seq<SyllableModel>) -> bool {
    forall|i: int| 0 <= i < r.len() ==> can_mark((#[trigger] r[i]).text, r[i].tone)
}

/// One reading of a word: its syllables in order.
#[derive(Debug, PartialEq, Eq, Hash)]
pub struct PinYin(pub Vec<PinYinSyllable>);

impl View for PinYin {
    type V = Seq<SyllableModel>;

    open spec fn view(&self) -> Seq<SyllableModel> {
        Seq::new(self.0@.len(), |i: int| self.0@[i]@)
    }
}

impl Clone for PinYin {
    fn clone(&self) -> (copy: Self)
        ensures
            copy@ == self@,
    {
        let mut syllables: Vec<PinYinSyllable> = Vec::new();
        let mut i: usize = 0;
        while i < self.0.len()
            invariant
                i <= self.0.len(),
                syllables.len() == i,
                forall|j: int| 0 <= j < i ==> syllables@[j]@ == self.0@[j]@,
            decreases self.0.len() - i,
        {
            syllables.push(self.0[i].clone());
            i += 1;
        }
        let copy = PinYin(syllables);
        assert(copy@ =~= self@);
        copy
    }
}

impl PinYin {
    /// Whether the two readings have the same syllables in the same order.
    pub fn same(&self, other: &PinYin) -> (b: bool)
        ensures
            b == (self@ == other@),
    {
        if self.0.len() != other.0.len() {
            assert(self@.len() != other@.len());
            return false;
        }
        let mut i: usize = 0;
        while i < self.0.len()
            invariant
                i <= self.0.len(),
                self.0.len() == other.0.len(),
                forall|j: int| 0 <= j < i ==> self.0@[j]@ == other.0@[j]@,
            decreases self.0.len() - i,
        {
            if !self.0[i].same(&other.0[i]) {
                assert(self@[i as int] != other@[i as int]);
                return false;
            }
            i += 1;
        }
        assert(self@ =~= other@);
        true
    }

    /// Whether every syllable can carry the mark of its tone.
    pub fn markable(&self) -> (b: bool)
        ensures
            b == reading_markable(self@),
    {
        let mut i: usize = 0;
        while i < self.0.len()
            invariant
                i <= self.0.len(),
                forall|j: int| 0 <= j < i ==> can_mark((#[trigger] self@[j]).text, self@[j].tone),
            decreases self.0.len() - i,
        {
            if !can_add_diacritic(self.0[i].text.as_str(), self.0[i].tone) {
                assert(!can_mark(self@[i as int].text, self@[i as int].tone));
                return false;
            }
            i += 1;
        }
        true
    }

    /// The reading as it is shown: each syllable with its tone written onto
    /// it and in the colour of its tone.
    pub fn colourise(&self) -> (html: String)
        requires
            reading_markable(self@),
        ensures
            html@ == shown_reading(self@),
    {
        let ghost parts = Seq::new(self@.len(), |i: int| shown(self@[i]));
        let mut html = String::new();
        let mut i: usize = 0;
        assert(parts.take(0) =~= Seq::<Seq<char>>::empty());
        while i < self.0.len()
            invariant
                i <= self.0.len(),
                reading_markable(self@),
                parts == Seq::new(self@.len(), |i: int| shown(self@[i])),
                html@ == flat(parts.take(i as int)),
            decreases self.0.len() - i,
        {
            let pys = &self.0[i];
            assert(pys@ == self@[i as int]);
            let piece = colourise(add_diacritic(pys.text.as_str(), pys.tone).as_str(), pys.tone);
            html.append(piece.as_str());
            i += 1;
            assert(parts.take(i as int).drop_last() =~= parts.take(i - 1));
            assert(parts.take(i as int).last() == piece@);
        }
        assert(parts.take(self@.len() as int) =~= parts);
        html
    }
}

/// Whether the glosses `g` stand in ascending order, none of them twice.
pub open spec fn ascending(g: Seq<Seq<char>>) -> bool {
    forall|i: int, j: int| 0 <= i < j < g.len() ==> lex_lt(#[trigger] g[i], #[trigger] g[j])
}

/// Puts `gloss` in its place in the ascending `list`, unless it is there.
pub fn insert_gloss(list: &mut Vec<String>, gloss: String)
    requires
        ascending(string_views(old(list)@)),
    ensures
        ascending(string_views(final(list)@)),
        string_views(final(list)@).to_set() == string_views(old(list)@).to_set().insert(gloss@),
{
    let chars = chars_of(gloss.as_str());
    let ghost before = string_views(list@);
    let mut p: usize = 0;
    let mut placed = false;
    while p < list.len() && !placed
        invariant
            p <= list.len(),
            string_views(list@) == before,
            chars@ == gloss@,
            forall|j: int| 0 <= j < p ==> lex_lt(#[trigger] before[j], gloss@),
            placed ==> p < list.len() && !lex_lt(before[p as int], gloss@),
        decreases list.len() - p + (if placed { 0int } else { 1int }),
    {
        let here = chars_of(list[p].as_str());
        assert(here@ == before[p as int]);
        if less(&here, &chars) {
            p += 1;
        } else {
            placed = true;
        }
    }
    if p < list.len() && list[p] == gloss {
        assert(before[p as int] == gloss@);
        assert(before.to_set() =~= before.to_set().insert(gloss@));
        return;
    }
    proof {
        if p < list.len() {
            lemma_lex_total(before[p as int], gloss@);
        }
        assert forall|j: int| p <= j < before.len() implies lex_lt(
            gloss@,
            #[trigger] before[j],
        ) by {
            if j > p {
                lemma_lex_transitive(gloss@, before[p as int], before[j]);
            }
        }
    }
    list.insert(p, gloss);
    proof {
        let after = string_views(list@);
        assert(after =~= before.insert(p as int, gloss@));
        assert forall|i: int, j: int| 0 <= i < j < after.len() implies lex_lt(
            #[trigger] after[i],
            #[trigger] after[j],
        ) by {
            if j < p {
                assert(after[i] == before[i] && after[j] == before[j]);
            } else if j == p {
                assert(after[i] == before[i]);
            } else if i < p {
                assert(after[i] == before[i] && after[j] == before[j - 1]);
                lemma_lex_transitive(before[i], gloss@, before[j - 1]);
            } else if i == p {
                assert(after[j] == before[j - 1]);
            } else {
                assert(after[i] == before[i - 1] && after[j] == before[j - 1]);
            }
        }
        assert forall|x: Seq<char>| after.to_set().contains(x) <==> before.to_set().insert(
            gloss@,
        ).contains(x) by {
            if after.contains(x) {
                let k = choose|k: int| 0 <= k < after.len() && after[k] == x;
                if k < p {
                    assert(before[k] == x);
                } else if k > p {
                    assert(before[k - 1] == x);
                }
            }
            if before.contains(x) {
                let k = choose|k: int| 0 <= k < before.len() && before[k] == x;
                if k < p {
                    assert(after[k] == x);
                } else {
                    assert(after[k + 1] == x);
                }
            }
            if x == gloss@ {
                assert(after[p as int] == x);
            }
        }
        assert(after.to_set() =~= before.to_set().insert(gloss@));
    }
}

/// What a word is: its written form, and for each of its readings, in the
/// order in which they were first met, the glosses given under it.
pub struct WordModel {
    pub simplified: Seq<char>,
    pub pinyins: Seq<(Seq<SyllableModel>, Set<Seq<char>>)>,
}

impl WordModel {
    /// Whether the word has the reading `r`.
    pub open spec fn has_reading(self, r: Seq<SyllableModel>) -> bool {
        exists|i: int| 0 <= i < self.pinyins.len() && (#[trigger] self.pinyins[i]).0 == r
    }

    /// A place at which the reading `r` stands.
    pub open spec fn reading_index(self, r: Seq<SyllableModel>) -> int {
        choose|i: int| 0 <= i < self.pinyins.len() && (#[trigger] self.pinyins[i]).0 == r
    }

    /// The glosses given under the reading `r`; none where the word lacks it.
    pub open spec fn glosses(self, r: Seq<SyllableModel>) -> Set<Seq<char>> {
        if self.has_reading(r) {
            self.pinyins[self.reading_index(r)].1
        } else {
            Set::empty()
        }
    }

    /// Whether no reading stands twice.
    pub open spec fn distinct(self) -> bool {
        forall|i: int, j: int|
            0 <= i < j < self.pinyins.len() ==> (#[trigger] self.pinyins[i]).0
                != (#[trigger] self.pinyins[j]).0
    }

    /// The word with the glosses `g` added under the reading `r`: joined to
    /// those already there, or as a new reading behind the others.
    pub open spec fn with_reading(self, r: Seq<SyllableModel>, g: Set<Seq<char>>) -> WordModel {
        if self.has_reading(r) {
            let i = self.reading_index(r);
            WordModel {
                simplified: self.simplified,
                pinyins: self.pinyins.update(i, (r, self.pinyins[i].1.union(g))),
            }
        } else {
            WordModel { simplified: self.simplified, pinyins: self.pinyins.push((r, g)) }
        }
    }

    /// The word with the first `n` readings of `other` added, one after another.
    pub open spec fn absorbed_upto(self, other: WordModel, n: int) -> WordModel
        decreases n,
    {
        if n <= 0 {
            self
        } else {
            self.absorbed_upto(other, n - 1).with_reading(
                other.pinyins[n - 1].0,
                other.pinyins[n - 1].1,
            )
        }
    }

    /// The word with every reading of `other` added.
    pub open spec fn absorbed(self, other: WordModel) -> WordModel {
        self.absorbed_upto(other, other.pinyins.len() as int)
    }
}

/// Adding a reading keeps the readings distinct and the written form.
pub proof fn lemma_with_reading_distinct(w: WordModel, r: Seq<SyllableModel>, g: Set<Seq<char>>)
    requires
        w.distinct(),
    ensures
        w.with_reading(r, g).distinct(),
        w.with_reading(r, g).simplified == w.simplified,
        w.with_reading(r, g).has_reading(r),
        w.with_reading(r, g).glosses(r) == w.glosses(r).union(g),
{
    let n = w.with_reading(r, g);
    if w.has_reading(r) {
        let i = w.reading_index(r);
        assert(n.pinyins[i].0 == r);
        let k = n.reading_index(r);
        assert(k == i) by {
            if k != i {
                assert(n.pinyins[k] == w.pinyins[k]);
                assert(w.pinyins[k].0 == w.pinyins[i].0);
            }
        }
    } else {
        let last = w.pinyins.len() as int;
        assert(n.pinyins[last].0 == r);
        let k = n.reading_index(r);
        assert(k == last) by {
            if k != last {
                assert(n.pinyins[k] == w.pinyins[k]);
            }
        }
        assert(Set::<Seq<char>>::empty().union(g) =~= g);
        assert forall|i: int, j: int| 0 <= i < j < n.pinyins.len() implies (
        #[trigger] n.pinyins[i]).0 != (#[trigger] n.pinyins[j]).0 by {
            if j == last {
                assert(n.pinyins[i] == w.pinyins[i]);
            } else {
                assert(n.pinyins[i] == w.pinyins[i] && n.pinyins[j] == w.pinyins[j]);
            }
        }
    }
}

/// Absorbing a word keeps the written form.
pub proof fn lemma_absorbed_simplified(w: WordModel, other: WordModel, n: int)
    ensures
        w.absorbed_upto(other, n).simplified == w.simplified,
    decreases n,
{
    if n > 0 {
        lemma_absorbed_simplified(w, other, n - 1);
    }
}

/// Absorbing a word keeps the written form and the readings distinct.
pub proof fn lemma_absorbed_distinct(w: WordModel, other: WordModel, n: int)
    requires
        w.distinct(),
    ensures
        w.absorbed_upto(other, n).distinct(),
        w.absorbed_upto(other, n).simplified == w.simplified,
    decreases n,
{
    if n > 0 {
        lemma_absorbed_distinct(w, other, n - 1);
        lemma_with_reading_distinct(
            w.absorbed_upto(other, n - 1),
            other.pinyins[n - 1].0,
            other.pinyins[n - 1].1,
        );
    }
}

/// One entry of the dictionary: a written form with its readings and, under
/// each reading, its glosses in ascending order.
#[derive(Debug, PartialEq)]
pub struct Word {
    /// The simplified characters.
    pub simplified: String,
    /// Each reading with the glosses given under it.
    pub pinyins: Vec<(PinYin, Vec<String>)>,
}

impl View for Word {
    type V = WordModel;

    open spec fn view(&self) -> WordModel {
        WordModel {
            simplified: self.simplified@,
            pinyins: Seq::new(
                self.pinyins@.len(),
                |i: int| (self.pinyins@[i].0@, string_views(self.pinyins@[i].1@).to_set()),
            ),
        }
    }
}

/// A copy of the strings of `list`.
pub fn copy_strings(list: &Vec<String>) -> (copy: Vec<String>)
    ensures
        string_views(copy@) == string_views(list@),
{
    let mut copy: Vec<String> = Vec::new();
    let mut i: usize = 0;
    while i < list.len()
        invariant
            i <= list.len(),
            copy.len() == i,
            forall|j: int| 0 <= j < i ==> copy@[j]@ == list@[j]@,
        decreases list.len() - i,
    {
        copy.push(list[i].clone());
        i += 1;
    }
    assert(string_views(copy@) =~= string_views(list@));
    copy
}

impl Word {
    /// The readings with their glosses as they are listed: each list of
    /// glosses in its order.
    pub open spec fn listing(&self) -> Seq<(Seq<SyllableModel>, Seq<Seq<char>>)> {
        Seq::new(
            self.pinyins@.len(),
            |i: int| (self.pinyins@[i].0@, string_views(self.pinyins@[i].1@)),
        )
    }

    /// Whether the word is well formed: no reading stands twice, and the
    /// glosses under each reading ascend.
    pub open spec fn wf(&self) -> bool {
        &&& self@.distinct()
        &&& forall|i: int|
            0 <= i < self.pinyins@.len() ==> ascending(
                string_views((#[trigger] self.pinyins@[i]).1@),
            )
    }

    /// A word with the written form `simplified` and no reading yet.
    pub fn new(simplified: String) -> (word: Word)
        ensures
            word.wf(),
            word@.simplified == simplified@,
            word@.pinyins.len() == 0,
    {
        Word { simplified, pinyins: Vec::new() }
    }

    /// The place of the reading `pinyin` among the readings, or their number
    /// where the word lacks it.
    fn position(&self, pinyin: &PinYin) -> (k: usize)
        requires
            self.wf(),
        ensures
            k <= self.pinyins.len(),
            (k < self.pinyins.len()) == self@.has_reading(pinyin@),
            k < self.pinyins.len() ==> k == self@.reading_index(pinyin@),
    {
        let mut k: usize = 0;
        while k < self.pinyins.len()
            invariant
                k <= self.pinyins.len(),
                self.wf(),
                forall|j: int| 0 <= j < k ==> (#[trigger] self@.pinyins[j]).0 != pinyin@,
            decreases self.pinyins.len() - k,
        {
            if self.pinyins[k].0.same(pinyin) {
                assert(self@.pinyins[k as int].0 == pinyin@);
                proof {
                    let m = self@;
                    assert(m.has_reading(pinyin@));
                    let c = m.reading_index(pinyin@);
                    assert(0 <= c < m.pinyins.len() && m.pinyins[c].0 == pinyin@);
                    assert(m.distinct());
                    if c < k {
                        assert(m.pinyins[c].0 != pinyin@);
                    } else if c > k {
                        assert(m.pinyins[k as int].0 != m.pinyins[c].0);
                    }
                }
                return k;
            }
            k += 1;
        }
        k
    }

    /// Adds `glosses` under the reading `pinyin`: joins them to those already
    /// given under it, or adds the reading behind the others.
    pub fn add_reading(&mut self, pinyin: PinYin, glosses: &Vec<String>)
        requires
            old(self).wf(),
        ensures
            final(self).wf(),
            final(self)@ == old(self)@.with_reading(pinyin@, string_views(glosses@).to_set()),
    {
        let k = self.position(&pinyin);
        let found = k < self.pinyins.len();
        let mut list: Vec<String> = if found {
            copy_strings(&self.pinyins[k].1)
        } else {
            Vec::new()
        };
        let ghost start = string_views(list@).to_set();
        let ghost added = string_views(glosses@);
        let mut i: usize = 0;
        assert(start.union(added.take(0).to_set()) =~= start);
        while i < glosses.len()
            invariant
                i <= glosses.len(),
                added == string_views(glosses@),
                ascending(string_views(list@)),
                string_views(list@).to_set() == start.union(added.take(i as int).to_set()),
            decreases glosses.len() - i,
        {
            insert_gloss(&mut list, glosses[i].clone());
            i += 1;
            proof {
                let t = added.take(i as int);
                let u = added.take(i - 1);
                assert(t =~= u.push(added[i - 1]));
                assert forall|x: Seq<char>| t.to_set().contains(x) <==> u.to_set().insert(
                    added[i - 1],
                ).contains(x) by {
                    if t.contains(x) {
                        let m = choose|m: int| 0 <= m < t.len() && t[m] == x;
                        if m < u.len() {
                            assert(u[m] == x);
                        }
                    }
                    if u.contains(x) {
                        let m = choose|m: int| 0 <= m < u.len() && u[m] == x;
                        assert(t[m] == x);
                    }
                    if x == added[i - 1] {
                        assert(t[i - 1] == x);
                    }
                }
                assert(string_views(list@).to_set() =~= start.union(t.to_set()));
            }
        }
        assert(added.take(glosses@.len() as int) =~= added);
        proof {
            lemma_with_reading_distinct(old(self)@, pinyin@, added.to_set());
        }
        if found {
            self.pinyins[k] = (pinyin, list);
            assert(self@.pinyins =~= old(self)@.with_reading(pinyin@, added.to_set()).pinyins);
        } else {
            assert(start =~= Set::<Seq<char>>::empty());
            assert(Set::<Seq<char>>::empty().union(added.to_set()) =~= added.to_set());
            self.pinyins.push((pinyin, list));
            assert(self@.pinyins =~= old(self)@.with_reading(pinyin@, added.to_set()).pinyins);
        }
    }

    /// Adds every reading of `other`, with its glosses, to this word.
    pub fn merge(&mut self, other: &Word)
        requires
            old(self).wf(),
        ensures
            final(self).wf(),
            final(self)@ == old(self)@.absorbed(other@),
    {
        let mut i: usize = 0;
        while i < other.pinyins.len()
            invariant
                i <= other.pinyins.len(),
                self.wf(),
                self@ == old(self)@.absorbed_upto(other@, i as int),
            decreases other.pinyins.len() - i,
        {
            self.add_reading(other.pinyins[i].0.clone(), &other.pinyins[i].1);
            i += 1;
        }
    }
}

impl Clone for Word {
    fn clone(&self) -> (copy: Self)
        ensures
            copy@ == self@,
            copy.listing() == self.listing(),
            self.wf() ==> copy.wf(),
    {
        let mut pinyins: Vec<(PinYin, Vec<String>)> = Vec::new();
        let mut i: usize = 0;
        while i < self.pinyins.len()
            invariant
                i <= self.pinyins.len(),
                pinyins.len() == i,
                forall|j: int|
                    0 <= j < i ==> (#[trigger] pinyins@[j]).0@ == self.pinyins@[j].0@
                        && string_views(pinyins@[j].1@) == string_views(self.pinyins@[j].1@),
            decreases self.pinyins.len() - i,
        {
            pinyins.push((self.pinyins[i].0.clone(), copy_strings(&self.pinyins[i].1)));
            i += 1;
        }
        let copy = Word { simplified: self.simplified.clone(), pinyins };
        assert(copy@.pinyins =~= self@.pinyins);
        assert(copy.listing() =~= self.listing());
        copy
    }
}

/// Whether one of `entries` has the written form `key`.
pub open spec fn has_entry(entries: Seq<WordModel>, key: Seq<char>) -> bool {
    exists|i: int| 0 <= i < entries.len() && (#[trigger] entries[i]).simplified == key
}

/// A place at which the entry with the written form `key` stands.
pub open spec fn entry_index(entries: Seq<WordModel>, key: Seq<char>) -> int {
    choose|i: int| 0 <= i < entries.len() && (#[trigger] entries[i]).simplified == key
}

/// Whether no two of `entries` have the same written form.
pub open spec fn keys_distinct(entries: Seq<WordModel>) -> bool {
    forall|i: int, j: int|
        0 <= i < j < entries.len() ==> (#[trigger] entries[i]).simplified
            != (#[trigger] entries[j]).simplified
}

/// `entries` with the word `w` taken in: absorbed by the entry of the same
/// written form, or added behind the others.
pub open spec fn with_word(entries: Seq<WordModel>, w: WordModel) -> Seq<WordModel> {
    if has_entry(entries, w.simplified) {
        let i = entry_index(entries, w.simplified);
        entries.update(i, entries[i].absorbed(w))
    } else {
        entries.push(w)
    }
}

/// Whether the line is a comment: it begins with `#`.
pub open spec fn is_comment(line: Seq<char>) -> bool {
    line.len() > 0 && line[0] == '#'
}

/// Whether the line is neither a comment nor an entry.
pub open spec fn is_bad_line(line: Seq<char>) -> bool {
    !is_comment(line) && crate::line::error(line) is Some
}

/// The entries that the first `n` of the lines `ls` give, comments passed
/// over, each line taken in after those before it.
pub open spec fn built_upto(ls: Seq<Seq<char>>, n: int) -> Seq<WordModel>
    decreases n,
{
    if n <= 0 {
        Seq::empty()
    } else if is_comment(ls[n - 1]) {
        built_upto(ls, n - 1)
    } else {
        with_word(built_upto(ls, n - 1), crate::line::entry(ls[n - 1]))
    }
}

/// The entries that the lines `ls` give.
pub open spec fn built(ls: Seq<Seq<char>>) -> Seq<WordModel> {
    built_upto(ls, ls.len() as int)
}

/// Whether every one of `pieces` is the written form of an entry.
pub open spec fn all_known(entries: Seq<WordModel>, pieces: Seq<Seq<char>>) -> bool {
    forall|j: int| 0 <= j < pieces.len() ==> has_entry(entries, #[trigger] pieces[j])
}

/// The place of the first of `candidates` whose pieces are all known, or
/// their number where there is none.
pub open spec fn first_known(entries: Seq<WordModel>, candidates: Seq<Seq<Seq<char>>>) -> int
    decreases candidates.len(),
{
    if candidates.len() == 0 || all_known(entries, candidates[0]) {
        0
    } else {
        1 + first_known(entries, candidates.skip(1))
    }
}

/// The entries of `pieces`, in their order.
pub open spec fn entries_of(entries: Seq<WordModel>, pieces: Seq<Seq<char>>) -> Seq<WordModel> {
    Seq::new(pieces.len(), |j: int| entries[entry_index(entries, pieces[j])])
}

/// What `word` resolves to: its own entry where it has one; else the entries
/// of the first way to cut it into two or more pieces that are all known;
/// else nothing.
pub open spec fn resolved(entries: Seq<WordModel>, word: Seq<char>) -> Option<Seq<WordModel>> {
    if has_entry(entries, word) {
        Some(seq![entries[entry_index(entries, word)]])
    } else {
        let candidates = chunkings(word);
        let i = first_known(entries, candidates);
        if i < candidates.len() {
            Some(entries_of(entries, candidates[i]))
        } else {
            None
        }
    }
}

/// A place `k` with no fully known candidate before it, and with one at it
/// unless it is the end, is the one that `first_known` yields.
pub proof fn lemma_first_known_is(
    entries: Seq<WordModel>,
    candidates: Seq<Seq<Seq<char>>>,
    k: int,
)
    requires
        0 <= k <= candidates.len(),
        forall|j: int| 0 <= j < k ==> !all_known(entries, #[trigger] candidates[j]),
        k == candidates.len() || all_known(entries, candidates[k]),
    ensures
        first_known(entries, candidates) == k,
    decreases candidates.len(),
{
    if k == 0 {
    } else {
        assert(!all_known(entries, candidates[0]));
        assert forall|j: int| 0 <= j < k - 1 implies !all_known(
            entries,
            #[trigger] candidates.skip(1)[j],
        ) by {
            assert(candidates.skip(1)[j] == candidates[j + 1]);
        }
        lemma_first_known_is(entries, candidates.skip(1), k - 1);
    }
}

/// `first_known` yields a place at or before the end; where it lies inside,
/// every piece of the candidate at it is known.
pub proof fn lemma_first_known(entries: Seq<WordModel>, candidates: Seq<Seq<Seq<char>>>)
    ensures
        0 <= first_known(entries, candidates) <= candidates.len(),
        first_known(entries, candidates) < candidates.len() ==> all_known(
            entries,
            candidates[first_known(entries, candidates)],
        ),
        forall|j: int|
            0 <= j < first_known(entries, candidates) ==> !all_known(
                entries,
                #[trigger] candidates[j],
            ),
    decreases candidates.len(),
{
    if candidates.len() == 0 || all_known(entries, candidates[0]) {
    } else {
        lemma_first_known(entries, candidates.skip(1));
        let k = first_known(entries, candidates);
        if k < candidates.len() {
            assert(candidates[k] == candidates.skip(1)[k - 1]);
        }
        assert forall|j: int| 0 <= j < k implies !all_known(entries, #[trigger] candidates[j]) by {
            if j > 0 {
                assert(candidates[j] == candidates.skip(1)[j - 1]);
            }
        }
    }
}

/// The written forms of `list`, one for each.
pub open spec fn written(list: Seq<WordModel>) -> Seq<Seq<char>> {
    Seq::new(list.len(), |i: int| list[i].simplified)
}

/// What the words in `list` are.
pub open spec fn word_views(list: Seq<&Word>) -> Seq<WordModel> {
    Seq::new(list.len(), |i: int| list[i]@)
}

/// The line of a source that is no entry, counted from 0, and why.
#[derive(Copy, Clone, Debug, PartialEq, Eq)]
pub struct SourceError {
    pub line: usize,
    pub error: LineError,
}

/// The dictionary: one entry for each written form, in the order in which
/// the source first names them.
pub struct CEDict {
    index: StringHashMap<usize>,
    words: Vec<Word>,
}

impl CEDict {
    /// The entries, in the order in which the source first names them.
    pub closed spec fn entries(&self) -> Seq<WordModel> {
        Seq::new(self.words@.len(), |i: int| self.words@[i]@)
    }

    /// Whether the dictionary is well formed: every entry is, and the index
    /// leads from each written form to its entry and to nothing else.
    pub closed spec fn wf(&self) -> bool {
        &&& forall|i: int| 0 <= i < self.words@.len() ==> (#[trigger] self.words@[i]).wf()
        &&& forall|i: int|
            0 <= i < self.words@.len() ==> self.index@.contains_key(
                (#[trigger] self.words@[i]).simplified@,
            ) && self.index@[self.words@[i].simplified@] == i
        &&& forall|k: Seq<char>| #[trigger]
            self.index@.contains_key(k) ==> self.index@[k] < self.words@.len()
                && self.words@[self.index@[k] as int].simplified@ == k
    }

    /// In a well-formed dictionary no two entries have the same written form,
    /// and no entry has a reading twice.
    pub proof fn lemma_wf(&self)
        requires
            self.wf(),
        ensures
            keys_distinct(self.entries()),
            forall|i: int|
                0 <= i < self.entries().len() ==> (#[trigger] self.entries()[i]).distinct(),
    {
        assert forall|i: int, j: int| 0 <= i < j < self.entries().len() implies (
        #[trigger] self.entries()[i]).simplified != (#[trigger] self.entries()[j]).simplified by {
            assert(self.index@[self.words@[i].simplified@] == i);
            assert(self.index@[self.words@[j].simplified@] == j);
        }
        assert forall|i: int| 0 <= i < self.entries().len() implies (
        #[trigger] self.entries()[i]).distinct() by {
            assert(self.words@[i].wf());
        }
    }

    /// The entry with the written form `key`, if there is one.
    pub fn lookup(&self, key: &str) -> (found: Option<&Word>)
        requires
            self.wf(),
        ensures
            match found {
                Some(word) => {
                    &&& has_entry(self.entries(), key@)
                    &&& word@ == self.entries()[entry_index(self.entries(), key@)]
                    &&& word.wf()
                },
                None => !has_entry(self.entries(), key@),
            },
    {
        proof {
            self.lemma_wf();
        }
        match self.index.get(key) {
            Some(i) => {
                let i: usize = *i;
                let word = &self.words[i];
                proof {
                    let e = self.entries();
                    assert(e[i as int].simplified == key@);
                    let c = entry_index(e, key@);
                    if c < i {
                        assert(e[c].simplified != e[i as int].simplified);
                    } else if c > i {
                        assert(e[i as int].simplified != e[c].simplified);
                    }
                }
                Some(word)
            },
            None => {
                proof {
                    if has_entry(self.entries(), key@) {
                        let c = entry_index(self.entries(), key@);
                        assert(self.index@.contains_key(self.words@[c].simplified@));
                    }
                }
                None
            },
        }
    }

    /// Takes the word in: the entry of the same written form absorbs it, or
    /// it becomes a new entry behind the others.
    pub fn insert(&mut self, word: Word)
        requires
            old(self).wf(),
            word.wf(),
        ensures
            final(self).wf(),
            final(self).entries() == with_word(old(self).entries(), word@),
    {
        proof {
            self.lemma_wf();
        }
        let ghost e = self.entries();
        let found: Option<usize> = match self.index.get(word.simplified.as_str()) {
            Some(i) => Some(*i),
            None => None,
        };
        match found {
            Some(i) => {
                proof {
                    assert(e[i as int].simplified == word@.simplified);
                    let c = entry_index(e, word@.simplified);
                    if c < i {
                        assert(e[c].simplified != e[i as int].simplified);
                    } else if c > i {
                        assert(e[i as int].simplified != e[c].simplified);
                    }
                }
                let mut entry = self.words[i].clone();
                entry.merge(&word);
                proof {
                    lemma_absorbed_distinct(e[i as int], word@, word@.pinyins.len() as int);
                }
                self.words[i] = entry;
                assert(self.entries() =~= with_word(e, word@));
                assert forall|j: int| 0 <= j < self.words@.len() implies self.index@.contains_key(
                    (#[trigger] self.words@[j]).simplified@,
                ) && self.index@[self.words@[j].simplified@] == j by {
                    assert(self.words@[j].simplified@ == old(self).words@[j].simplified@);
                }
                assert forall|k: Seq<char>| #[trigger]
                    self.index@.contains_key(k) implies self.index@[k] < self.words@.len()
                    && self.words@[self.index@[k] as int].simplified@ == k by {
                    let m = self.index@[k] as int;
                    assert(self.words@[m].simplified@ == old(self).words@[m].simplified@);
                }
            },
            None => {
                proof {
                    if has_entry(e, word@.simplified) {
                        let c = entry_index(e, word@.simplified);
                        assert(self.index@.contains_key(self.words@[c].simplified@));
                    }
                }
                let n: usize = self.words.len();
                self.index.insert(word.simplified.clone(), n);
                self.words.push(word);
                assert(self.entries() =~= with_word(e, word@));
                assert forall|j: int| 0 <= j < self.words@.len() implies self.index@.contains_key(
                    (#[trigger] self.words@[j]).simplified@,
                ) && self.index@[self.words@[j].simplified@] == j by {
                    if j < n {
                        assert(self.words@[j] == old(self).words@[j]);
                        assert(old(self).index@.contains_key(old(self).words@[j].simplified@));
                    }
                }
                assert forall|k: Seq<char>| #[trigger]
                    self.index@.contains_key(k) implies self.index@[k] < self.words@.len()
                    && self.words@[self.index@[k] as int].simplified@ == k by {
                    if k != word@.simplified {
                        assert(old(self).index@.contains_key(k));
                        let m = old(self).index@[k] as int;
                        assert(self.words@[m] == old(self).words@[m]);
                    }
                }
            },
        }
    }

    /// A dictionary without entries.
    pub fn empty() -> (dict: CEDict)
        ensures
            dict.wf(),
            dict.entries() == Seq::<WordModel>::empty(),
    {
        let dict = CEDict { index: StringHashMap::new(), words: Vec::new() };
        assert(dict.entries() =~= Seq::<WordModel>::empty());
        dict
    }

    /// The entries, in the order in which the source first names them.
    pub fn words(&self) -> (words: &Vec<Word>)
        ensures
            words@.len() == self.entries().len(),
            forall|i: int| 0 <= i < words@.len() ==> (#[trigger] words@[i])@ == self.entries()[i],
    {
        &self.words
    }

    /// Reads one line of the source as an entry, or says why it is none.
    pub fn try_parse_line(line: &str) -> (result: Result<Word, LineError>)
        ensures
            match result {
                Ok(word) => crate::line::error(line@) is None && word.wf() && word@
                    == crate::line::entry(line@),
                Err(e) => crate::line::error(line@) == Some(e),
            },
    {
        let chars = chars_of(line);
        crate::line::parse(&chars)
    }

    /// Reads one line of the source, of the form
    /// `一氧化氮 一氧化氮 [yi1 yang3 hua4 dan4] /nitric oxide/`, as an entry.
    pub fn parse_line(line: &str) -> (word: Word)
        requires
            crate::line::error(line@) is None,
        ensures
            word.wf(),
            word@ == crate::line::entry(line@),
    {
        CEDict::try_parse_line(line).unwrap()
    }

    /// Reads a whole source: every line that is no comment is taken in as an
    /// entry. Stops at the first line that is neither.
    pub fn parse(source: &str) -> (result: Result<CEDict, SourceError>)
        ensures
            match result {
                Ok(dict) => {
                    &&& dict.wf()
                    &&& keys_distinct(dict.entries())
                    &&& dict.entries() == built(lines(source@))
                    &&& forall|i: int|
                        0 <= i < lines(source@).len() ==> !is_bad_line(#[trigger] lines(source@)[i])
                },
                Err(e) => {
                    &&& e.line < lines(source@).len()
                    &&& is_bad_line(lines(source@)[e.line as int])
                    &&& crate::line::error(lines(source@)[e.line as int]) == Some(e.error)
                    &&& forall|i: int|
                        0 <= i < e.line ==> !is_bad_line(#[trigger] lines(source@)[i])
                },
            },
    {
        let chars = chars_of(source);
        let ls = split_lines(&chars);
        let mut dict = CEDict::empty();
        let mut i: usize = 0;
        while i < ls.len()
            invariant
                i <= ls.len(),
                views(ls@) == lines(source@),
                dict.wf(),
                dict.entries() == built_upto(lines(source@), i as int),
                forall|j: int| 0 <= j < i ==> !is_bad_line(#[trigger] lines(source@)[j]),
            decreases ls.len() - i,
        {
            let l = &ls[i];
            assert(l@ == lines(source@)[i as int]);
            if l.len() > 0 && l[0] == '#' {
            } else {
                match crate::line::parse(l) {
                    Ok(word) => {
                        dict.insert(word);
                    },
                    Err(error) => {
                        return Err(SourceError { line: i, error });
                    },
                }
            }
            i += 1;
        }
        proof {
            dict.lemma_wf();
        }
        Ok(dict)
    }

    /// The dictionary that the source gives.
    pub fn new(source: &str) -> (dict: CEDict)
        requires
            forall|i: int|
                0 <= i < lines(source@).len() ==> !is_bad_line(#[trigger] lines(source@)[i]),
        ensures
            dict.wf(),
            keys_distinct(dict.entries()),
            dict.entries() == built(lines(source@)),
    {
        CEDict::parse(source).unwrap()
    }

    /// Whether every one of `pieces` is the written form of an entry.
    fn knows_all(&self, pieces: &Vec<String>) -> (known: bool)
        requires
            self.wf(),
        ensures
            known == all_known(self.entries(), string_views(pieces@)),
    {
        let mut j: usize = 0;
        while j < pieces.len()
            invariant
                j <= pieces.len(),
                self.wf(),
                forall|m: int|
                    0 <= m < j ==> has_entry(self.entries(), #[trigger] string_views(pieces@)[m]),
            decreases pieces.len() - j,
        {
            if self.lookup(pieces[j].as_str()).is_none() {
                assert(!has_entry(self.entries(), string_views(pieces@)[j as int]));
                return false;
            }
            j += 1;
        }
        true
    }

    /// The entries of `pieces`, in their order.
    fn entries_for<'a>(&'a self, pieces: &Vec<String>) -> (found: Vec<&'a Word>)
        requires
            self.wf(),
            all_known(self.entries(), string_views(pieces@)),
        ensures
            word_views(found@) == entries_of(self.entries(), string_views(pieces@)),
    {
        let mut found: Vec<&'a Word> = Vec::new();
        let mut j: usize = 0;
        while j < pieces.len()
            invariant
                j <= pieces.len(),
                self.wf(),
                all_known(self.entries(), string_views(pieces@)),
                found.len() == j,
                forall|m: int|
                    0 <= m < j ==> (#[trigger] found@[m])@ == self.entries()[entry_index(
                        self.entries(),
                        string_views(pieces@)[m],
                    )],
            decreases pieces.len() - j,
        {
            assert(has_entry(self.entries(), string_views(pieces@)[j as int]));
            found.push(self.lookup(pieces[j].as_str()).unwrap());
            j += 1;
        }
        assert(word_views(found@) =~= entries_of(self.entries(), string_views(pieces@)));
        found
    }

    /// Resolves `word` to entries: to its own where it has one, else to those
    /// of the coarsest way to cut it into pieces that all have one. Says so
    /// where there is no such way. A word without an entry costs time and
    /// space that double with each of its characters.
    pub fn resolve<'a>(&'a self, word: &str) -> (found: Option<Vec<&'a Word>>)
        requires
            self.wf(),
        ensures
            match found {
                Some(list) => resolved(self.entries(), word@) == Some(word_views(list@)),
                None => resolved(self.entries(), word@) is None,
            },
    {
        if let Some(results) = self.lookup(word) {
            let mut list: Vec<&'a Word> = Vec::new();
            list.push(results);
            assert(word_views(list@) =~= seq![results@]);
            return Some(list);
        }
        let ways = generate_all_chunkings(word);
        let ghost candidates = chunk_views(ways@);
        let mut i: usize = 0;
        while i < ways.len()
            invariant
                i <= ways.len(),
                self.wf(),
                candidates == chunk_views(ways@),
                candidates == chunkings(word@),
                !has_entry(self.entries(), word@),
                forall|j: int| 0 <= j < i ==> !all_known(self.entries(), #[trigger] candidates[j]),
            decreases ways.len() - i,
        {
            assert(candidates[i as int] == string_views(ways@[i as int]@));
            if self.knows_all(&ways[i]) {
                proof {
                    lemma_first_known_is(self.entries(), candidates, i as int);
                }
                return Some(self.entries_for(&ways[i]));
            }
            i += 1;
        }
        proof {
            lemma_first_known_is(self.entries(), candidates, i as int);
        }
        None
    }

    /// All entries that `word` resolves to. Where the word is not in the
    /// dictionary, it is cut into pieces that are; so `共同话题` may give the
    /// entries of `共同` and `话题`.
    pub fn get<'a>(&'a self, word: &str) -> (found: Vec<&'a Word>)
        requires
            self.wf(),
            resolved(self.entries(), word@) is Some,
        ensures
            resolved(self.entries(), word@) == Some(word_views(found@)),
    {
        self.resolve(word).unwrap()
    }
}

/// Taking a word in keeps the written forms of the entries distinct, and
/// the word's written form has an entry afterwards.
pub proof fn lemma_with_word_distinct(entries: Seq<WordModel>, w: WordModel)
    requires
        keys_distinct(entries),
    ensures
        keys_distinct(with_word(entries, w)),
        has_entry(with_word(entries, w), w.simplified),
{
    let after = with_word(entries, w);
    if has_entry(entries, w.simplified) {
        let i = entry_index(entries, w.simplified);
        lemma_absorbed_simplified(entries[i], w, w.pinyins.len() as int);
        assert(after[i].simplified == w.simplified);
        assert forall|a: int, b: int| 0 <= a < b < after.len() implies (
        #[trigger] after[a]).simplified != (#[trigger] after[b]).simplified by {
            assert(after[a].simplified == entries[a].simplified);
            assert(after[b].simplified == entries[b].simplified);
        }
    } else {
        let last = entries.len() as int;
        assert(after[last].simplified == w.simplified);
        assert forall|a: int, b: int| 0 <= a < b < after.len() implies (
        #[trigger] after[a]).simplified != (#[trigger] after[b]).simplified by {
            assert(after[a] == entries[a]);
            if b < last {
                assert(after[b] == entries[b]);
            }
        }
    }
}

/// No two entries that a source gives have the same written form.
pub proof fn lemma_built_distinct(ls: Seq<Seq<char>>, n: int)
    ensures
        keys_distinct(built_upto(ls, n)),
    decreases n,
{
    if n <= 0 {
    } else {
        lemma_built_distinct(ls, n - 1);
        if !is_comment(ls[n - 1]) {
            lemma_with_word_distinct(built_upto(ls, n - 1), crate::line::entry(ls[n - 1]));
        }
    }
}

/// Two lines of a source with the same written form and the same reading
/// give one entry with one reading, and under it the glosses of both lines.
pub proof fn lemma_same_reading_merges(first: Seq<char>, second: Seq<char>)
    requires
        !is_bad_line(first) && !is_comment(first),
        !is_bad_line(second) && !is_comment(second),
        crate::line::written_forms(first)[1] == crate::line::written_forms(second)[1],
        crate::line::reading(first) == crate::line::reading(second),
    ensures
        built(seq![first, second]) == seq![
            WordModel {
                simplified: crate::line::written_forms(first)[1],
                pinyins: seq![
                    (
                        crate::line::reading(first),
                        crate::line::glosses(first).union(crate::line::glosses(second)),
                    ),
                ],
            },
        ],
{
    let ls = seq![first, second];
    let e1 = crate::line::entry(first);
    let e2 = crate::line::entry(second);
    let none = Seq::<WordModel>::empty();
    assert(built_upto(ls, 0) == none);
    assert(!has_entry(none, e1.simplified));
    assert(built_upto(ls, 1) == with_word(none, e1));
    let one = built_upto(ls, 1);
    assert(one =~= seq![e1]);
    assert(one[0].simplified == e2.simplified);
    assert(has_entry(one, e2.simplified));
    let i = entry_index(one, e2.simplified);
    assert(i == 0);
    assert(e1.absorbed_upto(e2, 0) == e1);
    assert(e1.pinyins[0].0 == e2.pinyins[0].0);
    assert(e1.has_reading(e2.pinyins[0].0));
    let k = e1.reading_index(e2.pinyins[0].0);
    assert(k == 0);
    let merged = e1.with_reading(e2.pinyins[0].0, e2.pinyins[0].1);
    assert(e1.absorbed(e2) == merged);
    assert(merged.pinyins =~= seq![
        (
            crate::line::reading(first),
            crate::line::glosses(first).union(crate::line::glosses(second)),
        ),
    ]);
    assert(built(ls) =~= seq![merged]);
}

/// What a word resolves to covers it: every entry found is one of the
/// dictionary, and their written forms, one after another, give the word.
pub proof fn lemma_resolved_covers(entries: Seq<WordModel>, word: Seq<char>)
    requires
        resolved(entries, word) is Some,
    ensures
        flat(written(resolved(entries, word)->0)) == word,
        forall|j: int|
            0 <= j < resolved(entries, word)->0.len() ==> entries.contains(
                #[trigger] resolved(entries, word)->0[j],
            ),
        !has_entry(entries, word) ==> resolved(entries, word)->0.len() >= 2,
{
    let list = resolved(entries, word)->0;
    if has_entry(entries, word) {
        let i = entry_index(entries, word);
        assert(written(list) =~= seq![word]);
        assert(seq![word].drop_last() =~= Seq::<Seq<char>>::empty());
        assert(flat(seq![word].drop_last()) =~= Seq::<char>::empty());
        assert(flat(seq![word]) =~= word);
        assert(list[0] == entries[i]);
    } else {
        let candidates = chunkings(word);
        let i = first_known(entries, candidates);
        lemma_first_known(entries, candidates);
        let pieces = candidates[i];
        lemma_chunkings_valid(word);
        assert(is_cut(pieces, word));
        assert forall|j: int| 0 <= j < pieces.len() implies (#[trigger] written(list)[j])
            == pieces[j] && entries.contains(list[j]) by {
            assert(has_entry(entries, pieces[j]));
            let m = entry_index(entries, pieces[j]);
            assert(list[j] == entries[m]);
        }
        assert(written(list) =~= pieces);
    }
}

} // verus!
