//! Writing a tone onto a syllable: which letter takes the mark, and which
//! marked letter stands for it.

use crate::dict::Tone;
use crate::text::{chars_of, slice, string_of};
use vstd::prelude::*;

verus! {

/// Whether `c` is one of the vowel letters of the transcription, in either case.
pub open spec fn is_vowel(c: char) -> bool {
    c == 'a' || c == 'e' || c == 'i' || c == 'o' || c == 'u' || c == 'ü' || c == 'A' || c == 'E'
        || c == 'I' || c == 'O' || c == 'U' || c == 'Ü'
}

/// Whether `c` is a vowel letter.
pub fn vowel(c: char) -> (b: bool)
    ensures
        b == is_vowel(c),
{
    c == 'a' || c == 'e' || c == 'i' || c == 'o' || c == 'u' || c == 'ü' || c == 'A' || c == 'E'
        || c == 'I' || c == 'O' || c == 'U' || c == 'Ü'
}

/// The five forms of the vowel letter `c`: under the first, second, third and
/// fourth tone, and last the plain letter. A letter that is no vowel has none.
pub open spec fn forms(c: char) -> Seq<char> {
    if c == 'a' {
        seq!['ā', 'á', 'ǎ', 'à', 'a']
    } else if c == 'e' {
        seq!['ē', 'é', 'ě', 'è', 'e']
    } else if c == 'i' {
        seq!['ī', 'í', 'ǐ', 'ì', 'i']
    } else if c == 'o' {
        seq!['ō', 'ó', 'ǒ', 'ò', 'o']
    } else if c == 'u' {
        seq!['ū', 'ú', 'ǔ', 'ù', 'u']
    } else if c == 'ü' {
        seq!['ǖ', 'ǘ', 'ǚ', 'ǜ', 'ü']
    } else if c == 'A' {
        seq!['Ā', 'Á', 'Ǎ', 'À', 'A']
    } else if c == 'E' {
        seq!['Ē', 'É', 'Ě', 'È', 'E']
    } else if c == 'I' {
        seq!['Ī', 'Í', 'Ǐ', 'Ì', 'I']
    } else if c == 'O' {
        seq!['Ō', 'Ó', 'Ǒ', 'Ò', 'O']
    } else if c == 'U' {
        seq!['Ū', 'Ú', 'Ǔ', 'Ù', 'U']
    } else if c == 'Ü' {
        seq!['Ǖ', 'Ǘ', 'Ǚ', 'Ǜ', 'Ü']
    } else {
        Seq::empty()
    }
}

/// The vowel letter `c` under `tone`.
pub open spec fn marked(c: char, tone: Tone) -> char
    recommends
        is_vowel(c),
{
    forms(c)[tone.number() - 1]
}

/// The five forms of the vowel letter `c`, or nothing where `c` is no vowel.
fn forms_of(c: char) -> (row: Option<[char; 5]>)
    ensures
        match row {
            Some(r) => is_vowel(c) && r@ == forms(c),
            None => !is_vowel(c),
        },
{
    let row: Option<[char; 5]> = if c == 'a' {
        Some(['ā', 'á', 'ǎ', 'à', 'a'])
    } else if c == 'e' {
        Some(['ē', 'é', 'ě', 'è', 'e'])
    } else if c == 'i' {
        Some(['ī', 'í', 'ǐ', 'ì', 'i'])
    } else if c == 'o' {
        Some(['ō', 'ó', 'ǒ', 'ò', 'o'])
    } else if c == 'u' {
        Some(['ū', 'ú', 'ǔ', 'ù', 'u'])
    } else if c == 'ü' {
        Some(['ǖ', 'ǘ', 'ǚ', 'ǜ', 'ü'])
    } else if c == 'A' {
        Some(['Ā', 'Á', 'Ǎ', 'À', 'A'])
    } else if c == 'E' {
        Some(['Ē', 'É', 'Ě', 'È', 'E'])
    } else if c == 'I' {
        Some(['Ī', 'Í', 'Ǐ', 'Ì', 'I'])
    } else if c == 'O' {
        Some(['Ō', 'Ó', 'Ǒ', 'Ò', 'O'])
    } else if c == 'U' {
        Some(['Ū', 'Ú', 'Ǔ', 'Ù', 'U'])
    } else if c == 'Ü' {
        Some(['Ǖ', 'Ǘ', 'Ǚ', 'Ǜ', 'Ü'])
    } else {
        None
    };
    proof {
        if let Some(r) = row {
            assert(r@ =~= forms(c));
        }
    }
    row
}

/// The vowel letter `c` with the mark of `tone`, in the case of `c`.
pub fn add_diacritic_to_char(c: char, tone: Tone) -> (m: char)
    requires
        is_vowel(c),
    ensures
        m == marked(c, tone),
{
    let row = forms_of(c).unwrap();
    let n: usize = usize::from(tone);
    row[n - 1]
}

/// The index of the first vowel letter of `s`, or the length of `s` where it
/// holds none.
pub open spec fn first_vowel(s: Seq<char>) -> int
    decreases s.len(),
{
    if s.len() == 0 || is_vowel(s[0]) {
        0
    } else {
        1 + first_vowel(s.skip(1))
    }
}

/// The index of the last vowel letter of `s`, or -1 where it holds none.
pub open spec fn last_vowel(s: Seq<char>) -> int
    decreases s.len(),
{
    if s.len() == 0 {
        -1
    } else if is_vowel(s.last()) {
        s.len() - 1
    } else {
        last_vowel(s.drop_last())
    }
}

/// Whether `s` holds a vowel letter.
pub open spec fn has_vowel(s: Seq<char>) -> bool {
    exists|i: int| 0 <= i < s.len() && is_vowel(#[trigger] s[i])
}

/// A position `k` with no vowel before it, and with a vowel at it unless it
/// is the end, is the one that `first_vowel` yields.
pub proof fn lemma_first_vowel_is(s: Seq<char>, k: int)
    requires
        0 <= k <= s.len(),
        forall|j: int| 0 <= j < k ==> !is_vowel(#[trigger] s[j]),
        k == s.len() || is_vowel(s[k]),
    ensures
        first_vowel(s) == k,
    decreases s.len(),
{
    if k == 0 {
    } else {
        assert(!is_vowel(s[0]));
        assert forall|j: int| 0 <= j < k - 1 implies !is_vowel(#[trigger] s.skip(1)[j]) by {
            assert(s.skip(1)[j] == s[j + 1]);
        }
        lemma_first_vowel_is(s.skip(1), k - 1);
    }
}

/// A position `k` with no vowel after it, and with a vowel at it unless it is
/// -1, is the one that `last_vowel` yields.
pub proof fn lemma_last_vowel_is(s: Seq<char>, k: int)
    requires
        -1 <= k < s.len(),
        forall|j: int| k < j < s.len() ==> !is_vowel(#[trigger] s[j]),
        k == -1 || is_vowel(s[k]),
    ensures
        last_vowel(s) == k,
    decreases s.len(),
{
    if s.len() == 0 {
    } else if k == s.len() - 1 {
    } else {
        assert(!is_vowel(s[s.len() - 1]));
        assert forall|j: int| k < j < s.drop_last().len() implies !is_vowel(
            #[trigger] s.drop_last()[j],
        ) by {
            assert(s.drop_last()[j] == s[j]);
        }
        lemma_last_vowel_is(s.drop_last(), k);
    }
}

/// The letters of `s` from its first vowel to its last, both included; empty
/// where `s` holds no vowel.
pub open spec fn vowel_group(s: Seq<char>) -> Seq<char> {
    if first_vowel(s) <= last_vowel(s) {
        s.subrange(first_vowel(s), last_vowel(s) + 1)
    } else {
        Seq::empty()
    }
}

/// Whether `v` holds an `o` directly followed by a `u`.
pub open spec fn has_ou(v: Seq<char>) -> bool {
    exists|i: int| 0 <= i < v.len() - 1 && #[trigger] v[i] == 'o' && v[i + 1] == 'u'
}

/// Whether the letter at `i` of the vowel group `v` takes the tone mark. A
/// group of one letter marks it. Otherwise a group that holds a small `a` or
/// `e` marks each of them; else one that holds `ou` marks each small `o`;
/// else the second letter is marked.
pub open spec fn takes_mark(v: Seq<char>, i: int) -> bool {
    if v.len() == 1 {
        true
    } else if v.contains('a') || v.contains('e') {
        v[i] == 'a' || v[i] == 'e'
    } else if has_ou(v) {
        v[i] == 'o'
    } else {
        i == 1
    }
}

/// Whether every letter of the group `v` that takes the mark is a vowel.
pub open spec fn group_markable(v: Seq<char>) -> bool {
    forall|i: int| 0 <= i < v.len() && takes_mark(v, i) ==> is_vowel(#[trigger] v[i])
}

/// The vowel group `v` with the mark of `tone` on the letters that take it.
pub open spec fn mark_group(v: Seq<char>, tone: Tone) -> Seq<char> {
    Seq::new(
        v.len(),
        |i: int|
            if takes_mark(v, i) {
                marked(v[i], tone)
            } else {
                v[i]
            },
    )
}

/// Whether `tone` is written as a mark: it is there and is not the neutral tone.
pub open spec fn is_written(tone: Option<Tone>) -> bool {
    tone is Some && tone != Some(Tone::Fifth)
}

/// Whether the syllable `text` can carry the mark of `tone`: either no mark
/// is written, or `text` holds a vowel and the letter of its vowel group that
/// takes the mark is one.
pub open spec fn can_mark(text: Seq<char>, tone: Option<Tone>) -> bool {
    is_written(tone) ==> has_vowel(text) && group_markable(vowel_group(text))
}

/// The syllable `text` under `tone`: unchanged where no mark is written, else
/// what stands before its vowel group, the marked group, and what follows it.
pub open spec fn with_diacritic(text: Seq<char>, tone: Option<Tone>) -> Seq<char> {
    if is_written(tone) {
        text.take(first_vowel(text)) + mark_group(vowel_group(text), tone->0) + text.skip(
            last_vowel(text) + 1,
        )
    } else {
        text
    }
}

/// Whether `v` holds a small `a` or `e`.
fn holds_a_or_e(v: &Vec<char>) -> (b: bool)
    ensures
        b == (v@.contains('a') || v@.contains('e')),
{
    let mut i: usize = 0;
    while i < v.len()
        invariant
            i <= v.len(),
            forall|j: int| 0 <= j < i ==> v@[j] != 'a' && v@[j] != 'e',
        decreases v.len() - i,
    {
        if v[i] == 'a' || v[i] == 'e' {
            assert(v@.contains(v@[i as int]));
            return true;
        }
        i += 1;
    }
    false
}

/// Whether `v` holds an `o` directly followed by a `u`.
fn holds_ou(v: &Vec<char>) -> (b: bool)
    ensures
        b == has_ou(v@),
{
    if v.len() < 2 {
        return false;
    }
    let last: usize = v.len() - 1;
    let mut i: usize = 0;
    while i < last
        invariant
            i <= last,
            last == v.len() - 1,
            forall|j: int| 0 <= j < i ==> !(#[trigger] v@[j] == 'o' && v@[j + 1] == 'u'),
        decreases last - i,
    {
        if v[i] == 'o' && v[i + 1] == 'u' {
            return true;
        }
        i += 1;
    }
    false
}

/// Puts the mark of `tone` on the letters of the vowel group that take it.
pub fn add_diacritic_to_vowel_group(vowels: &Vec<char>, tone: Tone) -> (out: Vec<char>)
    requires
        group_markable(vowels@),
    ensures
        out@ == mark_group(vowels@, tone),
{
    let single = vowels.len() == 1;
    let a_or_e = holds_a_or_e(vowels);
    let ou = holds_ou(vowels);
    let mut out: Vec<char> = Vec::new();
    let mut i: usize = 0;
    while i < vowels.len()
        invariant
            i <= vowels.len(),
            group_markable(vowels@),
            single == (vowels.len() == 1),
            a_or_e == (vowels@.contains('a') || vowels@.contains('e')),
            ou == has_ou(vowels@),
            out@ == mark_group(vowels@, tone).take(i as int),
        decreases vowels.len() - i,
    {
        let c = vowels[i];
        let takes = if single {
            true
        } else if a_or_e {
            c == 'a' || c == 'e'
        } else if ou {
            c == 'o'
        } else {
            i == 1
        };
        assert(takes == takes_mark(vowels@, i as int));
        if takes {
            assert(is_vowel(vowels@[i as int]));
            out.push(add_diacritic_to_char(c, tone));
        } else {
            out.push(c);
        }
        i += 1;
        assert(out@ =~= mark_group(vowels@, tone).take(i as int));
    }
    assert(mark_group(vowels@, tone).take(vowels@.len() as int) =~= mark_group(vowels@, tone));
    out
}

/// The index of the first vowel of `chars`, or its length where it holds none.
fn first_vowel_index(chars: &Vec<char>) -> (k: usize)
    ensures
        k == first_vowel(chars@),
        k <= chars.len(),
        (k < chars.len()) == has_vowel(chars@),
        k < chars.len() ==> is_vowel(chars@[k as int]),
{
    let mut i: usize = 0;
    while i < chars.len() && !vowel(chars[i])
        invariant
            i <= chars.len(),
            forall|j: int| 0 <= j < i ==> !is_vowel(#[trigger] chars@[j]),
        decreases chars.len() - i,
    {
        i += 1;
    }
    proof {
        lemma_first_vowel_is(chars@, i as int);
    }
    i
}

/// One more than the index of the last vowel of `chars`; 0 where it holds none.
fn after_last_vowel(chars: &Vec<char>) -> (k: usize)
    ensures
        k == last_vowel(chars@) + 1,
        k <= chars.len(),
        k > 0 ==> is_vowel(chars@[k - 1]),
{
    let mut i: usize = chars.len();
    while i > 0 && !vowel(chars[i - 1])
        invariant
            i <= chars.len(),
            forall|j: int| i <= j < chars.len() ==> !is_vowel(#[trigger] chars@[j]),
        decreases i,
    {
        i -= 1;
    }
    proof {
        lemma_last_vowel_is(chars@, i - 1);
    }
    i
}

/// The vowel group of `chars`.
fn vowel_group_of(chars: &Vec<char>) -> (group: Vec<char>)
    ensures
        group@ == vowel_group(chars@),
{
    let a = first_vowel_index(chars);
    let b = after_last_vowel(chars);
    if a < b {
        slice(chars, a, b)
    } else {
        Vec::new()
    }
}

/// Whether the syllable `text` can carry the mark of `tone`.
pub fn can_add_diacritic(text: &str, tone: Option<Tone>) -> (b: bool)
    ensures
        b == can_mark(text@, tone),
{
    match tone {
        None | Some(Tone::Fifth) => true,
        Some(_) => {
            let chars = chars_of(text);
            let a = first_vowel_index(&chars);
            if a >= chars.len() {
                return false;
            }
            let group = vowel_group_of(&chars);
            let ghost v = group@;
            if group.len() == 1 {
                let b = vowel(group[0]);
                proof {
                    if b {
                        assert(group_markable(v));
                    }
                }
                b
            } else if holds_a_or_e(&group) || holds_ou(&group) {
                assert(group_markable(v));
                true
            } else if group.len() >= 2 {
                let b = vowel(group[1]);
                proof {
                    if b {
                        assert(group_markable(v));
                    } else {
                        assert(takes_mark(v, 1));
                    }
                }
                b
            } else {
                assert(group_markable(v));
                true
            }
        },
    }
}

/// Writes `tone` onto the syllable `text`. The neutral tone, and no tone,
/// leave the text as it is.
pub fn add_diacritic(text: &str, tone: Option<Tone>) -> (out: String)
    requires
        can_mark(text@, tone),
    ensures
        out@ == with_diacritic(text@, tone),
        !is_written(tone) ==> out@ == text@,
{
    let tone_which_needs_adding = match tone {
        None | Some(Tone::Fifth) => {
            return text.to_owned();
        },
        Some(other) => other,
    };
    let chars = chars_of(text);
    let a = first_vowel_index(&chars);
    let b = after_last_vowel(&chars);
    let group = vowel_group_of(&chars);
    let marked_group = add_diacritic_to_vowel_group(&group, tone_which_needs_adding);
    let mut out = slice(&chars, 0, a);
    let mut tail = slice(&chars, b, chars.len());
    let mut marked_group = marked_group;
    out.append(&mut marked_group);
    out.append(&mut tail);
    assert(chars@.subrange(0, a as int) =~= chars@.take(a as int));
    assert(chars@.subrange(b as int, chars@.len() as int) =~= chars@.skip(b as int));
    string_of(&out)
}

/// Writing a tone onto a syllable changes no letter but those of the vowel
/// group that take the mark, and keeps the number of letters.
pub proof fn lemma_with_diacritic_shape(text: Seq<char>, tone: Option<Tone>)
    requires
        can_mark(text, tone),
    ensures
        with_diacritic(text, tone).len() == text.len(),
        forall|i: int|
            0 <= i < text.len() && !(first_vowel(text) <= i <= last_vowel(text) && takes_mark(
                vowel_group(text),
                i - first_vowel(text),
            )) ==> #[trigger] with_diacritic(text, tone)[i] == text[i],
{
    if is_written(tone) {
        lemma_vowel_bounds(text);
        let a = first_vowel(text);
        let b = last_vowel(text);
        let g = vowel_group(text);
        let out = with_diacritic(text, tone);
        assert(g.len() == b + 1 - a);
        assert(out.len() == text.len());
        assert forall|i: int|
            0 <= i < text.len() && !(a <= i <= b && takes_mark(g, i - a)) implies #[trigger] out[i]
            == text[i] by {
            if i < a {
            } else if i <= b {
                assert(out[i] == mark_group(g, tone->0)[i - a]);
            } else {
                assert(out[i] == text.skip(b + 1)[i - b - 1]);
            }
        }
    }
}

/// Where `s` holds a vowel, its first vowel stands at or before its last,
/// both inside `s`.
pub proof fn lemma_vowel_bounds(s: Seq<char>)
    ensures
        0 <= first_vowel(s) <= s.len(),
        -1 <= last_vowel(s) < s.len(),
        has_vowel(s) ==> first_vowel(s) <= last_vowel(s) && is_vowel(s[first_vowel(s)])
            && is_vowel(s[last_vowel(s)]),
        !has_vowel(s) ==> first_vowel(s) == s.len() && last_vowel(s) == -1,
    decreases s.len(),
{
    if s.len() == 0 {
    } else {
        lemma_vowel_bounds(s.skip(1));
        lemma_vowel_bounds(s.drop_last());
        let t = s.skip(1);
        let d = s.drop_last();
        if has_vowel(s) {
            let w = choose|i: int| 0 <= i < s.len() && is_vowel(#[trigger] s[i]);
            if !is_vowel(s[0]) {
                assert(t[w - 1] == s[w]);
                assert(has_vowel(t));
                assert(t[first_vowel(t)] == s[first_vowel(t) + 1]);
            }
            if !is_vowel(s.last()) {
                assert(d[w] == s[w]);
                assert(has_vowel(d));
                assert(d[last_vowel(d)] == s[last_vowel(d)]);
            }
            lemma_first_before_last(s);
        } else {
            assert(!is_vowel(s[0]));
            assert(!is_vowel(s[s.len() - 1]));
            assert(!has_vowel(t)) by {
                if has_vowel(t) {
                    let w = choose|i: int| 0 <= i < t.len() && is_vowel(#[trigger] t[i]);
                    assert(s[w + 1] == t[w]);
                }
            }
            assert(!has_vowel(d)) by {
                if has_vowel(d) {
                    let w = choose|i: int| 0 <= i < d.len() && is_vowel(#[trigger] d[i]);
                    assert(s[w] == d[w]);
                }
            }
        }
    }
}

/// No vowel stands before the first vowel or behind the last.
pub proof fn lemma_vowels_between(s: Seq<char>)
    ensures
        forall|j: int| 0 <= j < first_vowel(s) && j < s.len() ==> !is_vowel(#[trigger] s[j]),
        forall|j: int| 0 <= j && last_vowel(s) < j < s.len() ==> !is_vowel(#[trigger] s[j]),
    decreases s.len(),
{
    if s.len() == 0 {
    } else {
        lemma_vowels_between(s.skip(1));
        lemma_vowels_between(s.drop_last());
        assert forall|j: int| 0 <= j < first_vowel(s) && j < s.len() implies !is_vowel(
            #[trigger] s[j],
        ) by {
            if j > 0 {
                assert(s[j] == s.skip(1)[j - 1]);
            }
        }
        assert forall|j: int| 0 <= j && last_vowel(s) < j < s.len() implies !is_vowel(
            #[trigger] s[j],
        ) by {
            if j < s.len() - 1 {
                assert(s[j] == s.drop_last()[j]);
            }
        }
    }
}

/// The first vowel does not stand behind the last.
proof fn lemma_first_before_last(s: Seq<char>)
    requires
        has_vowel(s),
    ensures
        first_vowel(s) <= last_vowel(s),
{
    lemma_vowels_between(s);
    let w = choose|i: int| 0 <= i < s.len() && is_vowel(#[trigger] s[i]);
    if first_vowel(s) > w {
        assert(!is_vowel(s[w]));
    }
    if last_vowel(s) < w {
        assert(!is_vowel(s[w]));
    }
}

} // verus!
