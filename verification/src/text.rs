//! Strings as sequences of characters: conversion, splitting and trimming.
//!
//! Every operation has a mathematical definition over `Seq<char>` and an
//! executable counterpart over `Vec<char>` that is proved to compute it.

use vstd::prelude::*;

verus! {

/// The character sequences held by a sequence of vectors.
pub open spec fn views(parts: Seq<Vec<char>>) -> Seq<Seq<char>> {
    Seq::new(parts.len(), |i: int| parts[i]@)
}

/// The character sequences held by a sequence of strings.
pub open spec fn string_views(parts: Seq<String>) -> Seq<Seq<char>> {
    Seq::new(parts.len(), |i: int| parts[i]@)
}

/// The characters of `s`, in order.
pub fn chars_of(s: &str) -> (chars: Vec<char>)
    ensures
        chars@ == s@,
{
    let mut chars: Vec<char> = Vec::new();
    for c in it: s.chars()
        invariant
            it.seq() == s@,
            chars@ == s@.take(it.index() as int),
    {
        chars.push(c);
        assert(s@.take(it.index() + 1) =~= s@.take(it.index() as int).push(c));
    }
    assert(s@.take(s@.len() as int) =~= s@);
    chars
}

/// `String::push` of std: the string grows by the one character `c` at its end.
#[verifier::external_body]
pub(crate) fn push_char(s: &mut String, c: char)
    ensures
        final(s)@ == old(s)@.push(c),
{
    s.push(c);
}

/// Appends the characters of `chars` to `s`.
pub fn push_chars(s: &mut String, chars: &Vec<char>)
    ensures
        final(s)@ == old(s)@ + chars@,
{
    let mut i: usize = 0;
    while i < chars.len()
        invariant
            i <= chars.len(),
            s@ == old(s)@ + chars@.take(i as int),
        decreases chars.len() - i,
    {
        push_char(s, chars[i]);
        i += 1;
        assert(chars@.take(i as int) =~= chars@.take(i - 1).push(chars@[i - 1]));
        assert(s@ =~= old(s)@ + chars@.take(i as int));
    }
    assert(chars@.take(chars@.len() as int) =~= chars@);
}

/// The string that holds exactly the characters of `chars`.
pub fn string_of(chars: &Vec<char>) -> (s: String)
    ensures
        s@ == chars@,
{
    let mut s = String::new();
    push_chars(&mut s, chars);
    assert(s@ =~= chars@);
    s
}

/// A copy of `chars[lo..hi]`.
pub fn slice(chars: &Vec<char>, lo: usize, hi: usize) -> (part: Vec<char>)
    requires
        lo <= hi <= chars.len(),
    ensures
        part@ == chars@.subrange(lo as int, hi as int),
{
    let mut part: Vec<char> = Vec::new();
    let mut i: usize = lo;
    while i < hi
        invariant
            lo <= i <= hi <= chars.len(),
            part@ == chars@.subrange(lo as int, i as int),
        decreases hi - i,
    {
        part.push(chars[i]);
        i += 1;
        assert(chars@.subrange(lo as int, i as int) =~= chars@.subrange(lo as int, i - 1).push(
            chars@[i - 1],
        ));
    }
    part
}

/// Whether two character vectors hold the same characters.
pub fn same_chars(a: &Vec<char>, b: &Vec<char>) -> (same: bool)
    ensures
        same == (a@ == b@),
{
    if a.len() != b.len() {
        return false;
    }
    let mut i: usize = 0;
    while i < a.len()
        invariant
            i <= a.len(),
            a.len() == b.len(),
            a@.take(i as int) == b@.take(i as int),
        decreases a.len() - i,
    {
        if a[i] != b[i] {
            return false;
        }
        i += 1;
        assert(a@.take(i as int) =~= a@.take(i - 1).push(a@[i - 1]));
        assert(b@.take(i as int) =~= b@.take(i - 1).push(b@[i - 1]));
    }
    assert(a@.take(a@.len() as int) =~= a@);
    assert(b@.take(b@.len() as int) =~= b@);
    true
}

/// The index of the first `c` in `s`, or the length of `s` where it holds none.
pub open spec fn find(s: Seq<char>, c: char) -> int
    decreases s.len(),
{
    if s.len() == 0 || s[0] == c {
        0
    } else {
        1 + find(s.skip(1), c)
    }
}

/// `find` yields a position at or before the end; nothing before it is `c`,
/// and where it lies inside `s` it holds `c`.
pub proof fn lemma_find(s: Seq<char>, c: char)
    ensures
        0 <= find(s, c) <= s.len(),
        forall|j: int| 0 <= j < find(s, c) ==> s[j] != c,
        find(s, c) < s.len() ==> s[find(s, c)] == c,
    decreases s.len(),
{
    if s.len() == 0 || s[0] == c {
    } else {
        lemma_find(s.skip(1), c);
        assert forall|j: int| 0 <= j < find(s, c) implies s[j] != c by {
            if j > 0 {
                assert(s[j] == s.skip(1)[j - 1]);
            }
        }
        if find(s, c) < s.len() {
            assert(s[find(s, c)] == s.skip(1)[find(s, c) - 1]);
        }
    }
}

/// A position `k` with no `c` before it, and with `c` at it unless it is the
/// end, is the one that `find` yields.
pub proof fn lemma_find_is(s: Seq<char>, c: char, k: int)
    requires
        0 <= k <= s.len(),
        forall|j: int| 0 <= j < k ==> s[j] != c,
        k == s.len() || s[k] == c,
    ensures
        find(s, c) == k,
    decreases s.len(),
{
    if k == 0 {
    } else {
        assert(s[0] != c);
        assert forall|j: int| 0 <= j < k - 1 implies s.skip(1)[j] != c by {
            assert(s.skip(1)[j] == s[j + 1]);
        }
        lemma_find_is(s.skip(1), c, k - 1);
    }
}

/// The index of the first `c` in `chars`, or its length where it holds none.
pub fn index_of(chars: &Vec<char>, c: char) -> (k: usize)
    ensures
        k == find(chars@, c),
        k <= chars.len(),
{
    let mut i: usize = 0;
    while i < chars.len() && chars[i] != c
        invariant
            i <= chars.len(),
            forall|j: int| 0 <= j < i ==> chars@[j] != c,
        decreases chars.len() - i,
    {
        i += 1;
    }
    proof {
        lemma_find_is(chars@, c, i as int);
    }
    i
}

/// Splitting with a piece in progress: `cur` holds the characters read since
/// the last separator.
pub open spec fn split_from(s: Seq<char>, sep: char, cur: Seq<char>) -> Seq<Seq<char>>
    decreases s.len(),
{
    if s.len() == 0 {
        seq![cur]
    } else if s[0] == sep {
        seq![cur] + split_from(s.skip(1), sep, Seq::empty())
    } else {
        split_from(s.skip(1), sep, cur.push(s[0]))
    }
}

/// The pieces of `s` between occurrences of `sep`: one more than there are
/// separators, empty pieces included.
pub open spec fn split(s: Seq<char>, sep: char) -> Seq<Seq<char>> {
    split_from(s, sep, Seq::empty())
}

/// A split always yields at least one piece.
pub proof fn lemma_split_from_nonempty(s: Seq<char>, sep: char, cur: Seq<char>)
    ensures
        split_from(s, sep, cur).len() >= 1,
    decreases s.len(),
{
    if s.len() == 0 {
    } else if s[0] == sep {
        lemma_split_from_nonempty(s.skip(1), sep, Seq::empty());
    } else {
        lemma_split_from_nonempty(s.skip(1), sep, cur.push(s[0]));
    }
}

/// The first piece of a split is what stands before the first separator.
pub proof fn lemma_split_from_head(s: Seq<char>, sep: char, cur: Seq<char>)
    ensures
        split_from(s, sep, cur)[0] == cur + s.take(find(s, sep)),
    decreases s.len(),
{
    if s.len() == 0 {
        assert(cur + s.take(0) =~= cur);
    } else if s[0] == sep {
        assert(cur + s.take(0) =~= cur);
    } else {
        lemma_split_from_head(s.skip(1), sep, cur.push(s[0]));
        lemma_split_from_nonempty(s.skip(1), sep, cur.push(s[0]));
        lemma_find(s.skip(1), sep);
        assert(cur.push(s[0]) + s.skip(1).take(find(s.skip(1), sep)) =~= cur + s.take(
            find(s, sep),
        ));
    }
}

/// Splits `chars` at every `sep`.
pub fn split_on(chars: &Vec<char>, sep: char) -> (parts: Vec<Vec<char>>)
    ensures
        views(parts@) == split(chars@, sep),
        parts.len() >= 1,
{
    let mut parts: Vec<Vec<char>> = Vec::new();
    let mut cur: Vec<char> = Vec::new();
    let mut i: usize = 0;
    assert(chars@.skip(0) =~= chars@);
    assert(views(parts@) + split_from(chars@, sep, cur@) =~= split(chars@, sep));
    while i < chars.len()
        invariant
            i <= chars.len(),
            split(chars@, sep) == views(parts@) + split_from(chars@.skip(i as int), sep, cur@),
        decreases chars.len() - i,
    {
        let c = chars[i];
        let ghost rest = chars@.skip(i as int);
        let ghost before = views(parts@);
        let ghost cur_before = cur@;
        assert(rest.len() > 0 && rest[0] == c);
        assert(rest.skip(1) =~= chars@.skip(i + 1));
        if c == sep {
            parts.push(cur);
            cur = Vec::new();
            assert(views(parts@) =~= before.push(cur_before));
            assert(views(parts@) + split_from(chars@.skip(i + 1), sep, cur@) =~= before
                + split_from(rest, sep, cur_before));
        } else {
            cur.push(c);
        }
        i += 1;
    }
    let ghost before = views(parts@);
    assert(chars@.skip(i as int).len() == 0);
    parts.push(cur);
    assert(views(parts@) =~= before.push(cur@));
    assert(views(parts@) =~= split(chars@, sep));
    parts
}

/// Whether `c` is white space: one of the characters to which Unicode gives
/// the property `White_Space`.
pub open spec fn is_space(c: char) -> bool {
    let n: u32 = c as u32;
    (0x09 <= n <= 0x0D) || n == 0x20 || n == 0x85 || n == 0xA0 || n == 0x1680 || (0x2000 <= n
        <= 0x200A) || n == 0x2028 || n == 0x2029 || n == 0x202F || n == 0x205F || n == 0x3000
}

/// Whether `c` is white space.
pub fn is_whitespace(c: char) -> (b: bool)
    ensures
        b == is_space(c),
{
    let n: u32 = c as u32;
    (0x09 <= n && n <= 0x0D) || n == 0x20 || n == 0x85 || n == 0xA0 || n == 0x1680 || (0x2000 <= n
        && n <= 0x200A) || n == 0x2028 || n == 0x2029 || n == 0x202F || n == 0x205F || n == 0x3000
}

/// What a finished run of characters adds to a list of words: itself, unless
/// it is empty.
pub open spec fn word_if_any(cur: Seq<char>) -> Seq<Seq<char>> {
    if cur.len() > 0 {
        seq![cur]
    } else {
        Seq::empty()
    }
}

/// The words of `s` with a word in progress: `cur` holds the characters read
/// since the last white space.
pub open spec fn words_from(s: Seq<char>, cur: Seq<char>) -> Seq<Seq<char>>
    decreases s.len(),
{
    if s.len() == 0 {
        word_if_any(cur)
    } else if is_space(s[0]) {
        word_if_any(cur) + words_from(s.skip(1), Seq::empty())
    } else {
        words_from(s.skip(1), cur.push(s[0]))
    }
}

/// The maximal runs of characters of `s` that hold no white space, in order.
pub open spec fn words(s: Seq<char>) -> Seq<Seq<char>> {
    words_from(s, Seq::empty())
}

/// Whether `w` is non-empty and holds no white space.
pub open spec fn solid(w: Seq<char>) -> bool {
    w.len() > 0 && forall|j: int| 0 <= j < w.len() ==> !is_space(#[trigger] w[j])
}

/// Every word is non-empty and holds no white space.
pub proof fn lemma_words_from_solid(s: Seq<char>, cur: Seq<char>)
    requires
        forall|j: int| 0 <= j < cur.len() ==> !is_space(#[trigger] cur[j]),
    ensures
        forall|k: int|
            0 <= k < words_from(s, cur).len() ==> solid(#[trigger] words_from(s, cur)[k]),
    decreases s.len(),
{
    if s.len() == 0 {
        assert(words_from(s, cur) == word_if_any(cur));
        assert forall|k: int| 0 <= k < words_from(s, cur).len() implies solid(
            #[trigger] words_from(s, cur)[k],
        ) by {
            assert(words_from(s, cur)[k] == cur);
        }
    } else if is_space(s[0]) {
        lemma_words_from_solid(s.skip(1), Seq::empty());
        let head = word_if_any(cur);
        let tail = words_from(s.skip(1), Seq::empty());
        assert forall|k: int| 0 <= k < words_from(s, cur).len() implies solid(
            #[trigger] words_from(s, cur)[k],
        ) by {
            if k < head.len() {
                assert(words_from(s, cur)[k] == cur);
            } else {
                assert(words_from(s, cur)[k] == tail[k - head.len()]);
            }
        }
    } else {
        let next = cur.push(s[0]);
        assert forall|j: int| 0 <= j < next.len() implies !is_space(#[trigger] next[j]) by {
            if j < cur.len() {
                assert(next[j] == cur[j]);
            }
        }
        lemma_words_from_solid(s.skip(1), next);
        assert(words_from(s, cur) == words_from(s.skip(1), next));
    }
}

/// Every word of `s` is non-empty and holds no white space.
pub proof fn lemma_words_solid(s: Seq<char>)
    ensures
        forall|k: int| 0 <= k < words(s).len() ==> solid(#[trigger] words(s)[k]),
{
    lemma_words_from_solid(s, Seq::empty());
}

/// Splits `chars` into its words.
pub fn split_words(chars: &Vec<char>) -> (parts: Vec<Vec<char>>)
    ensures
        views(parts@) == words(chars@),
{
    let mut parts: Vec<Vec<char>> = Vec::new();
    let mut cur: Vec<char> = Vec::new();
    let mut i: usize = 0;
    assert(chars@.skip(0) =~= chars@);
    assert(views(parts@) + words_from(chars@, cur@) =~= words(chars@));
    while i < chars.len()
        invariant
            i <= chars.len(),
            words(chars@) == views(parts@) + words_from(chars@.skip(i as int), cur@),
        decreases chars.len() - i,
    {
        let c = chars[i];
        let ghost rest = chars@.skip(i as int);
        let ghost before = views(parts@);
        let ghost cur_before = cur@;
        assert(rest.len() > 0 && rest[0] == c);
        assert(rest.skip(1) =~= chars@.skip(i + 1));
        if is_whitespace(c) {
            if cur.len() > 0 {
                parts.push(cur);
                cur = Vec::new();
                assert(views(parts@) =~= before.push(cur_before));
            }
            assert(views(parts@) =~= before + word_if_any(cur_before));
            assert(cur@ =~= Seq::<char>::empty());
            assert(words_from(rest, cur_before) == word_if_any(cur_before) + words_from(
                rest.skip(1),
                Seq::empty(),
            ));
            assert(views(parts@) + words_from(chars@.skip(i + 1), cur@) =~= before + words_from(
                rest,
                cur_before,
            ));
        } else {
            cur.push(c);
        }
        i += 1;
    }
    let ghost before = views(parts@);
    let ghost cur_before = cur@;
    assert(chars@.skip(i as int).len() == 0);
    if cur.len() > 0 {
        parts.push(cur);
        assert(views(parts@) =~= before.push(cur_before));
    }
    assert(views(parts@) =~= before + word_if_any(cur_before));
    parts
}

/// Whether `s` ends in `suffix`.
pub open spec fn ends_with(s: Seq<char>, suffix: Seq<char>) -> bool {
    suffix.len() <= s.len() && s.skip(s.len() - suffix.len()) == suffix
}

/// `s` without every copy of `suffix` that stands at its end.
pub open spec fn trim_end(s: Seq<char>, suffix: Seq<char>) -> Seq<char>
    decreases s.len(),
{
    if suffix.len() > 0 && ends_with(s, suffix) {
        trim_end(s.take(s.len() - suffix.len()), suffix)
    } else {
        s
    }
}

/// Whether the first `n` characters of `chars` end in `suffix`.
fn prefix_ends_with(chars: &Vec<char>, n: usize, suffix: &Vec<char>) -> (b: bool)
    requires
        n <= chars.len(),
    ensures
        b == ends_with(chars@.take(n as int), suffix@),
{
    if suffix.len() > n {
        return false;
    }
    let start: usize = n - suffix.len();
    let ghost tail = chars@.take(n as int).skip(start as int);
    let mut i: usize = 0;
    while i < suffix.len()
        invariant
            i <= suffix.len(),
            start + suffix.len() == n,
            n <= chars.len(),
            tail == chars@.take(n as int).skip(start as int),
            forall|j: int| 0 <= j < i ==> tail[j] == suffix@[j],
        decreases suffix.len() - i,
    {
        if chars[start + i] != suffix[i] {
            assert(tail[i as int] != suffix@[i as int]);
            return false;
        }
        i += 1;
    }
    assert(tail =~= suffix@);
    true
}

/// A copy of `chars` without every copy of `suffix` that stands at its end.
pub fn trim_end_matches(chars: &Vec<char>, suffix: &Vec<char>) -> (trimmed: Vec<char>)
    ensures
        trimmed@ == trim_end(chars@, suffix@),
{
    let mut n: usize = chars.len();
    assert(chars@.take(n as int) =~= chars@);
    if suffix.len() > 0 {
        while prefix_ends_with(chars, n, suffix)
            invariant
                n <= chars.len(),
                suffix.len() > 0,
                trim_end(chars@, suffix@) == trim_end(chars@.take(n as int), suffix@),
            decreases n,
        {
            assert(chars@.take(n as int).take(n - suffix.len()) =~= chars@.take(
                n - suffix.len(),
            ));
            n -= suffix.len();
        }
    }
    let trimmed = slice(chars, 0, n);
    assert(chars@.subrange(0, n as int) =~= chars@.take(n as int));
    trimmed
}

/// `s` without one carriage return at its end, where it has one.
pub open spec fn without_cr(s: Seq<char>) -> Seq<char> {
    if s.len() > 0 && s.last() == '\r' {
        s.drop_last()
    } else {
        s
    }
}

/// The lines of `s`. A line ends at a line feed, which is not part of it, nor
/// is a carriage return that stands directly before the line feed. What
/// follows the last line feed is a line of its own unless it is empty.
pub open spec fn lines(s: Seq<char>) -> Seq<Seq<char>> {
    let pieces = split(s, '\n');
    let ended = pieces.drop_last().map_values(|l: Seq<char>| without_cr(l));
    if pieces.last().len() == 0 {
        ended
    } else {
        ended.push(pieces.last())
    }
}

/// Splits `chars` into its lines.
pub fn split_lines(chars: &Vec<char>) -> (result: Vec<Vec<char>>)
    ensures
        views(result@) == lines(chars@),
{
    let mut pieces = split_on(chars, '\n');
    let ghost all = views(pieces@);
    let last = pieces.pop().unwrap();
    assert(views(pieces@) =~= all.drop_last());
    assert(last@ == all.last());
    let mut result: Vec<Vec<char>> = Vec::new();
    let mut i: usize = 0;
    while i < pieces.len()
        invariant
            i <= pieces.len(),
            views(result@) == views(pieces@).take(i as int).map_values(
                |l: Seq<char>| without_cr(l),
            ),
        decreases pieces.len() - i,
    {
        let piece = &pieces[i];
        let n = piece.len();
        let line = if n > 0 && piece[n - 1] == '\r' {
            let l = slice(piece, 0, n - 1);
            assert(piece@.subrange(0, n - 1) =~= piece@.drop_last());
            l
        } else {
            slice(piece, 0, n)
        };
        assert(piece@.subrange(0, n as int) =~= piece@);
        assert(line@ == without_cr(piece@));
        let ghost before = views(result@);
        result.push(line);
        i += 1;
        assert(views(result@) =~= before.push(line@));
        assert(views(pieces@).take(i as int) =~= views(pieces@).take(i - 1).push(piece@));
        assert(views(result@) =~= views(pieces@).take(i as int).map_values(
            |l: Seq<char>| without_cr(l),
        ));
    }
    assert(views(pieces@).take(pieces@.len() as int) =~= views(pieces@));
    if last.len() > 0 {
        let ghost before = views(result@);
        result.push(last);
        assert(views(result@) =~= before.push(last@));
    }
    result
}

/// Whether `a` comes before `b` in the order of a word list: at the first
/// place where they differ `a` has the smaller code point, or `a` ends there
/// and `b` goes on.
pub open spec fn lex_lt(a: Seq<char>, b: Seq<char>) -> bool
    decreases a.len(),
{
    if b.len() == 0 {
        false
    } else if a.len() == 0 {
        true
    } else if a[0] != b[0] {
        (a[0] as u32) < (b[0] as u32)
    } else {
        lex_lt(a.skip(1), b.skip(1))
    }
}

/// Nothing comes before itself.
pub proof fn lemma_lex_irreflexive(a: Seq<char>)
    ensures
        !lex_lt(a, a),
    decreases a.len(),
{
    if a.len() > 0 {
        lemma_lex_irreflexive(a.skip(1));
    }
}

/// Of two different sequences one comes before the other.
pub proof fn lemma_lex_total(a: Seq<char>, b: Seq<char>)
    ensures
        a == b || lex_lt(a, b) || lex_lt(b, a),
    decreases a.len(),
{
    if a.len() == 0 && b.len() == 0 {
        assert(a =~= b);
    } else if a.len() == 0 {
        assert(lex_lt(a, b));
    } else if b.len() == 0 {
        assert(lex_lt(b, a));
    } else if a[0] != b[0] {
        let x: char = a[0];
        let y: char = b[0];
        vstd::utf8::char_u32_cast(x, x as u32);
        vstd::utf8::char_u32_cast(y, y as u32);
        assert(lex_lt(a, b) || lex_lt(b, a));
    } else {
        lemma_lex_total(a.skip(1), b.skip(1));
        if a.skip(1) == b.skip(1) {
            assert(a =~= seq![a[0]] + a.skip(1));
            assert(b =~= seq![b[0]] + b.skip(1));
        } else if lex_lt(a.skip(1), b.skip(1)) {
            assert(lex_lt(a, b));
        } else {
            assert(lex_lt(b, a));
        }
    }
}

/// The order is transitive.
pub proof fn lemma_lex_transitive(a: Seq<char>, b: Seq<char>, c: Seq<char>)
    requires
        lex_lt(a, b),
        lex_lt(b, c),
    ensures
        lex_lt(a, c),
    decreases a.len(),
{
    if a.len() == 0 {
    } else if a[0] != b[0] || b[0] != c[0] {
    } else {
        lemma_lex_transitive(a.skip(1), b.skip(1), c.skip(1));
    }
}

/// Whether `a` comes before `b` in the order of a word list.
pub fn less(a: &Vec<char>, b: &Vec<char>) -> (lt: bool)
    ensures
        lt == lex_lt(a@, b@),
{
    let mut i: usize = 0;
    assert(a@.skip(0) =~= a@);
    assert(b@.skip(0) =~= b@);
    while i < a.len() && i < b.len()
        invariant
            i <= a.len(),
            i <= b.len(),
            lex_lt(a@, b@) == lex_lt(a@.skip(i as int), b@.skip(i as int)),
        decreases a.len() - i,
    {
        let x = a[i];
        let y = b[i];
        assert(a@.skip(i as int)[0] == x && b@.skip(i as int)[0] == y);
        assert(a@.skip(i as int).skip(1) =~= a@.skip(i + 1));
        assert(b@.skip(i as int).skip(1) =~= b@.skip(i + 1));
        if x != y {
            return (x as u32) < (y as u32);
        }
        i += 1;
    }
    i < b.len()
}

/// The pieces of `parts` written one after another.
pub open spec fn flat(parts: Seq<Seq<char>>) -> Seq<char>
    decreases parts.len(),
{
    if parts.len() == 0 {
        Seq::empty()
    } else {
        flat(parts.drop_last()) + parts.last()
    }
}

/// The pieces of `parts` written one after another with `sep` between each
/// two of them.
pub open spec fn joined(parts: Seq<Seq<char>>, sep: Seq<char>) -> Seq<char>
    decreases parts.len(),
{
    if parts.len() == 0 {
        Seq::empty()
    } else if parts.len() == 1 {
        parts[0]
    } else {
        joined(parts.drop_last(), sep) + sep + parts.last()
    }
}

/// Writes the strings of `list` one after another with `sep` between each
/// two of them.
pub fn join(list: &Vec<String>, sep: &str) -> (out: String)
    ensures
        out@ == joined(string_views(list@), sep@),
{
    let ghost parts = string_views(list@);
    let mut out = String::new();
    let mut i: usize = 0;
    assert(parts.take(0) =~= Seq::<Seq<char>>::empty());
    while i < list.len()
        invariant
            i <= list.len(),
            parts == string_views(list@),
            out@ == joined(parts.take(i as int), sep@),
        decreases list.len() - i,
    {
        let ghost before = out@;
        if i > 0 {
            out.append(sep);
        }
        out.append(list[i].as_str());
        i += 1;
        assert(parts.take(i as int).drop_last() =~= parts.take(i - 1));
        assert(parts.take(i as int).last() == list@[i - 1]@);
        proof {
            if i == 1 {
                assert(before =~= Seq::<char>::empty());
                assert(out@ =~= parts.take(1)[0]);
            }
        }
    }
    assert(parts.take(list@.len() as int) =~= parts);
    out
}

} // verus!
