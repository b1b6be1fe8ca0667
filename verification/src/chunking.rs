//! Cutting a written form into pieces: every way of doing so, the coarsest
//! first.

use crate::dict::copy_strings;
use crate::text::{chars_of, flat, slice, string_of, string_views};
use vstd::prelude::*;

verus! {

/// Each of `tails` with the pieces `head` put before it.
pub open spec fn with_head(head: Seq<Seq<char>>, tails: Seq<Seq<Seq<char>>>) -> Seq<
    Seq<Seq<char>>,
> {
    Seq::new(tails.len(), |i: int| head + tails[i])
}

/// The ways to cut the non-empty `s` into non-empty pieces whose first piece
/// has at most `k` characters. Those with the longest first piece come first;
/// among those with the same first piece, the order is that of the ways to
/// cut what follows it.
pub open spec fn cuts_upto(s: Seq<char>, k: int) -> Seq<Seq<Seq<char>>>
    decreases s.len(), k,
{
    if k <= 0 || k > s.len() {
        Seq::empty()
    } else {
        let rest = s.skip(k);
        let tails = if rest.len() == 0 {
            seq![Seq::empty()]
        } else {
            cuts_upto(rest, rest.len() as int)
        };
        with_head(seq![s.take(k)], tails) + cuts_upto(s, k - 1)
    }
}

/// Every way to cut `s` into non-empty pieces, the whole of `s` as one piece
/// first. The empty sequence has one: no piece at all.
pub open spec fn cuts(s: Seq<char>) -> Seq<Seq<Seq<char>>> {
    if s.len() == 0 {
        seq![Seq::empty()]
    } else {
        cuts_upto(s, s.len() as int)
    }
}

/// Every way to cut `s` into two or more non-empty pieces, in the order of
/// `cuts`.
pub open spec fn chunkings(s: Seq<char>) -> Seq<Seq<Seq<char>>> {
    cuts(s).skip(1)
}

/// The character sequences held by a sequence of lists of strings.
pub open spec fn chunk_views(lists: Seq<Vec<String>>) -> Seq<Seq<Seq<char>>> {
    Seq::new(lists.len(), |i: int| string_views(lists[i]@))
}

/// There is always at least one way to cut.
pub proof fn lemma_cuts_nonempty(s: Seq<char>)
    ensures
        cuts(s).len() >= 1,
        s.len() > 0 ==> cuts(s)[0] == seq![s],
{
    if s.len() > 0 {
        let k = s.len() as int;
        let tails: Seq<Seq<Seq<char>>> = seq![Seq::empty()];
        assert(s.skip(k).len() == 0);
        assert(s.take(k) =~= s);
        assert(cuts_upto(s, k) == with_head(seq![s.take(k)], tails) + cuts_upto(s, k - 1));
        assert(with_head(seq![s], tails)[0] =~= seq![s]);
    }
}

/// Appends to `out` every way to cut `rest`, each with the pieces `head`
/// before it, and leaves `head` as it was.
pub fn iterate_all_subdivisions(
    head: &mut Vec<String>,
    rest: &Vec<char>,
    out: &mut Vec<Vec<String>>,
)
    ensures
        string_views(final(head)@) == string_views(old(head)@),
        chunk_views(final(out)@) == chunk_views(old(out)@) + with_head(
            string_views(old(head)@),
            cuts(rest@),
        ),
    decreases rest.len(),
{
    let ghost h = string_views(head@);
    let ghost start = chunk_views(out@);
    if rest.len() == 0 {
        out.push(copy_strings(head));
        assert(chunk_views(out@) =~= start + with_head(h, cuts(rest@))) by {
            assert(with_head(h, cuts(rest@))[0] =~= h);
        }
        return;
    }
    let n: usize = rest.len();
    let mut k: usize = n;
    let ghost mut done: Seq<Seq<Seq<char>>> = Seq::empty();
    assert(start + with_head(h, done) =~= start);
    while k >= 1
        invariant
            k <= n,
            n == rest.len(),
            n > 0,
            string_views(head@) == h,
            cuts(rest@) == done + cuts_upto(rest@, k as int),
            chunk_views(out@) == start + with_head(h, done),
        decreases k,
    {
        let piece = slice(rest, 0, k);
        let tail = slice(rest, k, n);
        assert(rest@.subrange(0, k as int) =~= rest@.take(k as int));
        assert(rest@.subrange(k as int, n as int) =~= rest@.skip(k as int));
        let ghost mid = chunk_views(out@);
        head.push(string_of(&piece));
        assert(string_views(head@) =~= h.push(piece@));
        iterate_all_subdivisions(head, &tail, out);
        let ghost grown = head@;
        assert(string_views(grown) == h.push(piece@));
        assert(grown.len() == string_views(grown).len());
        head.pop();
        assert(head@ =~= grown.drop_last());
        assert(string_views(head@) =~= string_views(grown).drop_last());
        assert(string_views(head@) =~= h);
        proof {
            let tails = cuts(tail@);
            let block = with_head(seq![piece@], tails);
            assert(cuts_upto(rest@, k as int) == block + cuts_upto(rest@, k - 1));
            assert forall|i: int| 0 <= i < tails.len() implies #[trigger] with_head(
                h.push(piece@),
                tails,
            )[i] == with_head(h, block)[i] by {
                assert(h.push(piece@) + tails[i] =~= h + (seq![piece@] + tails[i]));
            }
            assert(with_head(h.push(piece@), tails) =~= with_head(h, block));
            assert(with_head(h, done + block) =~= with_head(h, done) + with_head(h, block));
            assert(chunk_views(out@) =~= start + with_head(h, done + block));
            assert(done + block + cuts_upto(rest@, k - 1) =~= done + (block + cuts_upto(
                rest@,
                k - 1,
            )));
            done = done + block;
        }
        k -= 1;
    }
    assert(done + cuts_upto(rest@, 0) =~= done);
}

/// Every way to cut `word` into two or more pieces, the coarsest first.
///
/// For `abc` these are `ab|c`, `a|bc` and `a|b|c`, in this order. Their
/// number doubles with each character of the word, so this is for words of
/// a handful of characters.
pub fn generate_all_chunkings(word: &str) -> (results: Vec<Vec<String>>)
    ensures
        chunk_views(results@) == chunkings(word@),
{
    let cs = chars_of(word);
    let mut results: Vec<Vec<String>> = Vec::new();
    let mut head: Vec<String> = Vec::new();
    iterate_all_subdivisions(&mut head, &cs, &mut results);
    proof {
        lemma_cuts_nonempty(cs@);
        let all = cuts(cs@);
        assert forall|i: int| 0 <= i < all.len() implies #[trigger] with_head(
            Seq::empty(),
            all,
        )[i] == all[i] by {
            assert(Seq::<Seq<char>>::empty() + all[i] =~= all[i]);
        }
        assert(with_head(Seq::empty(), all) =~= all);
        assert(chunk_views(results@) =~= all);
    }
    let ghost before = chunk_views(results@);
    results.remove(0);
    assert(chunk_views(results@) =~= before.skip(1));
    results
}

/// Whether the pieces `c` are a way to cut `s`: none of them is empty, and
/// written one after another they give `s`.
pub open spec fn is_cut(c: Seq<Seq<char>>, s: Seq<char>) -> bool {
    &&& forall|i: int| 0 <= i < c.len() ==> (#[trigger] c[i]).len() > 0
    &&& flat(c) == s
}

/// Pieces written one after another begin with the first piece.
pub proof fn lemma_flat_head(h: Seq<char>, t: Seq<Seq<char>>)
    ensures
        flat(seq![h] + t) == h + flat(t),
    decreases t.len(),
{
    let all = seq![h] + t;
    if t.len() == 0 {
        assert(all.drop_last() =~= Seq::<Seq<char>>::empty());
        assert(flat(all.drop_last()) =~= Seq::<char>::empty());
        assert(all.last() == h);
        assert(flat(all) =~= h);
        assert(h + flat(t) =~= h);
    } else {
        lemma_flat_head(h, t.drop_last());
        assert(all.drop_last() =~= seq![h] + t.drop_last());
        assert(all.last() == t.last());
        assert(flat(all) =~= h + flat(t));
    }
}

/// Every one of `cuts_upto(s, k)` is a way to cut `s`, and its first piece
/// has at most `k` characters.
pub proof fn lemma_cuts_upto_valid(s: Seq<char>, k: int)
    ensures
        forall|i: int|
            0 <= i < cuts_upto(s, k).len() ==> {
                &&& is_cut(#[trigger] cuts_upto(s, k)[i], s)
                &&& cuts_upto(s, k)[i].len() >= 1
                &&& cuts_upto(s, k)[i][0].len() <= k
            },
    decreases s.len(), k,
{
    if k <= 0 || k > s.len() {
    } else {
        let rest = s.skip(k);
        let tails = if rest.len() == 0 {
            seq![Seq::<Seq<char>>::empty()]
        } else {
            cuts_upto(rest, rest.len() as int)
        };
        let block = with_head(seq![s.take(k)], tails);
        if rest.len() > 0 {
            lemma_cuts_upto_valid(rest, rest.len() as int);
        }
        lemma_cuts_upto_valid(s, k - 1);
        assert forall|i: int| 0 <= i < cuts_upto(s, k).len() implies {
            &&& is_cut(#[trigger] cuts_upto(s, k)[i], s)
            &&& cuts_upto(s, k)[i].len() >= 1
            &&& cuts_upto(s, k)[i][0].len() <= k
        } by {
            let c = cuts_upto(s, k)[i];
            if i < block.len() {
                let t = tails[i];
                assert(c == seq![s.take(k)] + t);
                assert(is_cut(t, rest)) by {
                    if rest.len() == 0 {
                        assert(flat(t) =~= rest);
                    }
                }
                lemma_flat_head(s.take(k), t);
                assert(s.take(k) + rest =~= s);
                assert forall|j: int| 0 <= j < c.len() implies (#[trigger] c[j]).len() > 0 by {
                    if j > 0 {
                        assert(c[j] == t[j - 1]);
                    }
                }
            } else {
                assert(c == cuts_upto(s, k - 1)[i - block.len()]);
            }
        }
    }
}

/// Every one of `cuts(s)` is a way to cut `s`.
pub proof fn lemma_cuts_valid(s: Seq<char>)
    ensures
        forall|i: int| 0 <= i < cuts(s).len() ==> is_cut(#[trigger] cuts(s)[i], s),
{
    if s.len() == 0 {
        assert(flat(Seq::<Seq<char>>::empty()) =~= s);
    } else {
        lemma_cuts_upto_valid(s, s.len() as int);
    }
}

/// The ways whose first piece has `k` characters are among those whose first
/// piece has at most `m`, for every `m` from `k` on.
proof fn lemma_block_in_cuts_upto(s: Seq<char>, k: int, m: int, t: Seq<Seq<char>>)
    requires
        1 <= k <= m <= s.len(),
        cuts(s.skip(k)).contains(t),
    ensures
        cuts_upto(s, m).contains(seq![s.take(k)] + t),
    decreases m,
{
    let rest = s.skip(m);
    let tails = if rest.len() == 0 {
        seq![Seq::<Seq<char>>::empty()]
    } else {
        cuts_upto(rest, rest.len() as int)
    };
    let block = with_head(seq![s.take(m)], tails);
    assert(cuts_upto(s, m) == block + cuts_upto(s, m - 1));
    if m == k {
        assert(tails == cuts(s.skip(k)));
        let j = choose|j: int| 0 <= j < tails.len() && tails[j] == t;
        assert(cuts_upto(s, m)[j] == block[j]);
        assert(block[j] == seq![s.take(k)] + t);
    } else {
        lemma_block_in_cuts_upto(s, k, m - 1, t);
        let lower = cuts_upto(s, m - 1);
        let j = choose|j: int| 0 <= j < lower.len() && lower[j] == seq![s.take(k)] + t;
        assert(cuts_upto(s, m)[block.len() + j] == lower[j]);
    }
}

/// Every way to cut `s` is one of `cuts(s)`.
pub proof fn lemma_cuts_complete(s: Seq<char>, c: Seq<Seq<char>>)
    requires
        is_cut(c, s),
    ensures
        cuts(s).contains(c),
    decreases s.len(),
{
    if c.len() == 0 {
        assert(s.len() == 0);
        assert(c =~= Seq::<Seq<char>>::empty());
        assert(cuts(s)[0] == c);
    } else {
        let h = c[0];
        let t = c.skip(1);
        assert(c =~= seq![h] + t);
        lemma_flat_head(h, t);
        let k = h.len() as int;
        assert(s == h + flat(t));
        assert(s.take(k) =~= h);
        assert(s.skip(k) =~= flat(t));
        assert(is_cut(t, s.skip(k))) by {
            assert forall|j: int| 0 <= j < t.len() implies (#[trigger] t[j]).len() > 0 by {
                assert(t[j] == c[j + 1]);
            }
        }
        lemma_cuts_complete(s.skip(k), t);
        lemma_block_in_cuts_upto(s, k, s.len() as int, t);
    }
}

/// The ways that `chunkings` lists are ways to cut `s` into two or more
/// pieces: the whole of `s` as one piece is never among them.
pub proof fn lemma_chunkings_valid(s: Seq<char>)
    ensures
        forall|i: int|
            0 <= i < chunkings(s).len() ==> is_cut(#[trigger] chunkings(s)[i], s)
                && chunkings(s)[i].len() >= 2,
        !chunkings(s).contains(seq![s]),
{
    if s.len() == 0 {
        assert(chunkings(s) =~= Seq::<Seq<Seq<char>>>::empty());
    } else {
        let n = s.len() as int;
        let tails: Seq<Seq<Seq<char>>> = seq![Seq::empty()];
        assert(s.skip(n).len() == 0);
        assert(cuts_upto(s, n) == with_head(seq![s.take(n)], tails) + cuts_upto(s, n - 1));
        assert(chunkings(s) =~= cuts_upto(s, n - 1));
        lemma_cuts_upto_valid(s, n - 1);
        assert forall|i: int| 0 <= i < chunkings(s).len() implies is_cut(
            #[trigger] chunkings(s)[i],
            s,
        ) && chunkings(s)[i].len() >= 2 by {
            let c = chunkings(s)[i];
            assert(c == cuts_upto(s, n - 1)[i]);
            if c.len() == 1 {
                assert(c.drop_last() =~= Seq::<Seq<char>>::empty());
                assert(flat(c.drop_last()) =~= Seq::<char>::empty());
                assert(flat(c) =~= c[0]);
            }
        }
        if chunkings(s).contains(seq![s]) {
            let i = choose|i: int| 0 <= i < chunkings(s).len() && chunkings(s)[i] == seq![s];
            assert(cuts_upto(s, n - 1)[i][0].len() <= n - 1);
            assert(seq![s][0] == s);
        }
    }
}

/// Every way to cut `s` into two or more pieces is one of `chunkings(s)`.
pub proof fn lemma_chunkings_complete(s: Seq<char>, c: Seq<Seq<char>>)
    requires
        is_cut(c, s),
        c.len() >= 2,
    ensures
        chunkings(s).contains(c),
{
    lemma_cuts_complete(s, c);
    lemma_cuts_nonempty(s);
    let j = choose|j: int| 0 <= j < cuts(s).len() && cuts(s)[j] == c;
    if s.len() == 0 {
        assert(cuts(s)[j].len() == 0);
    }
    assert(j != 0);
    assert(chunkings(s)[j - 1] == c);
}

} // verus!
