//! The text that holds the reference pairs: timing-point lines, two for each
//! pair, with white space between them.

use crate::text::{copy_range, views};
use vstd::prelude::*;

verus! {

/// The blank.
pub const BLANK: u8 = 32;

/// The first of the control bytes that are white space: tab, newline,
/// vertical tab, form feed, return.
pub const TAB: u8 = 9;

/// The last of the control bytes that are white space.
pub const RETURN: u8 = 13;

/// A blank, a tab, a line end or a feed.
pub open spec fn is_space(b: u8) -> bool {
    b == BLANK || TAB <= b <= RETURN
}

/// Whether the two bytes are a white space of two bytes: the next-line
/// control (U+0085) or the no-break space (U+00A0).
pub open spec fn is_space_of_two(a: u8, b: u8) -> bool {
    a == 0xC2 && (b == 0x85 || b == 0xA0)
}

/// Whether the three bytes are a white space of three bytes: the ogham
/// space mark (U+1680), one of the spaces U+2000 to U+200A, the line or the
/// paragraph separator (U+2028, U+2029), the narrow no-break space (U+202F),
/// the medium mathematical space (U+205F) or the ideographic space (U+3000).
pub open spec fn is_space_of_three(a: u8, b: u8, c: u8) -> bool {
    ||| a == 0xE1 && b == 0x9A && c == 0x80
    ||| a == 0xE2 && b == 0x80 && (0x80 <= c <= 0x8A || c == 0xA8 || c == 0xA9 || c == 0xAF)
    ||| a == 0xE2 && b == 0x81 && c == 0x9F
    ||| a == 0xE3 && b == 0x80 && c == 0x80
}

/// How many bytes the white space at the front of `s` takes; 0 where `s`
/// does not start with white space.
pub open spec fn space_len(s: Seq<u8>) -> nat {
    if s.len() >= 1 && is_space(s[0]) {
        1
    } else if s.len() >= 2 && is_space_of_two(s[0], s[1]) {
        2
    } else if s.len() >= 3 && is_space_of_three(s[0], s[1], s[2]) {
        3
    } else {
        0
    }
}

/// How many bytes at the front of `s` stand before the first white space.
pub open spec fn word_len(s: Seq<u8>) -> nat
    decreases s.len(),
{
    if s.len() == 0 || space_len(s) > 0 {
        0
    } else {
        1 + word_len(s.drop_first())
    }
}

/// The word at the front of `s` ends where white space or the end of `s`
/// comes first.
pub proof fn lemma_word_len(s: Seq<u8>, k: int)
    requires
        0 <= k <= s.len(),
        forall|i: int| 0 <= i < k ==> space_len(#[trigger] s.subrange(i, s.len() as int)) == 0,
        k < s.len() ==> space_len(s.subrange(k, s.len() as int)) > 0,
    ensures
        word_len(s) == k,
    decreases s.len(),
{
    assert(s.subrange(0, s.len() as int) == s);
    if k > 0 {
        let t = s.drop_first();
        assert forall|i: int| 0 <= i < k - 1 implies space_len(
            #[trigger] t.subrange(i, t.len() as int),
        ) == 0 by {
            assert(t.subrange(i, t.len() as int) == s.subrange(i + 1, s.len() as int));
        }
        if k < s.len() {
            assert(t.subrange(k - 1, t.len() as int) == s.subrange(k, s.len() as int));
        }
        lemma_word_len(t, k - 1);
    }
}

/// A word is no longer than the text it starts.
pub proof fn lemma_word_len_bound(s: Seq<u8>)
    ensures
        word_len(s) <= s.len(),
    decreases s.len(),
{
    if s.len() > 0 && space_len(s) == 0 {
        lemma_word_len_bound(s.drop_first());
    }
}

/// The words of `s`: its longest runs of bytes without white space.
pub open spec fn words(s: Seq<u8>) -> Seq<Seq<u8>>
    decreases s.len(),
    via words_decreases
{
    if s.len() == 0 {
        Seq::empty()
    } else if space_len(s) > 0 {
        words(s.subrange(space_len(s) as int, s.len() as int))
    } else {
        seq![s.subrange(0, word_len(s) as int)] + words(
            s.subrange(word_len(s) as int, s.len() as int),
        )
    }
}

#[via_fn]
proof fn words_decreases(s: Seq<u8>) {
    if s.len() > 0 && space_len(s) == 0 {
        lemma_word_len_bound(s);
    }
}

/// The lines of the reference pairs that `command` holds: its words, without
/// the last where their number is odd. Two lines that follow one another are
/// the start and the end of one pair.
pub open spec fn pair_lines(command: Seq<u8>) -> Seq<Seq<u8>> {
    words(command).subrange(0, 2 * (words(command).len() as int / 2))
}

/// How many bytes the white space at `i` takes; 0 where there is none.
fn space_at(s: &[u8], i: usize) -> (r: usize)
    requires
        i <= s@.len(),
    ensures
        r == space_len(s@.subrange(i as int, s@.len() as int)),
        i + r <= s@.len(),
        r <= 3,
{
    let n = s.len();
    let ghost tail = s@.subrange(i as int, n as int);
    if i == n {
        return 0;
    }
    let a = s[i];
    assert(tail[0] == a);
    if a == BLANK || (TAB <= a && a <= RETURN) {
        return 1;
    }
    if n - i < 2 {
        return 0;
    }
    let b = s[i + 1];
    assert(tail[1] == b);
    if a == 0xC2 && (b == 0x85 || b == 0xA0) {
        return 2;
    }
    if n - i < 3 {
        return 0;
    }
    let c = s[i + 2];
    assert(tail[2] == c);
    if (a == 0xE1 && b == 0x9A && c == 0x80) || (a == 0xE2 && b == 0x80 && ((0x80 <= c && c
        <= 0x8A) || c == 0xA8 || c == 0xA9 || c == 0xAF)) || (a == 0xE2 && b == 0x81 && c == 0x9F)
        || (a == 0xE3 && b == 0x80 && c == 0x80) {
        3
    } else {
        0
    }
}

/// Splits a text into its words.
pub fn split_words(s: &[u8]) -> (r: Vec<Vec<u8>>)
    ensures
        views(r@) == words(s@),
{
    let mut r: Vec<Vec<u8>> = Vec::new();
    let mut i: usize = 0;
    proof {
        assert(s@.subrange(0, s@.len() as int) == s@);
        assert(views(r@) + words(s@) == words(s@));
    }
    while i < s.len()
        invariant
            i <= s@.len(),
            words(s@) == views(r@) + words(s@.subrange(i as int, s@.len() as int)),
        decreases s@.len() - i,
    {
        let ghost tail = s@.subrange(i as int, s@.len() as int);
        let width = space_at(s, i);
        if width > 0 {
            assert(tail.subrange(width as int, tail.len() as int) == s@.subrange(
                i + width,
                s@.len() as int,
            ));
            i += width;
        } else {
            let mut j: usize = i + 1;
            assert(tail.subrange(0, tail.len() as int) == tail);
            while j < s.len() && space_at(s, j) == 0
                invariant
                    i < j <= s@.len(),
                    forall|k: int|
                        i <= k < j ==> space_len(#[trigger] s@.subrange(k, s@.len() as int)) == 0,
                decreases s@.len() - j,
            {
                j += 1;
            }
            let word = copy_range(s, i, j);
            proof {
                assert forall|k: int| 0 <= k < j - i implies space_len(
                    #[trigger] tail.subrange(k, tail.len() as int),
                ) == 0 by {
                    assert(tail.subrange(k, tail.len() as int) == s@.subrange(
                        i + k,
                        s@.len() as int,
                    ));
                }
                if j < s@.len() {
                    assert(tail.subrange(j - i, tail.len() as int) == s@.subrange(
                        j as int,
                        s@.len() as int,
                    ));
                }
                lemma_word_len(tail, j - i);
                assert(tail.subrange(0, j - i) == word@);
                assert(tail.subrange(j - i, tail.len() as int) == s@.subrange(
                    j as int,
                    s@.len() as int,
                ));
                assert(views(r@.push(word)) == views(r@) + seq![word@]);
            }
            r.push(word);
            i = j;
        }
    }
    assert(words(s@.subrange(i as int, s@.len() as int)) == Seq::<Seq<u8>>::empty());
    r
}

/// Reads the lines of the reference pairs.
pub fn reference_lines(command: &[u8]) -> (r: Vec<Vec<u8>>)
    ensures
        views(r@) == pair_lines(command@),
{
    let mut r = split_words(command);
    let ghost w = views(r@);
    if r.len() % 2 == 1 {
        r.pop();
        assert(views(r@) == w.subrange(0, w.len() - 1));
    } else {
        assert(w.subrange(0, w.len() as int) == w);
    }
    r
}

} // verus!
