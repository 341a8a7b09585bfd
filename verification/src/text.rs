//! Byte-level text: searching, splitting and copying.
//!
//! A beatmap is plain text. Every function here works on the bytes of that
//! text and is specified over `Seq<u8>`.

use vstd::prelude::*;

verus! {

/// The bytes of a text that holds ASCII characters only.
pub open spec fn ascii(s: &str) -> Seq<u8> {
    Seq::new(s@.len(), |i: int| s@[i] as u8)
}

/// The position of the first `b` in `s`, or `s.len()` where there is none.
pub open spec fn find(s: Seq<u8>, b: u8) -> int
    decreases s.len(),
{
    if s.len() == 0 {
        0
    } else if s[0] == b {
        0
    } else {
        1 + find(s.drop_first(), b)
    }
}

/// `find` returns the least position that holds `b`.
pub proof fn lemma_find(s: Seq<u8>, b: u8)
    ensures
        0 <= find(s, b) <= s.len(),
        forall|i: int| 0 <= i < find(s, b) ==> s[i] != b,
        find(s, b) < s.len() ==> s[find(s, b)] == b,
    decreases s.len(),
{
    if s.len() > 0 && s[0] != b {
        let t = s.drop_first();
        lemma_find(t, b);
        assert forall|i: int| 0 <= i < find(s, b) implies s[i] != b by {
            if i > 0 {
                assert(s[i] == t[i - 1]);
            }
        }
    }
}

/// A position that holds `b` and has no `b` before it is the one `find` returns.
pub proof fn lemma_find_is(s: Seq<u8>, b: u8, k: int)
    requires
        0 <= k <= s.len(),
        forall|i: int| 0 <= i < k ==> s[i] != b,
        k < s.len() ==> s[k] == b,
    ensures
        find(s, b) == k,
{
    lemma_find(s, b);
    let f = find(s, b);
    if f < k {
        assert(s[f] == b);
    }
}

/// The pieces of `s` between occurrences of `sep`. There is always at least
/// one piece; two separators in a row enclose an empty piece.
pub open spec fn split(s: Seq<u8>, sep: u8) -> Seq<Seq<u8>>
    decreases s.len(),
{
    let k = find(s, sep);
    if 0 <= k < s.len() {
        seq![s.subrange(0, k)] + split(s.subrange(k + 1, s.len() as int), sep)
    } else {
        seq![s]
    }
}

/// No piece of a split holds the separator.
pub proof fn lemma_split_pieces(s: Seq<u8>, sep: u8)
    ensures
        split(s, sep).len() >= 1,
        forall|j: int, i: int|
            0 <= j < split(s, sep).len() && 0 <= i < split(s, sep)[j].len() ==> split(
                s,
                sep,
            )[j][i] != sep,
    decreases s.len(),
{
    lemma_find(s, sep);
    let k = find(s, sep);
    if 0 <= k < s.len() {
        let rest = s.subrange(k + 1, s.len() as int);
        lemma_split_pieces(rest, sep);
        let head = seq![s.subrange(0, k)];
        assert forall|j: int, i: int|
            0 <= j < split(s, sep).len() && 0 <= i < split(s, sep)[j].len() implies split(
            s,
            sep,
        )[j][i] != sep by {
            if j == 0 {
                assert(split(s, sep)[0] == s.subrange(0, k));
            } else {
                assert(split(s, sep)[j] == split(rest, sep)[j - 1]);
            }
        }
    }
}

/// The views of a list of byte strings.
pub open spec fn views(v: Seq<Vec<u8>>) -> Seq<Seq<u8>> {
    Seq::new(v.len(), |i: int| v[i]@)
}

/// Copies the bytes of `s` from position `from` up to `to`.
pub fn copy_range(s: &[u8], from: usize, to: usize) -> (r: Vec<u8>)
    requires
        from <= to <= s@.len(),
    ensures
        r@ == s@.subrange(from as int, to as int),
{
    let mut r: Vec<u8> = Vec::new();
    let mut i: usize = from;
    while i < to
        invariant
            from <= i <= to <= s@.len(),
            r@ == s@.subrange(from as int, i as int),
        decreases to - i,
    {
        r.push(s[i]);
        i += 1;
    }
    r
}

/// Appends the bytes of `s` to `out`.
pub fn append(out: &mut Vec<u8>, s: &[u8])
    ensures
        final(out)@ == old(out)@ + s@,
{
    let mut i: usize = 0;
    while i < s.len()
        invariant
            i <= s@.len(),
            out@ == old(out)@ + s@.subrange(0, i as int),
        decreases s@.len() - i,
    {
        out.push(s[i]);
        i += 1;
    }
    assert(s@.subrange(0, i as int) == s@);
}

/// Whether `s` holds exactly the bytes `t`.
pub fn same_bytes(s: &[u8], t: &[u8]) -> (r: bool)
    ensures
        r == (s@ == t@),
{
    if s.len() != t.len() {
        return false;
    }
    let mut i: usize = 0;
    while i < s.len()
        invariant
            i <= s@.len(),
            s@.len() == t@.len(),
            s@.subrange(0, i as int) == t@.subrange(0, i as int),
        decreases s@.len() - i,
    {
        if s[i] != t[i] {
            return false;
        }
        assert(s@.subrange(0, i + 1) == s@.subrange(0, i as int).push(s@[i as int]));
        assert(t@.subrange(0, i + 1) == t@.subrange(0, i as int).push(t@[i as int]));
        i += 1;
    }
    assert(s@.subrange(0, i as int) == s@);
    assert(t@.subrange(0, i as int) == t@);
    true
}

/// Splits `s` at every `sep`.
pub fn split_bytes(s: &[u8], sep: u8) -> (r: Vec<Vec<u8>>)
    ensures
        views(r@) == split(s@, sep),
{
    let mut r: Vec<Vec<u8>> = Vec::new();
    let mut start: usize = 0;
    let mut i: usize = 0;
    proof {
        assert(s@.subrange(0, s@.len() as int) == s@);
        assert(views(r@) + split(s@, sep) == split(s@, sep));
    }
    while i < s.len()
        invariant
            start <= i <= s@.len(),
            forall|j: int| start <= j < i ==> s@[j] != sep,
            split(s@, sep) == views(r@) + split(s@.subrange(start as int, s@.len() as int), sep),
        decreases s@.len() - i,
    {
        if s[i] == sep {
            let piece = copy_range(s, start, i);
            proof {
                let tail = s@.subrange(start as int, s@.len() as int);
                lemma_find_is(tail, sep, i - start);
                assert(tail.subrange(0, i - start) == s@.subrange(start as int, i as int));
                assert(tail.subrange(i - start + 1, tail.len() as int) == s@.subrange(
                    i + 1,
                    s@.len() as int,
                ));
                assert(views(r@.push(piece)) == views(r@) + seq![piece@]);
            }
            r.push(piece);
            start = i + 1;
        }
        i += 1;
    }
    let piece = copy_range(s, start, s.len());
    proof {
        let tail = s@.subrange(start as int, s@.len() as int);
        lemma_find_is(tail, sep, tail.len() as int);
        assert(views(r@.push(piece)) == views(r@) + seq![piece@]);
    }
    r.push(piece);
    r
}

/// The position of the first `b` in `s`, or the length of `s`.
pub fn find_byte(s: &[u8], b: u8) -> (k: usize)
    ensures
        k == find(s@, b),
{
    let mut i: usize = 0;
    while i < s.len() && s[i] != b
        invariant
            i <= s@.len(),
            forall|j: int| 0 <= j < i ==> s@[j] != b,
        decreases s@.len() - i,
    {
        i += 1;
    }
    proof {
        lemma_find_is(s@, b, i as int);
    }
    i
}

/// The byte that ends a line.
pub const NEWLINE: u8 = 10;

/// The byte that may stand before the one that ends a line.
pub const RETURN: u8 = 13;

/// `piece` without the return at its end, if it has one.
pub open spec fn without_return(piece: Seq<u8>) -> Seq<u8> {
    if piece.len() > 0 && piece.last() == RETURN {
        piece.drop_last()
    } else {
        piece
    }
}

/// The lines of a text. A line ends with a newline, or with a return and a
/// newline, which are no part of it; what follows the last newline is a line
/// too unless it is empty.
pub open spec fn lines_of(content: Seq<u8>) -> Seq<Seq<u8>> {
    let pieces = split(content, NEWLINE);
    let ended = Seq::new((pieces.len() - 1) as nat, |i: int| without_return(pieces[i]));
    if pieces.last().len() > 0 {
        ended.push(pieces.last())
    } else {
        ended
    }
}

/// The text that holds the given lines, each ended by a newline.
pub open spec fn joined(lines: Seq<Seq<u8>>) -> Seq<u8>
    decreases lines.len(),
{
    if lines.len() == 0 {
        Seq::empty()
    } else {
        joined(lines.drop_last()) + lines.last() + seq![NEWLINE]
    }
}

/// Splits a text into its lines.
pub fn split_lines(content: &[u8]) -> (r: Vec<Vec<u8>>)
    ensures
        views(r@) == lines_of(content@),
{
    let pieces = split_bytes(content, NEWLINE);
    let ghost p = split(content@, NEWLINE);
    proof {
        lemma_split_pieces(content@, NEWLINE);
        assert(forall|i: int| 0 <= i < p.len() ==> p[i] == #[trigger] pieces@[i]@) by {
            assert(forall|i: int| 0 <= i < p.len() ==> views(pieces@)[i] == pieces@[i]@);
        }
    }
    let ghost ended = Seq::new((p.len() - 1) as nat, |i: int| without_return(p[i]));
    let mut r: Vec<Vec<u8>> = Vec::new();
    let mut i: usize = 0;
    let n = pieces.len() - 1;
    while i < n
        invariant
            i <= n,
            n == pieces@.len() - 1,
            p.len() == pieces@.len(),
            forall|j: int| 0 <= j < p.len() ==> p[j] == #[trigger] pieces@[j]@,
            ended == Seq::new((p.len() - 1) as nat, |j: int| without_return(p[j])),
            views(r@) == ended.subrange(0, i as int),
        decreases n - i,
    {
        let piece = &pieces[i];
        let end = if piece.len() > 0 && piece[piece.len() - 1] == RETURN {
            piece.len() - 1
        } else {
            piece.len()
        };
        let line = copy_range(piece.as_slice(), 0, end);
        proof {
            assert(p[i as int] == piece@);
            assert(line@ == without_return(p[i as int]));
            assert(views(r@.push(line)) == views(r@).push(line@));
            assert(ended.subrange(0, i + 1) == ended.subrange(0, i as int).push(ended[i as int]));
        }
        r.push(line);
        i += 1;
    }
    assert(ended.subrange(0, n as int) == ended);
    let last = &pieces[n];
    assert(p.last() == last@);
    if last.len() > 0 {
        let line = copy_range(last.as_slice(), 0, last.len());
        assert(line@ == last@);
        assert(views(r@.push(line)) == views(r@).push(line@));
        r.push(line);
    }
    r
}

/// Writes the lines one after another, each ended by a newline.
pub fn join_lines(lines: &Vec<Vec<u8>>) -> (r: Vec<u8>)
    ensures
        r@ == joined(views(lines@)),
{
    let ghost l = views(lines@);
    let mut r: Vec<u8> = Vec::new();
    let mut i: usize = 0;
    assert(joined(l.subrange(0, 0)) == Seq::<u8>::empty());
    while i < lines.len()
        invariant
            i <= lines@.len(),
            l == views(lines@),
            r@ == joined(l.subrange(0, i as int)),
        decreases lines@.len() - i,
    {
        proof {
            let t = l.subrange(0, i + 1);
            assert(t.drop_last() == l.subrange(0, i as int));
            assert(t.last() == lines@[i as int]@);
        }
        append(&mut r, lines[i].as_slice());
        r.push(NEWLINE);
        i += 1;
    }
    assert(l.subrange(0, i as int) == l);
    r
}

/// What holds of every byte of every piece of a split holds of every byte
/// of the text that is no separator.
pub proof fn lemma_split_covers(s: Seq<u8>, sep: u8, holds: spec_fn(u8) -> bool)
    requires
        forall|j: int, k: int|
            0 <= j < split(s, sep).len() && 0 <= k < split(s, sep)[j].len() ==> holds(
                #[trigger] split(s, sep)[j][k],
            ),
    ensures
        forall|i: int| 0 <= i < s.len() ==> s[i] == sep || holds(#[trigger] s[i]),
    decreases s.len(),
{
    lemma_find(s, sep);
    let k = find(s, sep);
    let pieces = split(s, sep);
    if 0 <= k < s.len() {
        let rest = s.subrange(k + 1, s.len() as int);
        assert(pieces[0] == s.subrange(0, k));
        assert forall|j: int, i: int|
            0 <= j < split(rest, sep).len() && 0 <= i < split(rest, sep)[j].len() implies holds(
            #[trigger] split(rest, sep)[j][i],
        ) by {
            assert(split(rest, sep)[j] == pieces[j + 1]);
            assert(holds(pieces[j + 1][i]));
        }
        lemma_split_covers(rest, sep, holds);
        assert forall|i: int| 0 <= i < s.len() implies s[i] == sep || holds(#[trigger] s[i]) by {
            if i < k {
                assert(s[i] == pieces[0][i]);
            } else if i > k {
                assert(s[i] == rest[i - k - 1]);
            }
        }
    } else {
        assert(pieces[0] == s);
        assert forall|i: int| 0 <= i < s.len() implies s[i] == sep || holds(#[trigger] s[i]) by {
            assert(s[i] == pieces[0][i]);
        }
    }
}

/// A text without a separator, a separator and more text: the pieces are
/// the first text and the pieces of the rest.
pub proof fn lemma_split_first(a: Seq<u8>, rest: Seq<u8>, sep: u8)
    requires
        forall|i: int| 0 <= i < a.len() ==> a[i] != sep,
    ensures
        split(a + seq![sep] + rest, sep) == seq![a] + split(rest, sep),
{
    let s = a + seq![sep] + rest;
    assert(s[a.len() as int] == sep);
    assert forall|i: int| 0 <= i < a.len() implies s[i] != sep by {
        assert(s[i] == a[i]);
    }
    lemma_find_is(s, sep, a.len() as int);
    assert(s.subrange(0, a.len() as int) == a);
    assert(s.subrange(a.len() as int + 1, s.len() as int) == rest);
}

/// A text without a separator is one piece.
pub proof fn lemma_split_one(a: Seq<u8>, sep: u8)
    requires
        forall|i: int| 0 <= i < a.len() ==> a[i] != sep,
    ensures
        split(a, sep) == seq![a],
{
    lemma_find_is(a, sep, a.len() as int);
}

/// Whether `line` can stand as a line of a text: it holds no newline and
/// does not end with a return.
pub open spec fn is_line(line: Seq<u8>) -> bool {
    &&& forall|i: int| 0 <= i < line.len() ==> line[i] != NEWLINE
    &&& !(line.len() > 0 && line.last() == RETURN)
}

/// Joined lines start with the first line.
pub proof fn lemma_joined_first(lines: Seq<Seq<u8>>)
    requires
        lines.len() > 0,
    ensures
        joined(lines) == lines[0] + seq![NEWLINE] + joined(lines.drop_first()),
    decreases lines.len(),
{
    if lines.len() == 1 {
        assert(lines.drop_last().len() == 0);
        assert(lines.drop_first().len() == 0);
        assert(joined(lines.drop_last()) == Seq::<u8>::empty());
        assert(joined(lines.drop_first()) == Seq::<u8>::empty());
        assert(lines.last() == lines[0]);
        assert(joined(lines) == Seq::<u8>::empty() + lines[0] + seq![NEWLINE]);
        assert(Seq::<u8>::empty() + lines[0] == lines[0]);
        assert(lines[0] + seq![NEWLINE] + Seq::<u8>::empty() == lines[0] + seq![NEWLINE]);
    } else {
        let front = lines.drop_last();
        lemma_joined_first(front);
        assert(front[0] == lines[0]);
        assert(front.drop_first() == lines.drop_first().drop_last());
        assert(lines.drop_first().last() == lines.last());
        let rest = joined(front.drop_first());
        assert(joined(lines.drop_first()) == rest + lines.last() + seq![NEWLINE]);
        assert(lines[0] + seq![NEWLINE] + rest + lines.last() + seq![NEWLINE] == lines[0]
            + seq![NEWLINE] + (rest + lines.last() + seq![NEWLINE]));
    }
}

/// The pieces of joined lines are the lines, and an empty piece behind the
/// last newline.
pub proof fn lemma_split_joined(lines: Seq<Seq<u8>>)
    requires
        forall|i: int| 0 <= i < lines.len() ==> is_line(#[trigger] lines[i]),
    ensures
        split(joined(lines), NEWLINE) == lines.push(Seq::<u8>::empty()),
    decreases lines.len(),
{
    if lines.len() == 0 {
        lemma_split_one(Seq::<u8>::empty(), NEWLINE);
        assert(lines.push(Seq::<u8>::empty()) == seq![Seq::<u8>::empty()]);
    } else {
        let rest = lines.drop_first();
        assert forall|i: int| 0 <= i < rest.len() implies is_line(#[trigger] rest[i]) by {
            assert(rest[i] == lines[i + 1]);
        }
        lemma_split_joined(rest);
        lemma_joined_first(lines);
        assert(is_line(lines[0]));
        lemma_split_first(lines[0], joined(rest), NEWLINE);
        assert(seq![lines[0]] + rest.push(Seq::<u8>::empty()) == lines.push(Seq::<u8>::empty()));
    }
}

/// The lines of a text that was joined from lines are those lines.
pub proof fn lemma_lines_of_joined(lines: Seq<Seq<u8>>)
    requires
        forall|i: int| 0 <= i < lines.len() ==> is_line(#[trigger] lines[i]),
    ensures
        lines_of(joined(lines)) == lines,
{
    lemma_split_joined(lines);
    let pieces = split(joined(lines), NEWLINE);
    let ended = Seq::new((pieces.len() - 1) as nat, |i: int| without_return(pieces[i]));
    assert(pieces.last() == Seq::<u8>::empty());
    assert forall|i: int| 0 <= i < lines.len() implies ended[i] == lines[i] by {
        assert(pieces[i] == lines[i]);
        assert(is_line(lines[i]));
    }
    assert(ended == lines);
}

/// The lines of a text hold no newline.
pub proof fn lemma_lines_of(content: Seq<u8>)
    ensures
        forall|i: int, k: int|
            0 <= i < lines_of(content).len() && 0 <= k < lines_of(content)[i].len() ==> (
            #[trigger] lines_of(content)[i][k]) != NEWLINE,
{
    lemma_split_pieces(content, NEWLINE);
    let pieces = split(content, NEWLINE);
    let l = lines_of(content);
    assert forall|i: int, k: int| 0 <= i < l.len() && 0 <= k < l[i].len() implies (
    #[trigger] l[i][k]) != NEWLINE by {
        if i < pieces.len() - 1 {
            assert(l[i] == without_return(pieces[i]));
            assert(l[i][k] == pieces[i][k]);
        } else {
            assert(l[i] == pieces[i]);
        }
    }
}

/// The pieces `f` with `sep` between each two of them.
pub open spec fn separated(f: Seq<Seq<u8>>, sep: u8) -> Seq<u8>
    decreases f.len(),
{
    if f.len() == 0 {
        Seq::empty()
    } else if f.len() == 1 {
        f[0]
    } else {
        f[0] + seq![sep] + separated(f.drop_first(), sep)
    }
}

/// Pieces that hold no separator are the pieces of the text that they make
/// with separators between them.
pub proof fn lemma_split_separated(f: Seq<Seq<u8>>, sep: u8)
    requires
        f.len() >= 1,
        forall|j: int, k: int| 0 <= j < f.len() && 0 <= k < f[j].len() ==> (#[trigger] f[j][k]) != sep,
    ensures
        split(separated(f, sep), sep) == f,
    decreases f.len(),
{
    assert forall|k: int| 0 <= k < f[0].len() implies f[0][k] != sep by {
        assert(f[0][k] != sep);
    }
    if f.len() == 1 {
        lemma_split_one(f[0], sep);
        assert(seq![f[0]] == f);
    } else {
        let rest = f.drop_first();
        assert forall|j: int, k: int| 0 <= j < rest.len() && 0 <= k < rest[j].len() implies (
        #[trigger] rest[j][k]) != sep by {
            assert(rest[j] == f[j + 1]);
            assert(f[j + 1][k] != sep);
        }
        lemma_split_separated(rest, sep);
        lemma_split_first(f[0], separated(rest, sep), sep);
        assert(seq![f[0]] + rest == f);
    }
}

/// One more piece at the end: a separator and the piece.
pub proof fn lemma_separated_push(f: Seq<Seq<u8>>, x: Seq<u8>, sep: u8)
    requires
        f.len() >= 1,
    ensures
        separated(f.push(x), sep) == separated(f, sep) + seq![sep] + x,
    decreases f.len(),
{
    let g = f.push(x);
    assert(g[0] == f[0]);
    if f.len() == 1 {
        assert(g.drop_first() == seq![x]);
        assert(separated(seq![x], sep) == x);
    } else {
        let rest = f.drop_first();
        lemma_separated_push(rest, x, sep);
        assert(g.drop_first() == rest.push(x));
        assert(f[0] + seq![sep] + (separated(rest, sep) + seq![sep] + x) == f[0] + seq![sep]
            + separated(rest, sep) + seq![sep] + x);
    }
}

/// Writes the pieces with `sep` between each two of them.
pub fn join_pieces(pieces: &Vec<Vec<u8>>, sep: u8) -> (r: Vec<u8>)
    ensures
        r@ == separated(views(pieces@), sep),
{
    let ghost f = views(pieces@);
    let mut r: Vec<u8> = Vec::new();
    if pieces.len() == 0 {
        return r;
    }
    append(&mut r, pieces[0].as_slice());
    assert(f.subrange(0, 1) == seq![f[0]]);
    assert(r@ == f[0]);
    let mut i: usize = 1;
    while i < pieces.len()
        invariant
            1 <= i <= pieces@.len(),
            f == views(pieces@),
            r@ == separated(f.subrange(0, i as int), sep),
        decreases pieces@.len() - i,
    {
        proof {
            lemma_separated_push(f.subrange(0, i as int), f[i as int], sep);
            assert(f.subrange(0, i as int).push(f[i as int]) == f.subrange(0, i + 1));
        }
        r.push(sep);
        append(&mut r, pieces[i].as_slice());
        i += 1;
    }
    assert(f.subrange(0, i as int) == f);
    r
}

} // verus!
