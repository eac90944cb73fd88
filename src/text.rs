//! Reading a maze out of text: rows split at whitespace, or at a separator
//! character after trimming.
use vstd::prelude::*;

verus! {

/// The characters with Unicode's White_Space property, which std's
/// `char::is_whitespace` recognises.
pub open spec fn is_white_space_spec(c: char) -> bool {
    ('\u{9}' <= c && c <= '\u{d}') || c == ' ' || c == '\u{85}' || c == '\u{a0}' || c == '\u{1680}'
        || ('\u{2000}' <= c && c <= '\u{200a}') || c == '\u{2028}' || c == '\u{2029}' || c
        == '\u{202f}' || c == '\u{205f}' || c == '\u{3000}'
}

/// Whether `c` is white space in Unicode's sense.
pub fn is_white_space(c: char) -> (r: bool)
    ensures
        r == is_white_space_spec(c),
{
    ('\u{9}' <= c && c <= '\u{d}') || c == ' ' || c == '\u{85}' || c == '\u{a0}' || c == '\u{1680}'
        || ('\u{2000}' <= c && c <= '\u{200a}') || c == '\u{2028}' || c == '\u{2029}' || c
        == '\u{202f}' || c == '\u{205f}' || c == '\u{3000}'
}

/// Reading `s` left to right: the words finished so far, and the word being
/// read (empty between words).
pub open spec fn words_acc(s: Seq<char>) -> (Seq<Seq<char>>, Seq<char>)
    decreases s.len(),
{
    if s.len() == 0 {
        (seq![], seq![])
    } else {
        let (done, cur) = words_acc(s.drop_last());
        if is_white_space_spec(s.last()) {
            if cur.len() > 0 {
                (done.push(cur), seq![])
            } else {
                (done, seq![])
            }
        } else {
            (done, cur.push(s.last()))
        }
    }
}

/// The maximal runs of characters other than white space, in order.
pub open spec fn words(s: Seq<char>) -> Seq<Seq<char>> {
    let (done, cur) = words_acc(s);
    if cur.len() > 0 {
        done.push(cur)
    } else {
        done
    }
}

/// Reading `s` left to right: the pieces before each separator so far, and
/// the piece being read.
pub open spec fn pieces_acc(s: Seq<char>, sep: char) -> (Seq<Seq<char>>, Seq<char>)
    decreases s.len(),
{
    if s.len() == 0 {
        (seq![], seq![])
    } else {
        let (done, cur) = pieces_acc(s.drop_last(), sep);
        if s.last() == sep {
            (done.push(cur), seq![])
        } else {
            (done, cur.push(s.last()))
        }
    }
}

/// The pieces of `s` between separators: one more than there are separators.
pub open spec fn pieces(s: Seq<char>, sep: char) -> Seq<Seq<char>> {
    let (done, cur) = pieces_acc(s, sep);
    done.push(cur)
}

/// `s` without leading white space.
pub open spec fn trim_start(s: Seq<char>) -> Seq<char>
    decreases s.len(),
{
    if s.len() > 0 && is_white_space_spec(s[0]) {
        trim_start(s.drop_first())
    } else {
        s
    }
}

/// `s` without trailing white space.
pub open spec fn trim_end(s: Seq<char>) -> Seq<char>
    decreases s.len(),
{
    if s.len() > 0 && is_white_space_spec(s.last()) {
        trim_end(s.drop_last())
    } else {
        s
    }
}

/// `s` without leading and trailing white space.
pub open spec fn trim(s: Seq<char>) -> Seq<char> {
    trim_end(trim_start(s))
}

/// The rows of a grid as sequences of characters.
pub open spec fn grid_view(rows: Seq<Vec<char>>) -> Seq<Seq<char>> {
    rows.map_values(|r: Vec<char>| r@)
}

/// The characters of `text`.
pub fn chars_of(text: &str) -> (r: Vec<char>)
    ensures
        r@ == text@,
{
    broadcast use vstd::string::axiom_spec_iter;

    let mut r: Vec<char> = Vec::new();
    for c in it: text.chars()
        invariant
            r@ == it.seq().take(it.index() as int),
            it.seq() == text@,
    {
        r.push(c);
    }
    r
}

/// The whitespace-separated words of `text`, each a row.
pub fn split_words(text: &Vec<char>) -> (r: Vec<Vec<char>>)
    ensures
        grid_view(r@) == words(text@),
{
    let mut done: Vec<Vec<char>> = Vec::new();
    let mut cur: Vec<char> = Vec::new();
    for i in 0..text.len()
        invariant
            (grid_view(done@), cur@) == words_acc(text@.take(i as int)),
    {
        let c = text[i];
        assert(text@.take(i + 1).drop_last() =~= text@.take(i as int));
        if is_white_space(c) {
            if cur.len() > 0 {
                let word = cur;
                done.push(word);
                cur = Vec::new();
                assert(grid_view(done@) =~= words_acc(text@.take(i + 1)).0);
            }
        } else {
            cur.push(c);
        }
        assert(cur@ =~= words_acc(text@.take(i + 1)).1);
    }
    assert(text@.take(text.len() as int) =~= text@);
    if cur.len() > 0 {
        done.push(cur);
    }
    assert(grid_view(done@) =~= words(text@));
    done
}

/// The pieces of `text` between the separator characters, each a row.
pub fn split_pieces(text: &Vec<char>, start: usize, end: usize, sep: char) -> (r: Vec<Vec<char>>)
    requires
        start <= end <= text.len(),
    ensures
        grid_view(r@) == pieces(text@.subrange(start as int, end as int), sep),
{
    let ghost s = text@.subrange(start as int, end as int);
    let mut done: Vec<Vec<char>> = Vec::new();
    let mut cur: Vec<char> = Vec::new();
    for i in start..end
        invariant
            start <= end <= text.len(),
            s == text@.subrange(start as int, end as int),
            (grid_view(done@), cur@) == pieces_acc(s.take(i - start), sep),
    {
        let c = text[i];
        assert(s.take(i + 1 - start).drop_last() =~= s.take(i - start));
        assert(s[i - start] == c);
        if c == sep {
            let piece = cur;
            done.push(piece);
            cur = Vec::new();
            assert(grid_view(done@) =~= pieces_acc(s.take(i + 1 - start), sep).0);
        } else {
            cur.push(c);
        }
        assert(cur@ =~= pieces_acc(s.take(i + 1 - start), sep).1);
    }
    assert(s.take(end - start) =~= s);
    done.push(cur);
    assert(grid_view(done@) =~= pieces(s, sep));
    done
}

/// The bounds of `text` without leading and trailing white space.
pub fn trim_bounds(text: &Vec<char>) -> (r: (usize, usize))
    ensures
        r.0 <= r.1 <= text.len(),
        text@.subrange(r.0 as int, r.1 as int) == trim(text@),
{
    let n = text.len();
    let mut a: usize = 0;
    assert(text@.subrange(0, n as int) =~= text@);
    while a < n && is_white_space(text[a])
        invariant
            a <= n == text.len(),
            trim_start(text@) == trim_start(text@.subrange(a as int, n as int)),
        decreases n - a,
    {
        assert(text@.subrange(a as int, n as int).drop_first() =~= text@.subrange(a + 1, n as int));
        a = a + 1;
    }
    assert(trim_start(text@) == text@.subrange(a as int, n as int));
    let mut b: usize = n;
    while b > a && is_white_space(text[b - 1])
        invariant
            a <= b <= n == text.len(),
            trim(text@) == trim_end(text@.subrange(a as int, b as int)),
        decreases b - a,
    {
        assert(text@.subrange(a as int, b as int).drop_last() =~= text@.subrange(a as int, b - 1));
        b = b - 1;
    }
    (a, b)
}

} // verus!
