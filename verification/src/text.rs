//! Character-level text helpers: lowering, tokenizing, prefix and substring tests.

use vstd::prelude::*;

verus! {

/// What `str::to_lowercase` gives for a text: the Unicode lowercase mapping,
/// which depends on the text alone.
pub uninterp spec fn lowercase(s: Seq<char>) -> Seq<char>;

/// The text with every underscore turned into a space.
pub open spec fn underscores_as_spaces(s: Seq<char>) -> Seq<char> {
    s.map_values(|c: char| if c == '_' { ' ' } else { c })
}

/// Every character is ASCII.
pub open spec fn all_ascii(s: Seq<char>) -> bool {
    forall|i: int| 0 <= i < s.len() ==> s[i] <= '\u{7f}'
}

/// `A`–`Z` turned into `a`–`z`, every other character kept.
pub open spec fn ascii_lower(s: Seq<char>) -> Seq<char> {
    s.map_values(|c: char| if 'A' <= c <= 'Z' { ((c as u32) + 32) as char } else { c })
}

/// The lowercase form of a text: for ASCII text, its letters lowered one by one;
/// otherwise what `str::to_lowercase` gives.
pub open spec fn lowered(s: Seq<char>) -> Seq<char> {
    if all_ascii(s) {
        ascii_lower(s)
    } else {
        lowercase(s)
    }
}

/// How a tag is compared against a query term: lowercased, underscores read as spaces.
pub open spec fn normalized(s: Seq<char>) -> Seq<char> {
    underscores_as_spaces(lowered(s))
}

/// Unicode `White_Space`, as `char::is_whitespace` decides it.
pub open spec fn is_white_space(c: char) -> bool {
    ||| '\u{9}' <= c <= '\u{d}'
    ||| c == ' '
    ||| c == '\u{85}'
    ||| c == '\u{a0}'
    ||| c == '\u{1680}'
    ||| '\u{2000}' <= c <= '\u{200a}'
    ||| c == '\u{2028}'
    ||| c == '\u{2029}'
    ||| c == '\u{202f}'
    ||| c == '\u{205f}'
    ||| c == '\u{3000}'
}

/// The maximal runs of non-whitespace characters of `s`, in order
/// (what `str::split_whitespace` yields).
pub open spec fn words(s: Seq<char>) -> Seq<Seq<char>>
    decreases s.len(),
{
    if s.len() == 0 {
        seq![]
    } else {
        let prev = words(s.drop_last());
        let c = s.last();
        if is_white_space(c) {
            prev
        } else if s.len() >= 2 && !is_white_space(s[s.len() - 2]) {
            prev.drop_last().push(prev.last().push(c))
        } else {
            prev.push(seq![c])
        }
    }
}

/// `p` occurs in `s` as a contiguous piece.
pub open spec fn occurs_in(p: Seq<char>, s: Seq<char>) -> bool {
    exists|i: int| 0 <= i <= s.len() - p.len() && #[trigger] s.subrange(i, i + p.len()) == p
}

/// Text without whitespace has no words.
pub proof fn law_no_words_in_empty_text()
    ensures
        words(Seq::<char>::empty()) == Seq::<Seq<char>>::empty(),
{
}

/// A text ending in a non-whitespace character has at least one word.
proof fn lemma_words_nonempty_when_ending_in_word(s: Seq<char>)
    requires
        s.len() > 0,
        !is_white_space(s.last()),
    ensures
        words(s).len() > 0,
{
}

/// Every word is non-empty and holds no whitespace.
pub proof fn law_words_are_nonempty_runs(s: Seq<char>)
    ensures
        forall|k: int| 0 <= k < words(s).len() ==> (#[trigger] words(s)[k]).len() > 0,
        forall|k: int, j: int|
            0 <= k < words(s).len() && 0 <= j < words(s)[k].len() ==> !is_white_space(#[trigger] words(s)[k][j]),
    decreases s.len(),
{
    if s.len() > 0 {
        let d = s.drop_last();
        law_words_are_nonempty_runs(d);
        if s.len() >= 2 && !is_white_space(s[s.len() - 2]) && !is_white_space(s.last()) {
            assert(d.last() == s[s.len() - 2]);
            lemma_words_nonempty_when_ending_in_word(d);
            let p = words(d);
            let w = words(s);
            assert forall|k: int, j: int| 0 <= k < w.len() && 0 <= j < w[k].len() implies !is_white_space(
                #[trigger] w[k][j],
            ) by {
                if k < w.len() - 1 {
                    assert(w[k] == p[k]);
                } else if j < p.last().len() {
                    assert(w[k][j] == p[p.len() - 1][j]);
                }
            }
            assert forall|k: int| 0 <= k < w.len() implies (#[trigger] w[k]).len() > 0 by {
                if k < w.len() - 1 {
                    assert(w[k] == p[k]);
                }
            }
        }
    }
}

/// A non-empty text without whitespace is a single word.
pub proof fn law_text_without_whitespace_is_one_word(s: Seq<char>)
    requires
        s.len() > 0,
        forall|i: int| 0 <= i < s.len() ==> !is_white_space(#[trigger] s[i]),
    ensures
        words(s) == seq![s],
    decreases s.len(),
{
    let d = s.drop_last();
    if d.len() == 0 {
        assert(words(d) == Seq::<Seq<char>>::empty());
        assert(seq![s.last()] == s);
        assert(Seq::<Seq<char>>::empty().push(seq![s.last()]) == seq![s]);
    } else {
        law_text_without_whitespace_is_one_word(d);
        assert(d.last() == s[s.len() - 2]);
        assert(d.push(s.last()) == s);
        assert(seq![d].drop_last().push(d.push(s.last())) == seq![s]);
    }
}

/// A whitespace character separates: the words of `a`, a space, then `b` are the words of `a`
/// followed by the words of `b`.
pub proof fn law_whitespace_separates_words(a: Seq<char>, w: char, b: Seq<char>)
    requires
        is_white_space(w),
    ensures
        words(a + seq![w] + b) == words(a) + words(b),
    decreases b.len(),
{
    let x = a + seq![w] + b;
    if b.len() == 0 {
        assert(x.drop_last() == a);
        assert(words(a) + Seq::<Seq<char>>::empty() == words(a));
    } else {
        let bp = b.drop_last();
        let c = b.last();
        let xp = a + seq![w] + bp;
        law_whitespace_separates_words(a, w, bp);
        assert(x.drop_last() == xp);
        assert(x.last() == c);
        let pw = words(a);
        let q = words(bp);
        if !is_white_space(c) {
            if bp.len() > 0 && !is_white_space(bp.last()) {
                assert(x[x.len() - 2] == bp.last());
                assert(b[b.len() - 2] == bp.last());
                lemma_words_nonempty_when_ending_in_word(bp);
                assert((pw + q).drop_last() == pw + q.drop_last());
                assert((pw + q).last() == q.last());
                assert(pw + q.drop_last().push(q.last().push(c)) == (pw + q.drop_last()).push(q.last().push(c)));
            } else {
                if bp.len() == 0 {
                    assert(x[x.len() - 2] == w);
                    assert(words(bp) == Seq::<Seq<char>>::empty());
                    assert(b.drop_last() == bp);
                } else {
                    assert(x[x.len() - 2] == bp.last());
                    assert(b[b.len() - 2] == bp.last());
                }
                assert(pw + q.push(seq![c]) == (pw + q).push(seq![c]));
            }
        }
    }
}

/// The characters of `s`, in order.
pub fn chars_of(s: &str) -> (out: Vec<char>)
    ensures
        out@ == s@,
{
    let mut out: Vec<char> = Vec::new();
    for c in it: s.chars()
        invariant
            out@ == it.seq().take(it.index() as int),
    {
        out.push(c);
    }
    out
}

/// `str::to_lowercase`. For ASCII text it lowers `A`–`Z` and keeps every other character
/// (its ASCII path maps each byte with `u8::to_ascii_lowercase`).
#[verifier::external_body]
pub fn to_lower(s: &str) -> (out: String)
    ensures
        out@ == lowercase(s@),
        all_ascii(s@) ==> out@ == ascii_lower(s@),
{
    s.to_lowercase()
}

/// `str::replace('_', " ")`: every underscore becomes a space.
#[verifier::external_body]
pub fn replace_underscores(s: &str) -> (out: String)
    ensures
        out@ == underscores_as_spaces(s@),
{
    s.replace('_', " ")
}

/// The characters of a tag as it is compared against query terms.
pub fn normalized_chars(tag: &str) -> (out: Vec<char>)
    ensures
        out@ == normalized(tag@),
{
    let lower = to_lower(tag);
    let spaced = replace_underscores(lower.as_str());
    chars_of(spaced.as_str())
}

/// `char::is_whitespace`.
pub fn white_space(c: char) -> (r: bool)
    ensures
        r == is_white_space(c),
{
    ('\u{9}' <= c && c <= '\u{d}') || c == ' ' || c == '\u{85}' || c == '\u{a0}' || c == '\u{1680}'
        || ('\u{2000}' <= c && c <= '\u{200a}') || c == '\u{2028}' || c == '\u{2029}' || c
        == '\u{202f}' || c == '\u{205f}' || c == '\u{3000}'
}

/// The whitespace-separated words of `s`.
pub fn split_words(s: &Vec<char>) -> (out: Vec<Vec<char>>)
    ensures
        out@.len() == words(s@).len(),
        forall|k: int| 0 <= k < out@.len() ==> #[trigger] out@[k]@ == words(s@)[k],
{
    let mut done: Vec<Vec<char>> = Vec::new();
    let mut cur: Vec<char> = Vec::new();
    let n = s.len();
    let mut i: usize = 0;
    while i < n
        invariant
            n == s@.len(),
            i <= n,
            ({
                let w = words(s@.take(i as int));
                if cur@.len() == 0 {
                    &&& w.len() == done@.len()
                    &&& forall|k: int| 0 <= k < done@.len() ==> #[trigger] done@[k]@ == w[k]
                } else {
                    &&& w.len() == done@.len() + 1
                    &&& forall|k: int| 0 <= k < done@.len() ==> #[trigger] done@[k]@ == w[k]
                    &&& w.last() == cur@
                }
            }),
            cur@.len() == 0 ==> (i == 0 || is_white_space(s@[i - 1])),
            cur@.len() > 0 ==> i > 0 && !is_white_space(s@[i - 1]),
        decreases n - i,
    {
        let c = s[i];
        assert(s@.take(i + 1).drop_last() == s@.take(i as int));
        if white_space(c) {
            if cur.len() > 0 {
                let mut taken: Vec<char> = Vec::new();
                std::mem::swap(&mut taken, &mut cur);
                done.push(taken);
            }
        } else {
            cur.push(c);
        }
        i = i + 1;
    }
    if cur.len() > 0 {
        done.push(cur);
    }
    assert(s@.take(n as int) == s@);
    done
}

/// `p` is a prefix of `s`.
pub fn starts_with(s: &Vec<char>, p: &Vec<char>) -> (r: bool)
    ensures
        r == p@.is_prefix_of(s@),
{
    if p.len() > s.len() {
        return false;
    }
    let mut i: usize = 0;
    while i < p.len()
        invariant
            p@.len() <= s@.len(),
            i <= p@.len(),
            forall|k: int| 0 <= k < i ==> s@[k] == p@[k],
        decreases p@.len() - i,
    {
        if s[i] != p[i] {
            return false;
        }
        i = i + 1;
    }
    assert(s@.take(p@.len() as int) == p@);
    true
}

/// `s` and `p` hold the same characters.
pub fn same_chars(s: &Vec<char>, p: &Vec<char>) -> (r: bool)
    ensures
        r == (s@ == p@),
{
    if s.len() != p.len() {
        return false;
    }
    let r = starts_with(s, p);
    proof {
        if r {
            assert(s@ == s@.take(p@.len() as int));
        }
    }
    r
}

/// `p` occurs in `s` as a contiguous piece.
pub fn contains_chars(s: &Vec<char>, p: &Vec<char>) -> (r: bool)
    ensures
        r == occurs_in(p@, s@),
{
    if p.len() > s.len() {
        return false;
    }
    let last = s.len() - p.len();
    let mut start: usize = 0;
    while start <= last
        invariant
            last == s@.len() - p@.len(),
            p@.len() <= s@.len(),
            s@.len() <= usize::MAX,
            forall|j: int| 0 <= j < start ==> #[trigger] s@.subrange(j, j + p@.len()) != p@,
        decreases last + 1 - start,
    {
        let mut k: usize = 0;
        let mut matched = true;
        while k < p.len()
            invariant
                start <= last,
                last == s@.len() - p@.len(),
                p@.len() <= s@.len(),
                s@.len() <= usize::MAX,
                k <= p@.len(),
                matched ==> forall|m: int| 0 <= m < k ==> s@[start + m] == p@[m],
                !matched ==> s@.subrange(start as int, start + p@.len()) != p@,
            decreases p@.len() - k,
        {
            if s[start + k] != p[k] {
                matched = false;
                assert(s@.subrange(start as int, start + p@.len())[k as int] != p@[k as int]);
                k = p.len();
            } else {
                k = k + 1;
            }
        }
        if matched {
            assert(s@.subrange(start as int, start + p@.len()) == p@);
            return true;
        }
        if start == last {
            return false;
        }
        start = start + 1;
    }
    false
}

} // verus!
