//! Splitting and trimming of the text forms of ciphertexts and keys.
use crate::bignat::{all_digits, digit_of};
use vstd::prelude::*;

verus! {

/// `t` with `cur` put in front of its first part.
pub open spec fn prepend_first(cur: Seq<char>, t: Seq<Seq<char>>) -> Seq<Seq<char>>
    recommends
        t.len() > 0,
{
    t.update(0, cur + t[0])
}

/// `s` cut at each occurrence of `sep`, from the left, as `str::split` cuts
/// it: `k` occurrences give `k + 1` parts, empty ones included.
pub open spec fn split_by(s: Seq<char>, sep: Seq<char>) -> Seq<Seq<char>>
    decreases s.len(),
{
    if s.len() == 0 || sep.len() == 0 {
        seq![s]
    } else if sep.len() <= s.len() && s.subrange(0, sep.len() as int) == sep {
        seq![Seq::<char>::empty()] + split_by(s.subrange(sep.len() as int, s.len() as int), sep)
    } else {
        prepend_first(seq![s[0]], split_by(s.drop_first(), sep))
    }
}

/// A split has at least one part.
pub proof fn lemma_split_nonempty(s: Seq<char>, sep: Seq<char>)
    ensures
        split_by(s, sep).len() >= 1,
    decreases s.len(),
{
    if s.len() == 0 || sep.len() == 0 {
    } else if sep.len() <= s.len() && s.subrange(0, sep.len() as int) == sep {
        lemma_split_nonempty(s.subrange(sep.len() as int, s.len() as int), sep);
    } else {
        lemma_split_nonempty(s.drop_first(), sep);
    }
}

/// A character of Unicode's White_Space property.
pub open spec fn is_white_space(c: char) -> bool {
    let u = c as u32;
    (0x09 <= u <= 0x0D) || u == 0x20 || u == 0x85 || u == 0xA0 || u == 0x1680 || (0x2000 <= u
        <= 0x200A) || u == 0x2028 || u == 0x2029 || u == 0x202F || u == 0x205F || u == 0x3000
}

/// Tells whether `c` has Unicode's White_Space property.
pub fn is_white_space_char(c: char) -> (r: bool)
    ensures
        r == is_white_space(c),
{
    let u = c as u32;
    (0x09 <= u && u <= 0x0D) || u == 0x20 || u == 0x85 || u == 0xA0 || u == 0x1680 || (0x2000
        <= u && u <= 0x200A) || u == 0x2028 || u == 0x2029 || u == 0x202F || u == 0x205F || u
        == 0x3000
}

/// `s` without its last character where that is white space.
pub open spec fn trim_last_white_space(s: Seq<char>) -> Seq<char> {
    if s.len() > 0 && is_white_space(s.last()) {
        s.drop_last()
    } else {
        s
    }
}

/// Tells whether `s` holds `sep` from position `i` on.
fn matches_at(s: &str, sep: &str, i: usize) -> (r: bool)
    requires
        s.is_ascii(),
        sep.is_ascii(),
        i + sep@.len() <= s@.len(),
    ensures
        r == (s@.subrange(i as int, i + sep@.len()) == sep@),
{
    let n = s.unicode_len();
    let m = sep.unicode_len();
    let mut j: usize = 0;
    while j < m
        invariant
            m == sep@.len(),
            n == s@.len(),
            j <= m,
            i + m <= s@.len(),
            s.is_ascii(),
            sep.is_ascii(),
            s@.subrange(i as int, i + j) == sep@.subrange(0, j as int),
        decreases m - j,
    {
        let a = s.get_ascii(i + j);
        let b = sep.get_ascii(j);
        if a != b {
            proof {
                assert(s@.subrange(i as int, i + m)[j as int] == s@[i + j]);
                assert('\0' <= s@[i + j] <= '\u{7f}');
                assert('\0' <= sep@[j as int] <= '\u{7f}');
            }
            return false;
        }
        proof {
            assert('\0' <= s@[i + j] <= '\u{7f}');
            assert('\0' <= sep@[j as int] <= '\u{7f}');
            assert(s@[i + j] == sep@[j as int]);
            assert(s@.subrange(i as int, i + j + 1) =~= sep@.subrange(0, j + 1));
        }
        j = j + 1;
    }
    assert(sep@.subrange(0, m as int) =~= sep@);
    true
}

/// The views of strings.
pub open spec fn views_of(v: Seq<String>) -> Seq<Seq<char>> {
    v.map_values(|t: String| t@)
}

/// Splits the ASCII text `s` at each occurrence of `sep`.
pub fn split_ascii(s: &str, sep: &str) -> (r: Vec<String>)
    requires
        s.is_ascii(),
        sep.is_ascii(),
        sep@.len() > 0,
    ensures
        views_of(r@) == split_by(s@, sep@),
{
    let n = s.unicode_len();
    let m = sep.unicode_len();
    let mut tokens: Vec<String> = Vec::new();
    let mut start: usize = 0;
    let mut i: usize = 0;
    proof {
        lemma_split_nonempty(s@, sep@);
        assert(s@.subrange(0, n as int) =~= s@);
        assert(s@.subrange(0, 0) =~= Seq::<char>::empty());
        let t = split_by(s@, sep@);
        assert(Seq::<char>::empty() + t[0] =~= t[0]);
        assert(prepend_first(Seq::<char>::empty(), t) =~= t);
        assert(views_of(tokens@) =~= Seq::<Seq<char>>::empty());
        assert(views_of(tokens@) + t =~= t);
    }
    while i < n
        invariant
            n == s@.len(),
            m == sep@.len(),
            m > 0,
            s.is_ascii(),
            sep.is_ascii(),
            start <= i <= n,
            views_of(tokens@) + prepend_first(
                s@.subrange(start as int, i as int),
                split_by(s@.subrange(i as int, n as int), sep@),
            ) == split_by(s@, sep@),
        decreases n - i,
    {
        let ghost rest = s@.subrange(i as int, n as int);
        proof {
            lemma_split_nonempty(rest, sep@);
        }
        if m <= n - i && matches_at(s, sep, i) {
            let t = s.substring_ascii(start, i).to_owned();
            proof {
                assert(rest.subrange(0, m as int) =~= s@.subrange(i as int, i + m));
                assert(rest.subrange(m as int, rest.len() as int) =~= s@.subrange(
                    i + m,
                    n as int,
                ));
                let tail = split_by(s@.subrange(i + m, n as int), sep@);
                lemma_split_nonempty(s@.subrange(i + m, n as int), sep@);
                assert(views_of(tokens@.push(t)) =~= views_of(tokens@).push(t@));
                assert(prepend_first(s@.subrange(start as int, i as int), split_by(rest, sep@))
                    =~= seq![t@] + prepend_first(Seq::<char>::empty(), tail)) by {
                    assert(Seq::<char>::empty() + tail[0] =~= tail[0]);
                    assert(prepend_first(Seq::<char>::empty(), tail) =~= tail);
                }
                assert(s@.subrange((i + m) as int, (i + m) as int) =~= Seq::<char>::empty());
            }
            tokens.push(t);
            i = i + m;
            start = i;
        } else {
            proof {
                let tail = split_by(s@.subrange(i + 1, n as int), sep@);
                lemma_split_nonempty(s@.subrange(i + 1, n as int), sep@);
                assert(rest.drop_first() =~= s@.subrange(i + 1, n as int));
                assert(rest[0] == s@[i as int]);
                if m <= n - i {
                    assert(rest.subrange(0, m as int) =~= s@.subrange(i as int, i + m));
                }
                assert(split_by(rest, sep@) == prepend_first(seq![s@[i as int]], tail));
                assert(s@.subrange(start as int, i + 1) =~= s@.subrange(start as int, i as int)
                    + seq![s@[i as int]]);
                let cur = s@.subrange(start as int, i as int);
                let c = seq![s@[i as int]];
                assert(cur + (c + tail[0]) =~= (cur + c) + tail[0]);
                assert(prepend_first(cur, split_by(rest, sep@)) =~= prepend_first(
                    s@.subrange(start as int, i + 1),
                    tail,
                ));
            }
            i = i + 1;
        }
    }
    let t = s.substring_ascii(start, n).to_owned();
    proof {
        assert(s@.subrange(n as int, n as int) =~= Seq::<char>::empty());
        assert(split_by(Seq::<char>::empty(), sep@) == seq![Seq::<char>::empty()]);
        assert(prepend_first(t@, seq![Seq::<char>::empty()]) =~= seq![t@]);
        assert(views_of(tokens@.push(t)) =~= views_of(tokens@) + seq![t@]);
    }
    tokens.push(t);
    tokens
}

/// The value of a digit character, as [`digit_of`] gives it.
pub fn digit_value(c: char) -> (r: u32)
    ensures
        r as nat == digit_of(c),
{
    let u = c as u32;
    if 48 <= u && u <= 57 {
        u - 48
    } else if 97 <= u && u <= 122 {
        u - 97 + 10
    } else if 65 <= u && u <= 90 {
        u - 65 + 10
    } else {
        36
    }
}

/// Tells whether `t` is a non-empty string of digits of base `radix`.
pub fn is_digits(t: &str, radix: u32) -> (r: bool)
    ensures
        r == (t@.len() > 0 && all_digits(t@, radix as nat)),
{
    let n = t.unicode_len();
    if n == 0 {
        return false;
    }
    let mut i: usize = 0;
    while i < n
        invariant
            n == t@.len(),
            i <= n,
            forall|j: int| 0 <= j < i ==> digit_of(#[trigger] t@[j]) < radix,
        decreases n - i,
    {
        if digit_value(t.get_char(i)) >= radix {
            return false;
        }
        i = i + 1;
    }
    true
}

} // verus!
