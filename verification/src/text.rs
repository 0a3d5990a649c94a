//! The text model: what it means for one string to occur inside another,
//! and how a block of text splits into lines.

use vstd::prelude::*;
use vstd::string::*;

verus! {

/// `pat` occurs in `text` as a contiguous substring starting at index `i`.
pub open spec fn substring_at(text: Seq<char>, pat: Seq<char>, i: int) -> bool {
    &&& 0 <= i
    &&& i + pat.len() <= text.len()
    &&& text.subrange(i, i + pat.len() as int) == pat
}

/// `pat` occurs somewhere in `text` as a contiguous, character-exact
/// substring.  The empty sequence occurs in every text.
pub open spec fn has_substring(text: Seq<char>, pat: Seq<char>) -> bool {
    exists|i: int| substring_at(text, pat, i)
}

/// The index of the first line feed in `s`, or `s.len()` if there is none.
pub open spec fn line_break(s: Seq<char>) -> nat
    decreases s.len(),
{
    if s.len() == 0 {
        0
    } else if s[0] == '\n' {
        0
    } else {
        (1 + line_break(s.drop_first())) as nat
    }
}

/// Any position with no line feed before it, and a line feed at it (or the
/// end of the text), is exactly `line_break`.
proof fn lemma_line_break_at(s: Seq<char>, k: int)
    requires
        0 <= k <= s.len(),
        forall|j: int| 0 <= j < k ==> s[j] != '\n',
        k < s.len() ==> s[k] == '\n',
    ensures
        line_break(s) == k,
    decreases s.len(),
{
    if s.len() == 0 {
    } else if s[0] == '\n' {
        assert(k == 0);
    } else {
        let rest = s.drop_first();
        assert(k >= 1);
        assert forall|j: int| 0 <= j < k - 1 implies rest[j] != '\n' by {
            assert(rest[j] == s[j + 1]);
        }
        if k - 1 < rest.len() {
            assert(rest[k - 1] == s[k]);
        }
        lemma_line_break_at(rest, k - 1);
    }
}

/// A line with one trailing carriage return removed, as the two-character
/// line terminator calls for.
pub open spec fn strip_cr(line: Seq<char>) -> Seq<char> {
    if line.len() > 0 && line[line.len() - 1] == '\r' {
        line.drop_last()
    } else {
        line
    }
}

/// The lines of `s`: the text is split at each line feed, one trailing
/// carriage return is removed from every terminated line, no terminator
/// appears in any line, and a final line without a terminator is kept
/// whole.  Empty text has no lines.
pub open spec fn lines_of(s: Seq<char>) -> Seq<Seq<char>>
    decreases s.len(),
{
    if s.len() == 0 {
        Seq::empty()
    } else {
        let k = line_break(s) as int;
        if k >= s.len() {
            seq![s]
        } else {
            seq![strip_cr(s.subrange(0, k))] + lines_of(s.subrange(k + 1, s.len() as int))
        }
    }
}

/// The views of a sequence of borrowed string slices.
pub open spec fn views_of(lines: Seq<&str>) -> Seq<Seq<char>> {
    lines.map_values(|line: &str| line@)
}

/// Whether `pat` occurs in `text` starting exactly at position `i`.
fn match_at(text: &str, pat: &str, i: usize, n: usize, m: usize) -> (b: bool)
    requires
        n == text@.len(),
        m == pat@.len(),
        i + m <= n,
    ensures
        b == substring_at(text@, pat@, i as int),
{
    let mut j: usize = 0;
    while j < m
        invariant
            n == text@.len(),
            m == pat@.len(),
            i + m <= n,
            j <= m,
            forall|l: int| 0 <= l < j ==> text@[i + l] == pat@[l],
        decreases m - j,
    {
        if text.get_char(i + j) != pat.get_char(j) {
            proof {
                if substring_at(text@, pat@, i as int) {
                    assert(text@.subrange(i as int, i + m as int)[j as int] == pat@[j as int]);
                }
            }
            return false;
        }
        j += 1;
    }
    proof {
        assert(text@.subrange(i as int, i + m as int) =~= pat@);
    }
    true
}

/// Whether `pat` occurs anywhere in `text` as a contiguous,
/// case-sensitive, character-exact substring.  The empty pattern occurs
/// in every text.
pub fn contains_substring(text: &str, pat: &str) -> (b: bool)
    ensures
        b == has_substring(text@, pat@),
{
    let n = text.unicode_len();
    let m = pat.unicode_len();
    if m == 0 {
        proof {
            assert(text@.subrange(0, 0) =~= pat@);
            assert(substring_at(text@, pat@, 0));
        }
        return true;
    }
    if m > n {
        proof {
            assert forall|i: int| !substring_at(text@, pat@, i) by {
                if substring_at(text@, pat@, i) {
                    assert(i + m <= n);
                }
            }
        }
        return false;
    }
    let mut i: usize = 0;
    while i <= n - m
        invariant
            n == text@.len(),
            m == pat@.len(),
            1 <= m <= n,
            i <= n - m + 1,
            forall|k: int| 0 <= k < i ==> !substring_at(text@, pat@, k),
        decreases n - m + 1 - i,
    {
        if match_at(text, pat, i, n, m) {
            proof {
                assert(substring_at(text@, pat@, i as int));
            }
            return true;
        }
        i += 1;
    }
    proof {
        assert forall|k: int| !substring_at(text@, pat@, k) by {
            if substring_at(text@, pat@, k) {
                assert(k + m <= n);
                assert(k < i);
            }
        }
    }
    false
}

/// The lines of `contents`, in order of appearance, each borrowed from
/// the original buffer with its terminator left out.
pub fn split_lines<'a>(contents: &'a str) -> (lines: Vec<&'a str>)
    ensures
        views_of(lines@) == lines_of(contents@),
{
    let n = contents.unicode_len();
    let mut lines: Vec<&'a str> = Vec::new();
    let mut start: usize = 0;
    let mut i: usize = 0;
    proof {
        assert(contents@.subrange(0, n as int) =~= contents@);
        assert(views_of(lines@) + lines_of(contents@) =~= lines_of(contents@));
    }
    while i < n
        invariant
            n == contents@.len(),
            start <= i <= n,
            views_of(lines@) + lines_of(contents@.subrange(start as int, n as int)) == lines_of(
                contents@,
            ),
            forall|j: int| start <= j < i ==> contents@[j] != '\n',
        decreases n - i,
    {
        let c = contents.get_char(i);
        if c == '\n' {
            let end = if i > start && contents.get_char(i - 1) == '\r' {
                i - 1
            } else {
                i
            };
            let line = contents.substring_char(start, end);
            proof {
                let suf = contents@.subrange(start as int, n as int);
                assert forall|j: int| 0 <= j < i - start implies suf[j] != '\n' by {
                    assert(suf[j] == contents@[start + j]);
                }
                assert(suf[i - start] == contents@[i as int]);
                lemma_line_break_at(suf, i - start);
                assert(suf.subrange(0, i - start) =~= contents@.subrange(start as int, i as int));
                assert(suf.subrange(i - start + 1, suf.len() as int) =~= contents@.subrange(
                    i + 1,
                    n as int,
                ));
                assert(strip_cr(contents@.subrange(start as int, i as int)) =~= contents@.subrange(
                    start as int,
                    end as int,
                ));
                assert(lines_of(suf) =~= seq![line@] + lines_of(
                    contents@.subrange(i + 1, n as int),
                ));
                assert(views_of(lines@.push(line)) =~= views_of(lines@) + seq![line@]);
                assert(views_of(lines@.push(line)) + lines_of(contents@.subrange(i + 1, n as int))
                    =~= views_of(lines@) + lines_of(suf));
            }
            lines.push(line);
            start = i + 1;
        }
        i += 1;
    }
    if start < n {
        let line = contents.substring_char(start, n);
        proof {
            let suf = contents@.subrange(start as int, n as int);
            assert forall|j: int| 0 <= j < suf.len() implies suf[j] != '\n' by {
                assert(suf[j] == contents@[start + j]);
            }
            lemma_line_break_at(suf, suf.len() as int);
            assert(lines_of(suf) =~= seq![line@]);
            assert(views_of(lines@.push(line)) =~= views_of(lines@) + seq![line@]);
        }
        lines.push(line);
    } else {
        proof {
            assert(contents@.subrange(start as int, n as int) =~= Seq::<char>::empty());
            assert(views_of(lines@) + lines_of(contents@.subrange(start as int, n as int))
                =~= views_of(lines@));
        }
    }
    lines
}

} // verus!
