//! The line matcher: collects every line of a text that contains a query,
//! in order of appearance.

use vstd::prelude::*;
use crate::text::{
    contains_substring, has_substring, lines_of, split_lines, substring_at, views_of,
};

verus! {

/// The subsequence of `lines` whose members contain `query`, in order.
pub open spec fn matching_of(query: Seq<char>, lines: Seq<Seq<char>>) -> Seq<Seq<char>>
    decreases lines.len(),
{
    if lines.len() == 0 {
        Seq::empty()
    } else {
        let rest = matching_of(query, lines.drop_last());
        if has_substring(lines.last(), query) {
            rest.push(lines.last())
        } else {
            rest
        }
    }
}

/// All lines of `contents` that contain `query`, in order of appearance.
pub open spec fn matching_lines(query: Seq<char>, contents: Seq<char>) -> Seq<Seq<char>> {
    matching_of(query, lines_of(contents))
}

/// Searches for `query` in `contents`, returning the lines that contain
/// it as a literal, case-sensitive substring, in order of appearance,
/// without copying: each returned slice borrows from `contents`.
///
/// The result is a pure function of the views of `query` and `contents`:
/// two calls on identical inputs return identical line sequences.
pub fn search<'a>(query: &str, contents: &'a str) -> (results: Vec<&'a str>)
    ensures
        views_of(results@) == matching_lines(query@, contents@),
{
    let lines = split_lines(contents);
    let mut results: Vec<&'a str> = Vec::new();
    let ghost all = views_of(lines@);
    let mut idx: usize = 0;
    proof {
        assert(views_of(results@) =~= matching_of(query@, all.subrange(0, 0)));
    }
    while idx < lines.len()
        invariant
            all == views_of(lines@),
            all == lines_of(contents@),
            idx <= lines@.len(),
            views_of(results@) == matching_of(query@, all.subrange(0, idx as int)),
        decreases lines@.len() - idx,
    {
        let line = lines[idx];
        let hit = contains_substring(line, query);
        proof {
            let prefix = all.subrange(0, idx + 1);
            assert(prefix.drop_last() =~= all.subrange(0, idx as int));
            assert(prefix.last() == line@);
            if hit {
                assert(views_of(results@.push(line)) =~= views_of(results@).push(line@));
            }
        }
        if hit {
            results.push(line);
        }
        idx += 1;
    }
    proof {
        assert(all.subrange(0, lines@.len() as int) =~= all);
    }
    results
}

/// `picks` exhibits `result` as a selection from `lines`: each member of
/// `result` is the line at the corresponding index of `picks`, the picked
/// indices are strictly increasing, and an index is picked exactly when
/// its line contains `query`.
pub open spec fn selection_of(
    lines: Seq<Seq<char>>,
    query: Seq<char>,
    picks: Seq<int>,
    result: Seq<Seq<char>>,
) -> bool {
    &&& picks.len() == result.len()
    &&& (forall|i: int| 0 <= i < picks.len() ==> 0 <= #[trigger] picks[i] < lines.len())
    &&& (forall|i: int| 0 <= i < picks.len() ==> result[i] == lines[#[trigger] picks[i]])
    &&& (forall|i: int, j: int|
        #![trigger picks[i], picks[j]]
        0 <= i < j < picks.len() ==> picks[i] < picks[j])
    &&& (forall|k: int|
        0 <= k < lines.len() ==> (has_substring(#[trigger] lines[k], query) <==> picks.contains(
            k,
        )))
}

proof fn lemma_matching_of_selection(query: Seq<char>, lines: Seq<Seq<char>>)
    ensures
        exists|picks: Seq<int>|
            selection_of(lines, query, picks, matching_of(query, lines)),
    decreases lines.len(),
{
    if lines.len() == 0 {
        let picks = Seq::<int>::empty();
        assert(selection_of(lines, query, picks, matching_of(query, lines)));
    } else {
        let prefix = lines.drop_last();
        let n = lines.len() - 1;
        lemma_matching_of_selection(query, prefix);
        let picks0 = choose|p: Seq<int>|
            selection_of(prefix, query, p, matching_of(query, prefix));
        let rest = matching_of(query, prefix);
        assert(forall|k: int| 0 <= k < n ==> prefix[k] == #[trigger] lines[k]);
        assert(!picks0.contains(n)) by {
            if picks0.contains(n) {
                let w = choose|w: int| 0 <= w < picks0.len() && picks0[w] == n;
                assert(picks0[w] < prefix.len());
            }
        }
        if has_substring(lines.last(), query) {
            let picks = picks0.push(n);
            let result = rest.push(lines.last());
            assert(matching_of(query, lines) == result);
            assert forall|k: int|
                0 <= k < lines.len() implies (has_substring(
                #[trigger] lines[k],
                query,
            ) <==> picks.contains(k)) by {
                if k < n {
                    assert(prefix[k] == lines[k]);
                    if has_substring(lines[k], query) {
                        let w = choose|w: int| 0 <= w < picks0.len() && picks0[w] == k;
                        assert(picks[w] == k);
                        assert(picks.contains(k));
                    }
                    if picks.contains(k) {
                        let w = choose|w: int| 0 <= w < picks.len() && picks[w] == k;
                        assert(w < picks0.len());
                        assert(picks0[w] == k);
                        assert(picks0.contains(k));
                    }
                } else {
                    assert(k == n);
                    assert(picks[picks0.len() as int] == n);
                    assert(picks.contains(n));
                }
            }
            assert(selection_of(lines, query, picks, matching_of(query, lines)));
        } else {
            assert(matching_of(query, lines) == rest);
            assert forall|k: int|
                0 <= k < lines.len() implies (has_substring(
                #[trigger] lines[k],
                query,
            ) <==> picks0.contains(k)) by {
                if k < n {
                    assert(prefix[k] == lines[k]);
                } else {
                    assert(k == n);
                    assert(!has_substring(lines[n], query));
                    assert(!picks0.contains(n));
                }
            }
            assert(selection_of(lines, query, picks0, matching_of(query, lines)));
        }
    }
}

/// Soundness and completeness of the matcher: a strictly increasing
/// sequence of line indices exhibits the result as exactly the lines of
/// `contents` that contain `query` — every returned line contains the
/// query, every line containing it is returned exactly once, and the
/// original order of the lines is kept.
pub proof fn lemma_matcher_sound_complete(query: Seq<char>, contents: Seq<char>)
    ensures
        exists|picks: Seq<int>|
            selection_of(lines_of(contents), query, picks, matching_lines(query, contents)),
{
    lemma_matching_of_selection(query, lines_of(contents));
    let picks = choose|p: Seq<int>|
        selection_of(lines_of(contents), query, p, matching_of(query, lines_of(contents)));
    assert(selection_of(lines_of(contents), query, picks, matching_lines(query, contents)));
}

proof fn lemma_empty_pattern_occurs(text: Seq<char>)
    ensures
        has_substring(text, Seq::<char>::empty()),
{
    assert(text.subrange(0, 0) =~= Seq::<char>::empty());
    assert(substring_at(text, Seq::<char>::empty(), 0));
}

proof fn lemma_matching_of_empty_query(lines: Seq<Seq<char>>)
    ensures
        matching_of(Seq::<char>::empty(), lines) == lines,
    decreases lines.len(),
{
    if lines.len() == 0 {
        assert(matching_of(Seq::<char>::empty(), lines) =~= lines);
    } else {
        lemma_matching_of_empty_query(lines.drop_last());
        lemma_empty_pattern_occurs(lines.last());
        assert(lines.drop_last().push(lines.last()) =~= lines);
    }
}

/// An empty query matches every line: the matcher returns all lines of
/// the text, unchanged and in order.
pub proof fn lemma_empty_query_matches_all(contents: Seq<char>)
    ensures
        matching_lines(Seq::<char>::empty(), contents) == lines_of(contents),
{
    lemma_matching_of_empty_query(lines_of(contents));
}

/// Empty contents have no lines, so the matcher returns no lines for any
/// query.
pub proof fn lemma_empty_contents_no_matches(query: Seq<char>)
    ensures
        matching_lines(query, Seq::<char>::empty()) == Seq::<Seq<char>>::empty(),
{
    assert(lines_of(Seq::<char>::empty()) =~= Seq::<Seq<char>>::empty());
}

} // verus!
