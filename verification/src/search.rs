//! The search itself: which lines of a text contain a query.
//!
//! A search walks the lines of the text once, from the first to the last, and
//! keeps each line that matches. The contracts describe the result by the
//! positions of the matching lines among all lines of the text.

use crate::fold::{fold_case, folded};
use crate::lines::{lines_of, next_line};
use crate::occurrence::{contains, occurs_at, str_contains};
use vstd::prelude::*;
use vstd::string::*;

verus! {

/// Whether `line` is a match for `query`. With `ignore_case` the folded line
/// is searched for the folded query; without it, the line for the query.
pub open spec fn line_matches(line: Seq<char>, query: Seq<char>, ignore_case: bool) -> bool {
    if ignore_case {
        contains(folded(line), folded(query))
    } else {
        contains(line, query)
    }
}

/// The positions in `lines` of the lines that match, in ascending order.
pub open spec fn positions_of_matches(
    lines: Seq<Seq<char>>,
    query: Seq<char>,
    ignore_case: bool,
) -> Seq<int>
    decreases lines.len(),
{
    if lines.len() == 0 {
        Seq::empty()
    } else {
        let earlier = positions_of_matches(lines.drop_last(), query, ignore_case);
        if line_matches(lines.last(), query, ignore_case) {
            earlier.push(lines.len() - 1)
        } else {
            earlier
        }
    }
}

/// The lines that stand at `positions`, in the order of `positions`.
pub open spec fn select(lines: Seq<Seq<char>>, positions: Seq<int>) -> Seq<Seq<char>> {
    Seq::new(positions.len(), |k: int| lines[positions[k]])
}

/// The positions, among the lines of `contents`, of the lines that match `query`.
pub open spec fn matching_positions(
    query: Seq<char>,
    contents: Seq<char>,
    ignore_case: bool,
) -> Seq<int> {
    positions_of_matches(lines_of(contents), query, ignore_case)
}

/// The lines of `contents` that match `query`, as they stand in `contents`.
pub open spec fn matching_lines(query: Seq<char>, contents: Seq<char>, ignore_case: bool) -> Seq<
    Seq<char>,
> {
    select(lines_of(contents), matching_positions(query, contents, ignore_case))
}

/// Each element is greater than the one before it.
pub open spec fn ascending(positions: Seq<int>) -> bool {
    forall|a: int, b: int| 0 <= a < b < positions.len() ==> positions[a] < positions[b]
}

/// Folding keeps the matches of `query` in `contents`: each line that contains
/// the query still contains it after the line and the query are folded.
pub open spec fn folding_keeps_matches(query: Seq<char>, contents: Seq<char>) -> bool {
    forall|i: int|
        0 <= i < lines_of(contents).len() && contains(#[trigger] lines_of(contents)[i], query)
            ==> contains(folded(lines_of(contents)[i]), folded(query))
}

/// The matching positions are positions of `lines`, they ascend, and a
/// position is among them exactly when its line matches.
pub proof fn lemma_positions_of_matches(
    lines: Seq<Seq<char>>,
    query: Seq<char>,
    ignore_case: bool,
)
    ensures
        ascending(positions_of_matches(lines, query, ignore_case)),
        forall|k: int|
            0 <= k < positions_of_matches(lines, query, ignore_case).len() ==> 0
                <= #[trigger] positions_of_matches(lines, query, ignore_case)[k] < lines.len(),
        forall|i: int|
            positions_of_matches(lines, query, ignore_case).contains(i) <==> 0 <= i < lines.len()
                && line_matches(lines[i], query, ignore_case),
    decreases lines.len(),
{
    let found = positions_of_matches(lines, query, ignore_case);
    if lines.len() > 0 {
        let init = lines.drop_last();
        let earlier = positions_of_matches(init, query, ignore_case);
        let end = lines.len() - 1;
        lemma_positions_of_matches(init, query, ignore_case);
        assert forall|i: int| found.contains(i) <==> 0 <= i < lines.len() && line_matches(
            lines[i],
            query,
            ignore_case,
        ) by {
            if 0 <= i < end {
                assert(lines[i] == init[i]);
            }
            if found.contains(i) {
                let k = choose|k: int| 0 <= k < found.len() && found[k] == i;
                if k < earlier.len() {
                    assert(earlier[k] == i);
                    assert(earlier.contains(i));
                }
            }
            if 0 <= i < lines.len() && line_matches(lines[i], query, ignore_case) {
                if i < end {
                    assert(earlier.contains(i));
                    let k = choose|k: int| 0 <= k < earlier.len() && earlier[k] == i;
                    assert(found[k] == i);
                } else {
                    assert(found[found.len() - 1] == i);
                }
            }
        }
    }
}

/// Taking one more line into account adds its position if it matches, and
/// changes nothing before it.
proof fn lemma_select_next(
    seen: Seq<Seq<char>>,
    line: Seq<char>,
    query: Seq<char>,
    ignore_case: bool,
)
    ensures
        select(seen.push(line), positions_of_matches(seen.push(line), query, ignore_case))
            == if line_matches(line, query, ignore_case) {
            select(seen, positions_of_matches(seen, query, ignore_case)).push(line)
        } else {
            select(seen, positions_of_matches(seen, query, ignore_case))
        },
{
    let more = seen.push(line);
    assert(more.drop_last() =~= seen);
    lemma_positions_of_matches(seen, query, ignore_case);
    let earlier = positions_of_matches(seen, query, ignore_case);
    let found = positions_of_matches(more, query, ignore_case);
    if line_matches(line, query, ignore_case) {
        assert(select(more, found) =~= select(seen, earlier).push(line));
    } else {
        assert(select(more, found) =~= select(seen, earlier));
    }
}

/// Where every line matches, every position is a matching position.
proof fn lemma_all_positions(lines: Seq<Seq<char>>, query: Seq<char>, ignore_case: bool)
    requires
        forall|i: int| 0 <= i < lines.len() ==> line_matches(#[trigger] lines[i], query, ignore_case),
    ensures
        positions_of_matches(lines, query, ignore_case) == Seq::new(lines.len(), |i: int| i),
    decreases lines.len(),
{
    if lines.len() > 0 {
        let init = lines.drop_last();
        assert forall|i: int| 0 <= i < init.len() implies line_matches(
            #[trigger] init[i],
            query,
            ignore_case,
        ) by {
            assert(init[i] == lines[i]);
        }
        lemma_all_positions(init, query, ignore_case);
        assert(positions_of_matches(lines, query, ignore_case) =~= Seq::new(
            lines.len(),
            |i: int| i,
        ));
    }
}

/// The empty query matches every line, in either mode: a search for it
/// returns all lines of the text, in their order.
pub proof fn lemma_empty_query_matches_all(contents: Seq<char>, ignore_case: bool)
    ensures
        matching_lines(Seq::empty(), contents, ignore_case) == lines_of(contents),
{
    let lines = lines_of(contents);
    let query = Seq::<char>::empty();
    assert forall|i: int| 0 <= i < lines.len() implies line_matches(
        #[trigger] lines[i],
        query,
        ignore_case,
    ) by {
        let line = if ignore_case {
            folded(lines[i])
        } else {
            lines[i]
        };
        assert(line.subrange(0, 0) =~= query);
        assert(occurs_at(line, query, 0));
    }
    lemma_all_positions(lines, query, ignore_case);
    assert(matching_lines(query, contents, ignore_case) =~= lines);
}

/// A line that is found with regard to case is found without regard to it,
/// at the same position, wherever folding keeps the matches. Folding is done
/// on a whole text, and the lower-case form of a character can depend on its
/// neighbours (a capital sigma at the end of a word), so that a query folded
/// alone need not occur in the folded line; those texts are left out.
pub proof fn lemma_case_sensitive_within_insensitive(query: Seq<char>, contents: Seq<char>)
    requires
        folding_keeps_matches(query, contents),
    ensures
        forall|i: int|
            matching_positions(query, contents, false).contains(i) ==> matching_positions(
                query,
                contents,
                true,
            ).contains(i),
{
    let lines = lines_of(contents);
    lemma_positions_of_matches(lines, query, false);
    lemma_positions_of_matches(lines, query, true);
}

/// Two searches with the same query, text and mode return the same lines in
/// the same order: the result is a function of these three alone.
pub proof fn lemma_search_repeatable(
    query: Seq<char>,
    contents: Seq<char>,
    ignore_case: bool,
    first: Vec<&str>,
    second: Vec<&str>,
)
    requires
        first.deep_view() == matching_lines(query, contents, ignore_case),
        second.deep_view() == matching_lines(query, contents, ignore_case),
    ensures
        first@.len() == second@.len(),
        forall|k: int| 0 <= k < first@.len() ==> first@[k]@ == second@[k]@,
{
    assert(first.deep_view().len() == second.deep_view().len());
    assert forall|k: int| 0 <= k < first@.len() implies first@[k]@ == second@[k]@ by {
        assert(first.deep_view()[k] == second.deep_view()[k]);
    }
}

/// What the contracts of the search functions add to the equation with
/// `matching_lines`: the order of the result, and the empty query.
proof fn lemma_search_result(query: Seq<char>, contents: Seq<char>, ignore_case: bool)
    ensures
        ascending(matching_positions(query, contents, ignore_case)),
        matching_lines(query, contents, ignore_case).len() == matching_positions(
            query,
            contents,
            ignore_case,
        ).len(),
        forall|k: int|
            0 <= k < matching_lines(query, contents, ignore_case).len() ==> {
                let at = #[trigger] matching_positions(query, contents, ignore_case)[k];
                &&& 0 <= at < lines_of(contents).len()
                &&& matching_lines(query, contents, ignore_case)[k] == lines_of(contents)[at]
            },
        query.len() == 0 ==> matching_lines(query, contents, ignore_case) == lines_of(contents),
{
    lemma_positions_of_matches(lines_of(contents), query, ignore_case);
    if query.len() == 0 {
        assert(query =~= Seq::empty());
        lemma_empty_query_matches_all(contents, ignore_case);
    }
}

/// The lines of `contents` that contain `query`, character for character.
///
/// The result holds the matching lines in the order of the text: the line at
/// place `k` of the result is the line at place `k` of the matching
/// positions, and these ascend. For the empty query it holds every line.
pub fn search_case_sensitive<'a>(query: &str, contents: &'a str) -> (found: Vec<&'a str>)
    ensures
        found.deep_view() == matching_lines(query@, contents@, false),
        ascending(matching_positions(query@, contents@, false)),
        found@.len() == matching_positions(query@, contents@, false).len(),
        forall|k: int|
            0 <= k < found@.len() ==> {
                let at = #[trigger] matching_positions(query@, contents@, false)[k];
                &&& 0 <= at < lines_of(contents@).len()
                &&& found@[k]@ == lines_of(contents@)[at]
            },
        query@.len() == 0 ==> found.deep_view() == lines_of(contents@),
{
    let mut found: Vec<&'a str> = Vec::new();
    let mut rest: &'a str = contents;
    let ghost mut seen: Seq<Seq<char>> = Seq::empty();
    loop
        invariant
            lines_of(contents@) == seen + lines_of(rest@),
            found.deep_view() == select(seen, positions_of_matches(seen, query@, false)),
        ensures
            found.deep_view() == matching_lines(query@, contents@, false),
        decreases rest@.len(),
    {
        match next_line(rest) {
            None => {
                proof {
                    assert(seen + lines_of(rest@) =~= seen);
                }
                break ;
            },
            Some((line, tail)) => {
                let ghost before = found.deep_view();
                let matched = str_contains(line, query);
                if matched {
                    found.push(line);
                }
                proof {
                    lemma_select_next(seen, line@, query@, false);
                    assert(seen.push(line@) + lines_of(tail@) =~= seen + lines_of(rest@));
                    if matched {
                        assert(found.deep_view() =~= before.push(line@));
                    }
                    seen = seen.push(line@);
                }
                rest = tail;
            },
        }
    }
    proof {
        lemma_search_result(query@, contents@, false);
        assert forall|k: int| 0 <= k < found@.len() implies found@[k]@ == found.deep_view()[k] by {}
    }
    found
}

/// The lines of `contents` whose folded form contains the folded `query`.
///
/// The query is folded once, each line once. The lines come back as they
/// stand in `contents`, not folded, in the order of the text. For the empty
/// query the result holds every line.
pub fn search_case_insensitive<'a>(query: &str, contents: &'a str) -> (found: Vec<&'a str>)
    ensures
        found.deep_view() == matching_lines(query@, contents@, true),
        ascending(matching_positions(query@, contents@, true)),
        found@.len() == matching_positions(query@, contents@, true).len(),
        forall|k: int|
            0 <= k < found@.len() ==> {
                let at = #[trigger] matching_positions(query@, contents@, true)[k];
                &&& 0 <= at < lines_of(contents@).len()
                &&& found@[k]@ == lines_of(contents@)[at]
            },
        query@.len() == 0 ==> found.deep_view() == lines_of(contents@),
{
    let folded_query = fold_case(query);
    let mut found: Vec<&'a str> = Vec::new();
    let mut rest: &'a str = contents;
    let ghost mut seen: Seq<Seq<char>> = Seq::empty();
    loop
        invariant
            folded_query@ == folded(query@),
            lines_of(contents@) == seen + lines_of(rest@),
            found.deep_view() == select(seen, positions_of_matches(seen, query@, true)),
        ensures
            found.deep_view() == matching_lines(query@, contents@, true),
        decreases rest@.len(),
    {
        match next_line(rest) {
            None => {
                proof {
                    assert(seen + lines_of(rest@) =~= seen);
                }
                break ;
            },
            Some((line, tail)) => {
                let ghost before = found.deep_view();
                let folded_line = fold_case(line);
                let matched = str_contains(folded_line.as_str(), folded_query.as_str());
                if matched {
                    found.push(line);
                }
                proof {
                    lemma_select_next(seen, line@, query@, true);
                    assert(seen.push(line@) + lines_of(tail@) =~= seen + lines_of(rest@));
                    if matched {
                        assert(found.deep_view() =~= before.push(line@));
                    }
                    seen = seen.push(line@);
                }
                rest = tail;
            },
        }
    }
    proof {
        lemma_search_result(query@, contents@, true);
        assert forall|k: int| 0 <= k < found@.len() implies found@[k]@ == found.deep_view()[k] by {}
    }
    found
}

/// The lines of `contents` that match `query`, in the mode that `ignore_case`
/// selects: without regard to letter case where it is set, character for
/// character where it is not.
pub fn search<'a>(query: &str, contents: &'a str, ignore_case: bool) -> (found: Vec<&'a str>)
    ensures
        found.deep_view() == matching_lines(query@, contents@, ignore_case),
        ascending(matching_positions(query@, contents@, ignore_case)),
        found@.len() == matching_positions(query@, contents@, ignore_case).len(),
        forall|k: int|
            0 <= k < found@.len() ==> {
                let at = #[trigger] matching_positions(query@, contents@, ignore_case)[k];
                &&& 0 <= at < lines_of(contents@).len()
                &&& found@[k]@ == lines_of(contents@)[at]
            },
        query@.len() == 0 ==> found.deep_view() == lines_of(contents@),
{
    if ignore_case {
        search_case_insensitive(query, contents)
    } else {
        search_case_sensitive(query, contents)
    }
}

} // verus!
