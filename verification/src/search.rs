//! The search pass: selecting the lines that contain the query.

use vstd::prelude::*;
use crate::lines::{lemma_lines_ascii, spec_lines, split_lines};
use crate::matching::{
    ascii_lower, contains_substring, has_substring, lemma_fold_keeps_substring, lower_of,
    lowercase, match_at,
};
use vstd::utf8::is_ascii_chars;

verus! {

/// One line matches the query: literally in case-sensitive mode, after
/// lowercase folding of both sides otherwise.
pub open spec fn line_matches(query: Seq<char>, line: Seq<char>, case_sensitive: bool) -> bool {
    if case_sensitive {
        has_substring(line, query)
    } else {
        has_substring(lower_of(line), lower_of(query))
    }
}

/// The lines among `ls` that match the query, kept in their original order.
pub open spec fn matching_lines(
    query: Seq<char>,
    ls: Seq<Seq<char>>,
    case_sensitive: bool,
) -> Seq<Seq<char>>
    decreases ls.len(),
{
    if ls.len() == 0 {
        Seq::empty()
    } else {
        let rest = matching_lines(query, ls.drop_last(), case_sensitive);
        if line_matches(query, ls.last(), case_sensitive) {
            rest.push(ls.last())
        } else {
            rest
        }
    }
}

/// What `search` returns: the lines of the contents that contain the query,
/// in their original order.
pub open spec fn spec_search(
    query: Seq<char>,
    contents: Seq<char>,
    case_sensitive: bool,
) -> Seq<Seq<char>> {
    matching_lines(query, spec_lines(contents), case_sensitive)
}

/// The positions, in increasing order, of the lines among `ls` that match
/// the query.
pub open spec fn match_indices(
    query: Seq<char>,
    ls: Seq<Seq<char>>,
    case_sensitive: bool,
) -> Seq<int>
    decreases ls.len(),
{
    if ls.len() == 0 {
        Seq::empty()
    } else {
        let rest = match_indices(query, ls.drop_last(), case_sensitive);
        if line_matches(query, ls.last(), case_sensitive) {
            rest.push(ls.len() - 1)
        } else {
            rest
        }
    }
}

/// The selection is exact: entry `k` of the selection is the line at position
/// `idx[k]`, each such line matches the query, the positions grow strictly
/// (original order, no position taken twice), and every matching position is
/// taken.
proof fn lemma_matching_lines_exact(query: Seq<char>, ls: Seq<Seq<char>>, case_sensitive: bool)
    ensures
        ({
            let idx = match_indices(query, ls, case_sensitive);
            let r = matching_lines(query, ls, case_sensitive);
            &&& r.len() == idx.len()
            &&& forall|k: int| 0 <= k < idx.len() ==> 0 <= #[trigger] idx[k] < ls.len()
            &&& forall|k: int|
                0 <= k < idx.len() ==> line_matches(query, ls[#[trigger] idx[k]], case_sensitive)
            &&& forall|k: int| 0 <= k < idx.len() ==> r[k] == ls[#[trigger] idx[k]]
            &&& forall|k: int| 0 < k < idx.len() ==> idx[k - 1] < #[trigger] idx[k]
            &&& forall|i: int|
                0 <= i < ls.len() && line_matches(query, #[trigger] ls[i], case_sensitive)
                    ==> idx.contains(i)
        }),
    decreases ls.len(),
{
    if ls.len() > 0 {
        let prev = ls.drop_last();
        lemma_matching_lines_exact(query, prev, case_sensitive);
        let pidx = match_indices(query, prev, case_sensitive);
        let idx = match_indices(query, ls, case_sensitive);
        assert(forall|i: int| 0 <= i < prev.len() ==> prev[i] == #[trigger] ls[i]);
        assert forall|i: int|
            0 <= i < ls.len() && line_matches(query, #[trigger] ls[i], case_sensitive) implies idx.contains(
            i,
        ) by {
            if i < ls.len() - 1 {
                assert(prev[i] == ls[i]);
                assert(pidx.contains(i));
                let k = choose|k: int| 0 <= k < pidx.len() && pidx[k] == i;
                assert(idx[k] == i);
            } else {
                assert(line_matches(query, ls.last(), case_sensitive));
                assert(idx[idx.len() - 1] == i);
            }
        }
    }
}

/// Everything the search promises, stated of the result as a value: each
/// returned line is a line of the contents that matches the query, the
/// matching lines are all returned, each of their positions exactly once, and
/// the original order of the lines is kept. In case-sensitive mode a line
/// matches exactly when it contains the query as a literal substring.
pub proof fn lemma_search_exact(query: Seq<char>, contents: Seq<char>, case_sensitive: bool)
    ensures
        ({
            let ls = spec_lines(contents);
            let idx = match_indices(query, ls, case_sensitive);
            let r = spec_search(query, contents, case_sensitive);
            &&& r.len() == idx.len()
            &&& forall|k: int| 0 <= k < idx.len() ==> 0 <= #[trigger] idx[k] < ls.len()
            &&& forall|k: int|
                0 <= k < idx.len() ==> line_matches(query, ls[#[trigger] idx[k]], case_sensitive)
            &&& forall|k: int| 0 <= k < idx.len() ==> r[k] == ls[#[trigger] idx[k]]
            &&& forall|k: int| 0 < k < idx.len() ==> idx[k - 1] < #[trigger] idx[k]
            &&& forall|i: int|
                0 <= i < ls.len() && line_matches(query, #[trigger] ls[i], case_sensitive)
                    ==> idx.contains(i)
        }),
{
    lemma_matching_lines_exact(query, spec_lines(contents), case_sensitive);
}

/// Among lines whose lowercase fold works character by character, every line
/// selected case-sensitively is also selected case-insensitively, so the
/// case-insensitive selection has at least as many lines.
proof fn lemma_matching_superset(query: Seq<char>, ls: Seq<Seq<char>>)
    requires
        lower_of(query) == ascii_lower(query),
        forall|i: int| 0 <= i < ls.len() ==> lower_of(#[trigger] ls[i]) == ascii_lower(ls[i]),
    ensures
        matching_lines(query, ls, true).len() <= matching_lines(query, ls, false).len(),
    decreases ls.len(),
{
    if ls.len() > 0 {
        let prev = ls.drop_last();
        assert forall|i: int|
            0 <= i < prev.len() implies lower_of(#[trigger] prev[i]) == ascii_lower(prev[i]) by {
            assert(prev[i] == ls[i]);
        }
        lemma_matching_superset(query, prev);
        if line_matches(query, ls.last(), true) {
            assert(ls.last() == ls[ls.len() - 1]);
            lemma_fold_keeps_substring(ls.last(), query);
            assert(line_matches(query, ls.last(), false));
        }
    }
}

/// Case-insensitive search selects every line that case-sensitive search
/// selects, and so returns at least as many lines, whenever lowercase folding
/// acts character by character on the query and on every line of the
/// contents. On ASCII text it always does; in general Unicode it need not,
/// since the fold of one letter can depend on the letters around it.
pub proof fn lemma_insensitive_superset(query: Seq<char>, contents: Seq<char>)
    requires
        lower_of(query) == ascii_lower(query),
        forall|i: int|
            0 <= i < spec_lines(contents).len() ==> lower_of(#[trigger] spec_lines(contents)[i])
                == ascii_lower(spec_lines(contents)[i]),
    ensures
        spec_search(query, contents, true).len() <= spec_search(query, contents, false).len(),
{
    lemma_matching_superset(query, spec_lines(contents));
}

/// When every line matches the query, the search keeps every line unchanged.
proof fn lemma_all_match_identity(query: Seq<char>, ls: Seq<Seq<char>>, case_sensitive: bool)
    requires
        forall|i: int| 0 <= i < ls.len() ==> line_matches(query, #[trigger] ls[i], case_sensitive),
    ensures
        matching_lines(query, ls, case_sensitive) == ls,
    decreases ls.len(),
{
    if ls.len() > 0 {
        assert forall|i: int|
            0 <= i < ls.drop_last().len() implies line_matches(
            query,
            #[trigger] ls.drop_last()[i],
            case_sensitive,
        ) by {
            assert(ls.drop_last()[i] == ls[i]);
        }
        lemma_all_match_identity(query, ls.drop_last(), case_sensitive);
        assert(matching_lines(query, ls, case_sensitive) =~= ls);
    } else {
        assert(matching_lines(query, ls, case_sensitive) =~= ls);
    }
}

/// Returns the lines of `contents` that contain `query` as a literal
/// substring, in their original order, each line copied into an owned string.
/// In case-insensitive mode both the query and each line are lowercase-folded
/// before the comparison. An empty query matches every line, and empty
/// contents yield no lines.
pub fn search(query: &str, contents: &str, case_sensitive: bool) -> (found: Vec<String>)
    ensures
        found.deep_view() == spec_search(query@, contents@, case_sensitive),
        query@.len() == 0 ==> found.deep_view() == spec_lines(contents@),
        contents@.len() == 0 ==> found.len() == 0,
        !case_sensitive && is_ascii_chars(query@) && is_ascii_chars(contents@)
            ==> spec_search(query@, contents@, true).len() <= found.len(),
{
    let ls = split_lines(contents);
    let ghost lsd = ls.deep_view();
    let mut found: Vec<String> = Vec::new();
    proof {
        assert(matching_lines(query@, lsd.take(0), case_sensitive) =~= Seq::<Seq<char>>::empty());
        assert(found.deep_view() =~= Seq::<Seq<char>>::empty());
    }
    if case_sensitive {
        let mut k: usize = 0;
        while k < ls.len()
            invariant
                lsd == ls.deep_view(),
                k <= ls.len(),
                lsd.len() == ls@.len(),
                found.deep_view() == matching_lines(query@, lsd.take(k as int), true),
            decreases ls.len() - k,
        {
            let ghost prefix = lsd.take(k as int);
            proof {
                assert(lsd.take(k + 1).drop_last() =~= prefix);
                assert(lsd.take(k + 1).last() == lsd[k as int]);
                assert(lsd[k as int] == ls@[k as int]@);
            }
            let line = &ls[k];
            if contains_substring(line.as_str(), query) {
                let ghost old_found = found.deep_view();
                found.push(line.clone());
                proof {
                    assert(found.deep_view() =~= old_found.push(lsd[k as int]));
                }
            }
            k = k + 1;
        }
        proof {
            assert(lsd.take(lsd.len() as int) =~= lsd);
            if query@.len() == 0 {
                assert(query@ =~= Seq::<char>::empty());
                assert forall|i: int| 0 <= i < lsd.len() implies line_matches(
                    query@,
                    #[trigger] lsd[i],
                    true,
                ) by {
                    assert(match_at(lsd[i], query@, 0));
                }
                lemma_all_match_identity(query@, lsd, true);
            }
        }
    } else {
        let folded_query = lowercase(query);
        let mut k: usize = 0;
        while k < ls.len()
            invariant
                lsd == ls.deep_view(),
                k <= ls.len(),
                lsd.len() == ls@.len(),
                folded_query@ == lower_of(query@),
                is_ascii_chars(query@) ==> lower_of(query@) == ascii_lower(query@),
                forall|j: int|
                    0 <= j < k ==> (is_ascii_chars(#[trigger] lsd[j]) ==> lower_of(lsd[j])
                        == ascii_lower(lsd[j])),
                found.deep_view() == matching_lines(query@, lsd.take(k as int), false),
            decreases ls.len() - k,
        {
            let ghost prefix = lsd.take(k as int);
            proof {
                assert(lsd.take(k + 1).drop_last() =~= prefix);
                assert(lsd.take(k + 1).last() == lsd[k as int]);
                assert(lsd[k as int] == ls@[k as int]@);
            }
            let line = &ls[k];
            let folded_line = lowercase(line.as_str());
            if contains_substring(folded_line.as_str(), folded_query.as_str()) {
                let ghost old_found = found.deep_view();
                found.push(line.clone());
                proof {
                    assert(found.deep_view() =~= old_found.push(lsd[k as int]));
                }
            }
            k = k + 1;
        }
        proof {
            assert(lsd.take(lsd.len() as int) =~= lsd);
            if query@.len() == 0 {
                assert(lower_of(query@) =~= Seq::<char>::empty());
                assert forall|i: int| 0 <= i < lsd.len() implies line_matches(
                    query@,
                    #[trigger] lsd[i],
                    false,
                ) by {
                    assert(match_at(lower_of(lsd[i]), lower_of(query@), 0));
                }
                lemma_all_match_identity(query@, lsd, false);
            }
            if is_ascii_chars(query@) && is_ascii_chars(contents@) {
                lemma_lines_ascii(contents@);
                assert forall|i: int|
                    0 <= i < spec_lines(contents@).len() implies lower_of(
                    #[trigger] spec_lines(contents@)[i],
                ) == ascii_lower(spec_lines(contents@)[i]) by {
                    assert(spec_lines(contents@)[i] == lsd[i]);
                    assert(is_ascii_chars(lsd[i]));
                }
                lemma_insensitive_superset(query@, contents@);
            }
        }
    }
    found
}

} // verus!
