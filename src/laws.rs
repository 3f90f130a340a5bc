//! Facts about what `search` returns, stated over its model.
use vstd::prelude::*;
use vstd::utf8::{decode_utf8, encode_utf8};

use crate::search::{kept, line_matches, lower_of, matching_lines};
use crate::text::{contains_bytes, lines_of};

verus! {

broadcast use vstd::seq_lib::group_seq_properties;

/// `sub` is `full` with some items left out: `idx` picks, in increasing
/// order, the place in `full` of each item of `sub`.
pub open spec fn picks<A>(sub: Seq<A>, full: Seq<A>, idx: Seq<int>) -> bool {
    &&& idx.len() == sub.len()
    &&& forall|k: int| 0 <= k < idx.len() ==> 0 <= #[trigger] idx[k] < full.len()
    &&& forall|k: int| 0 <= k < idx.len() ==> sub[k] == full[#[trigger] idx[k]]
    &&& forall|k1: int, k2: int| 0 <= k1 < k2 < idx.len() ==> #[trigger] idx[k1] < #[trigger] idx[k2]
}

/// `sub` can be had from `full` by leaving items out, without reordering.
pub open spec fn is_subsequence<A>(sub: Seq<A>, full: Seq<A>) -> bool {
    exists|idx: Seq<int>| picks(sub, full, idx)
}

/// The places in `s` of the items that a filter keeps.
proof fn filter_places<A>(s: Seq<A>, pred: spec_fn(A) -> bool) -> (idx: Seq<int>)
    ensures
        picks(s.filter(pred), s, idx),
    decreases s.len(),
{
    reveal(Seq::filter);
    if s.len() == 0 {
        Seq::empty()
    } else {
        let prev = filter_places(s.drop_last(), pred);
        let sub = s.drop_last().filter(pred);
        if pred(s.last()) {
            let idx = prev.push(s.len() - 1);
            assert forall|k: int| 0 <= k < idx.len() implies s.filter(pred)[k] == s[#[trigger] idx[k]] by {
                if k < prev.len() {
                    assert(idx[k] == prev[k]);
                    assert(sub[k] == s.drop_last()[prev[k]]);
                }
            }
            idx
        } else {
            assert forall|k: int| 0 <= k < prev.len() implies s.filter(pred)[k] == s[#[trigger] prev[k]] by {
                assert(sub[k] == s.drop_last()[prev[k]]);
            }
            prev
        }
    }
}

/// What `search` returns is the lines of the text with some left out, in
/// the text's order: no line is moved or made up.
pub proof fn lemma_search_subsequence_of_lines(query: Seq<char>, contents: Seq<u8>, case_sensitive: bool)
    ensures
        is_subsequence(matching_lines(query, contents, case_sensitive), lines_of(contents)),
{
    let idx = filter_places(
        lines_of(contents),
        |line: Seq<u8>| line_matches(query, line, case_sensitive),
    );
    assert(picks(matching_lines(query, contents, case_sensitive), lines_of(contents), idx));
}

/// A line of `lines` is among those kept exactly when it matches, and every
/// kept line matches.
proof fn lemma_kept_exactly(query: Seq<char>, lines: Seq<Seq<u8>>, case_sensitive: bool)
    ensures
        forall|k: int|
            0 <= k < kept(query, lines, case_sensitive).len() ==> line_matches(
                query,
                #[trigger] kept(query, lines, case_sensitive)[k],
                case_sensitive,
            ),
        forall|line: Seq<u8>|
            #[trigger] kept(query, lines, case_sensitive).contains(line) <==> lines.contains(line)
                && line_matches(query, line, case_sensitive),
{
    let pred = |line: Seq<u8>| line_matches(query, line, case_sensitive);
    let out = kept(query, lines, case_sensitive);
    assert forall|k: int| 0 <= k < out.len() implies line_matches(
        query,
        #[trigger] out[k],
        case_sensitive,
    ) by {
        lines.lemma_filter_pred(pred, k);
    }
    assert forall|line: Seq<u8>| #[trigger] out.contains(line) <==> lines.contains(line) && line_matches(
        query,
        line,
        case_sensitive,
    ) by {
        if out.contains(line) {
            lines.lemma_filter_contains_rev(pred, line);
            let k = choose|k: int| 0 <= k < out.len() && out[k] == line;
            lines.lemma_filter_pred(pred, k);
        }
        if lines.contains(line) && line_matches(query, line, case_sensitive) {
            let i = choose|i: int| 0 <= i < lines.len() && lines[i] == line;
            lines.lemma_filter_contains(pred, i);
        }
    }
}

/// Matching with case: the lines returned are exactly the lines of the text
/// that hold the query's bytes as they stand.
pub proof fn lemma_case_sensitive_selects(query: Seq<char>, contents: Seq<u8>)
    ensures
        forall|line: Seq<u8>|
            #[trigger] matching_lines(query, contents, true).contains(line) <==> lines_of(
                contents,
            ).contains(line) && contains_bytes(line, encode_utf8(query)),
{
    lemma_kept_exactly(query, lines_of(contents), true);
}

/// Matching without case: the lines returned are exactly the lines of the
/// text whose lowercase form holds the lowercase query.
pub proof fn lemma_case_insensitive_selects(query: Seq<char>, contents: Seq<u8>)
    ensures
        forall|line: Seq<u8>|
            #[trigger] matching_lines(query, contents, false).contains(line) <==> lines_of(
                contents,
            ).contains(line) && contains_bytes(
                encode_utf8(lower_of(decode_utf8(line))),
                encode_utf8(lower_of(query)),
            ),
{
    lemma_kept_exactly(query, lines_of(contents), false);
}

/// When no line matches the query, the result is empty.
pub proof fn lemma_no_match_empty(query: Seq<char>, contents: Seq<u8>, case_sensitive: bool)
    requires
        forall|i: int|
            0 <= i < lines_of(contents).len() ==> !line_matches(
                query,
                #[trigger] lines_of(contents)[i],
                case_sensitive,
            ),
    ensures
        matching_lines(query, contents, case_sensitive).len() == 0,
{
    let out = matching_lines(query, contents, case_sensitive);
    lemma_kept_exactly(query, lines_of(contents), case_sensitive);
    if out.len() > 0 {
        assert(out.contains(out[0]));
        let i = choose|i: int| 0 <= i < lines_of(contents).len() && lines_of(contents)[i] == out[0];
    }
}

} // verus!
