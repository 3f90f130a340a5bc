//! Keeping the lines of a text that contain a query.
use vstd::prelude::*;
use vstd::string::StringSliceAdditionalSpecFns;
use vstd::utf8::*;

use crate::text::{contains_bytes, contains_str, first_line_len, lines_of, strip_cr, CR, LF};

verus! {

/// The lowercase form of a text, with full Unicode case folding to lower
/// case, as `str::to_lowercase` gives it.
pub uninterp spec fn lower_of(s: Seq<char>) -> Seq<char>;

/// Relies on `str::to_lowercase`: the lowercase form of `s`, which depends on
/// the characters of `s` alone.
#[verifier::external_body]
fn lowercase(s: &str) -> (r: String)
    ensures
        r@ == lower_of(s@),
{
    s.to_lowercase()
}

/// Whether `line` (as UTF-8 bytes) is kept for `query`: it holds the query as
/// it stands, or, ignoring case, the lowercase line holds the lowercase query.
pub open spec fn line_matches(query: Seq<char>, line: Seq<u8>, case_sensitive: bool) -> bool {
    if case_sensitive {
        contains_bytes(line, encode_utf8(query))
    } else {
        contains_bytes(encode_utf8(lower_of(decode_utf8(line))), encode_utf8(lower_of(query)))
    }
}

/// The lines among `lines` that match `query`, in their order.
pub open spec fn kept(query: Seq<char>, lines: Seq<Seq<u8>>, case_sensitive: bool) -> Seq<Seq<u8>> {
    lines.filter(|line: Seq<u8>| line_matches(query, line, case_sensitive))
}

/// The lines of the text `contents` (as UTF-8 bytes) that match `query`.
pub open spec fn matching_lines(query: Seq<char>, contents: Seq<u8>, case_sensitive: bool) -> Seq<
    Seq<u8>,
> {
    kept(query, lines_of(contents), case_sensitive)
}

/// Appending a line to the input appends it to the output exactly when it
/// matches.
proof fn lemma_kept_push(query: Seq<char>, lines: Seq<Seq<u8>>, line: Seq<u8>, case_sensitive: bool)
    ensures
        kept(query, lines.push(line), case_sensitive) == if line_matches(query, line, case_sensitive) {
            kept(query, lines, case_sensitive).push(line)
        } else {
            kept(query, lines, case_sensitive)
        },
{
    reveal(Seq::filter);
    assert(lines.push(line).drop_last() =~= lines);
}

/// A scan that stops at the first line feed, or at the end, measures the
/// first line.
proof fn lemma_first_line_len(b: Seq<u8>, j: int)
    requires
        0 <= j <= b.len(),
        j == b.len() || b[j] == LF,
        forall|k: int| 0 <= k < j ==> b[k] != LF,
    ensures
        first_line_len(b) == j,
    decreases j,
{
    if j > 0 {
        let t = b.drop_first();
        assert forall|k: int| 0 <= k < j - 1 implies t[k] != LF by {
            assert(t[k] == b[k + 1]);
        }
        lemma_first_line_len(t, j - 1);
    }
}

/// In UTF-8, the byte after a one-byte character at a boundary starts the
/// next character.
proof fn lemma_boundary_after_ascii(bytes: Seq<u8>, i: int)
    requires
        valid_utf8(bytes),
        0 <= i < bytes.len(),
        is_char_boundary(bytes, i),
        bytes[i] < 0x80,
    ensures
        is_char_boundary(bytes, i + 1),
    decreases bytes.len(),
{
    let l = length_of_first_scalar(bytes);
    let tail = pop_first_scalar(bytes);
    if i == 0 {
        assert(l == 1);
        assert(is_char_boundary(tail, 0));
    } else {
        assert(is_char_boundary(tail, i - l));
        assert(tail[i - l] == bytes[i]);
        lemma_boundary_after_ascii(tail, i - l);
    }
}

/// The lines of `contents` that contain `query`, in their order, each a
/// slice of `contents` without its line ending. Lines are split at `\n`, and a
/// `\r` right before it is dropped. With `case_sensitive` false, a line is
/// kept when its lowercase form contains the lowercase query.
pub fn search<'a>(query: &str, contents: &'a str, case_sensitive: bool) -> (r: Vec<&'a str>)
    ensures
        r@.len() == matching_lines(query@, contents.spec_bytes(), case_sensitive).len(),
        forall|k: int|
            0 <= k < r@.len() ==> #[trigger] r@[k].spec_bytes() == matching_lines(
                query@,
                contents.spec_bytes(),
                case_sensitive,
            )[k],
{
    let folded: String = if case_sensitive {
        String::new()
    } else {
        lowercase(query)
    };
    let needle: &str = if case_sensitive {
        query
    } else {
        folded.as_str()
    };
    let mut results: Vec<&'a str> = Vec::new();
    let mut rest: &'a str = contents;
    let ghost mut done: Seq<Seq<u8>> = seq![];
    while !rest.is_empty()
        invariant
            lines_of(contents.spec_bytes()) == done + lines_of(rest.spec_bytes()),
            results@.len() == kept(query@, done, case_sensitive).len(),
            forall|k: int|
                0 <= k < results@.len() ==> #[trigger] results@[k].spec_bytes() == kept(
                    query@,
                    done,
                    case_sensitive,
                )[k],
            case_sensitive ==> needle@ == query@,
            !case_sensitive ==> needle@ == lower_of(query@),
        decreases rest.spec_bytes().len(),
    {
        let bytes = rest.as_bytes();
        let n = bytes.len();
        let mut j: usize = 0;
        while j < n && bytes[j] != LF
            invariant
                n == bytes@.len(),
                j <= n,
                forall|k: int| 0 <= k < j ==> bytes@[k] != LF,
            decreases n - j,
        {
            j = j + 1;
        }
        proof {
            lemma_first_line_len(bytes@, j as int);
            encode_utf8_valid_utf8(rest@);
            is_char_boundary_start_end_of_seq(bytes@);
            if j < n {
                is_char_boundary_iff_is_leading_byte(bytes@, j as int);
            }
        }
        let (full, _) = rest.split_at(j);
        let line: &'a str = if j < n && j > 0 && bytes[j - 1] == CR {
            proof {
                encode_utf8_valid_utf8(full@);
                is_char_boundary_iff_is_leading_byte(full.spec_bytes(), j - 1);
            }
            let (trimmed, _) = full.split_at(j - 1);
            trimmed
        } else {
            full
        };
        let ghost line_bytes = line.spec_bytes();
        proof {
            let b = bytes@;
            if j < n {
                assert(line_bytes =~= strip_cr(b.take(j as int)));
                assert(lines_of(b) == seq![line_bytes] + lines_of(b.skip(j + 1)));
            } else {
                assert(line_bytes =~= b);
                assert(lines_of(b) == seq![line_bytes]);
            }
            encode_utf8_decode_utf8(line@);
        }
        let keep = if case_sensitive {
            contains_str(line, needle)
        } else {
            let folded_line = lowercase(line);
            contains_str(folded_line.as_str(), needle)
        };
        if keep {
            results.push(line);
        }
        proof {
            lemma_kept_push(query@, done, line_bytes, case_sensitive);
            done = done.push(line_bytes);
        }
        if j < n {
            proof {
                lemma_boundary_after_ascii(bytes@, j as int);
            }
            let (_, next) = rest.split_at(j + 1);
            proof {
                let b = bytes@;
                assert(next.spec_bytes() =~= b.skip(j + 1));
                assert(lines_of(contents.spec_bytes()) =~= done + lines_of(next.spec_bytes()));
            }
            rest = next;
        } else {
            let (_, next) = rest.split_at(n);
            proof {
                assert(lines_of(next.spec_bytes()) == Seq::<Seq<u8>>::empty());
                assert(lines_of(contents.spec_bytes()) =~= done + lines_of(next.spec_bytes()));
            }
            rest = next;
        }
    }
    proof {
        assert(lines_of(rest.spec_bytes()) =~= Seq::<Seq<u8>>::empty());
        assert(lines_of(contents.spec_bytes()) =~= done);
    }
    results
}

} // verus!
