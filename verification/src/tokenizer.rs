use vstd::prelude::*;

use crate::errors::{FlowParseError, ParseErrorView};

verus! {

/// The character that separates the prefix and the field values of a line,
/// and may optionally terminate the line.
pub open spec fn delimiter() -> char {
    '|'
}

/// A line with a single trailing delimiter stripped; any other line is left
/// as it is.
pub open spec fn strip_trailing(l: Seq<char>) -> Seq<char> {
    if l.len() > 0 && l.last() == delimiter() {
        l.drop_last()
    } else {
        l
    }
}

/// Whether the line contains the delimiter anywhere.
pub open spec fn has_delimiter(l: Seq<char>) -> bool {
    exists|i: int| 0 <= i < l.len() && l[i] == delimiter()
}

/// The position of the first delimiter of the line; meaningful only when
/// `has_delimiter(l)`.
pub open spec fn first_delimiter(l: Seq<char>) -> int
    decreases l.len(),
{
    if l.len() == 0 {
        0
    } else if l[0] == delimiter() {
        0
    } else {
        1 + first_delimiter(l.subrange(1, l.len() as int))
    }
}

/// On a line that contains a delimiter, `first_delimiter` is in bounds,
/// points at a delimiter, and nothing before it is a delimiter.
pub proof fn lemma_first_delimiter(l: Seq<char>)
    requires
        has_delimiter(l),
    ensures
        0 <= first_delimiter(l) < l.len(),
        l[first_delimiter(l)] == delimiter(),
        forall|k: int| 0 <= k < first_delimiter(l) ==> l[k] != delimiter(),
    decreases l.len(),
{
    if l[0] == delimiter() {
    } else {
        let i = choose|i: int| 0 <= i < l.len() && l[i] == delimiter();
        let rest = l.subrange(1, l.len() as int);
        assert(rest[i - 1] == delimiter());
        lemma_first_delimiter(rest);
        assert forall|k: int| 0 <= k < first_delimiter(l) implies l[k] != delimiter() by {
            if k > 0 {
                assert(rest[k - 1] != delimiter());
            }
        }
    }
}

/// A delimiter at position `k` with none before it is the first delimiter.
pub proof fn lemma_first_delimiter_at(l: Seq<char>, k: int)
    requires
        0 <= k < l.len(),
        l[k] == delimiter(),
        forall|m: int| 0 <= m < k ==> l[m] != delimiter(),
    ensures
        has_delimiter(l),
        first_delimiter(l) == k,
    decreases l.len(),
{
    if k == 0 {
    } else {
        let rest = l.subrange(1, l.len() as int);
        assert(rest[k - 1] == delimiter());
        assert forall|m: int| 0 <= m < k - 1 implies rest[m] != delimiter() by {
            assert(l[m + 1] != delimiter());
        }
        lemma_first_delimiter_at(rest, k - 1);
    }
}

/// The field values of the remainder of a line: the segments between
/// consecutive delimiters, in order, empty segments preserved.
pub open spec fn split_fields(l: Seq<char>) -> Seq<Seq<char>>
    decreases l.len(),
    via split_fields_decreases
{
    if !has_delimiter(l) {
        seq![l]
    } else {
        seq![l.take(first_delimiter(l))] + split_fields(
            l.subrange(first_delimiter(l) + 1, l.len() as int),
        )
    }
}

#[via_fn]
proof fn split_fields_decreases(l: Seq<char>) {
    if has_delimiter(l) {
        lemma_first_delimiter(l);
    }
}

/// What a raw line tokenizes to: after stripping a single optional trailing
/// delimiter, the text before the first delimiter is the prefix and the
/// remainder is split into field values. A line with no delimiter at all has
/// no separable prefix/contents structure and tokenizes to nothing.
pub open spec fn tokenize(l: Seq<char>) -> Option<(Seq<char>, Seq<Seq<char>>)> {
    let t = strip_trailing(l);
    if has_delimiter(t) {
        Some(
            (
                t.take(first_delimiter(t)),
                split_fields(t.subrange(first_delimiter(t) + 1, t.len() as int)),
            ),
        )
    } else {
        None
    }
}

/// Splits one raw line into its prefix and its field values, exactly as
/// `tokenize` describes; a line without a delimiter is rejected as malformed.
pub fn separate_prefix(line: &str) -> (r: Result<(String, Vec<String>), FlowParseError>)
    ensures
        (match r {
            Ok((p, c)) => tokenize(line@) == Some((p@, c.deep_view())),
            Err(e) => tokenize(line@) is None && e@ == ParseErrorView::MalformedLine(line@),
        }),
{
    let n = line.unicode_len();
    let end = if n > 0 && line.get_char(n - 1) == '|' {
        n - 1
    } else {
        n
    };
    let ghost t = strip_trailing(line@);
    proof {
        assert(t =~= line@.take(end as int));
    }

    let mut i: usize = 0;
    while i < end && line.get_char(i) != '|'
        invariant
            0 <= i <= end <= n,
            n == line@.len(),
            t == line@.take(end as int),
            forall|k: int| 0 <= k < i ==> t[k] != delimiter(),
        decreases end - i,
    {
        i = i + 1;
    }

    if i == end {
        assert(!has_delimiter(t));
        return Err(FlowParseError::MalformedLine(line.to_owned()));
    }

    let first = i;
    proof {
        assert(t[first as int] == delimiter());
        lemma_first_delimiter_at(t, first as int);
    }
    let prefix = line.substring_char(0, first).to_owned();
    proof {
        assert(prefix@ =~= t.take(first as int));
    }

    let ghost remainder = t.subrange(first as int + 1, t.len() as int);
    let mut fields: Vec<String> = Vec::new();
    let mut start = first + 1;
    let mut j = first + 1;
    while j < end
        invariant
            first + 1 <= start <= j <= end <= n,
            n == line@.len(),
            t == line@.take(end as int),
            remainder == t.subrange(first as int + 1, t.len() as int),
            first < end,
            forall|k: int| start <= k < j ==> t[k] != delimiter(),
            split_fields(remainder) == fields.deep_view() + split_fields(
                t.subrange(start as int, end as int),
            ),
        decreases end - j,
    {
        if line.get_char(j) == '|' {
            let seg = line.substring_char(start, j).to_owned();
            let ghost pre = fields.deep_view();
            let ghost tail = t.subrange(start as int, end as int);
            fields.push(seg);
            proof {
                assert(fields.deep_view() =~= pre.push(seg@));
                assert(tail[j - start] == delimiter());
                lemma_first_delimiter_at(tail, j - start);
                assert(tail.take(j - start) =~= seg@);
                assert(tail.subrange(j - start + 1, tail.len() as int) =~= t.subrange(
                    j as int + 1,
                    end as int,
                ));
                assert(split_fields(remainder) =~= fields.deep_view() + split_fields(
                    t.subrange(j as int + 1, end as int),
                ));
            }
            start = j + 1;
        }
        j = j + 1;
    }

    let seg = line.substring_char(start, end).to_owned();
    let ghost pre = fields.deep_view();
    let ghost tail = t.subrange(start as int, end as int);
    fields.push(seg);
    proof {
        assert(fields.deep_view() =~= pre.push(seg@));
        assert(!has_delimiter(tail));
        assert(tail =~= seg@);
        assert(split_fields(remainder) =~= fields.deep_view());
    }
    Ok((prefix, fields))
}

} // verus!
