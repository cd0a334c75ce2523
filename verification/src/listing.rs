//! Parsing an archiver's technical listing.
//!
//! The listing command prints one `Path = <value>` line per archive entry,
//! root and nested alike, as UTF-8 text. An entry is a root entry when its
//! value holds no path separator. This module splits the captured output
//! into lines, counts the root entries, and classifies the count.

use vstd::prelude::*;
use vstd::seq_lib::*;

verus! {

/// The marker that begins each entry line of the listing: the bytes of
/// `Path = `.
pub open spec fn path_marker() -> Seq<u8> {
    seq![80u8, 97u8, 116u8, 104u8, 32u8, 61u8, 32u8]
}

/// A line reports an entry when it begins with the `Path = ` marker.
pub open spec fn is_entry_line(line: Seq<u8>) -> bool {
    path_marker().is_prefix_of(line)
}

/// The entry's value: the line with the marker stripped.
pub open spec fn entry_value(line: Seq<u8>) -> Seq<u8> {
    line.skip(path_marker().len() as int)
}

/// Whether a byte is a path separator: `/` or `\`.
pub open spec fn is_separator(b: u8) -> bool {
    b == 47u8 || b == 92u8
}

/// Whether any byte of `s` is a path separator.
pub open spec fn has_separator(s: Seq<u8>) -> bool {
    exists|i: int| 0 <= i < s.len() && is_separator(s[i])
}

/// A line reporting an entry that sits directly at the archive's top
/// level: its value holds no path separator.
pub open spec fn is_root_line(line: Seq<u8>) -> bool {
    is_entry_line(line) && !has_separator(entry_value(line))
}

/// Index of the first line feed in `s`, or `s.len()` when there is none.
pub open spec fn line_break(s: Seq<u8>) -> nat
    decreases s.len(),
{
    if s.len() == 0 {
        0
    } else if s[0] == 10u8 {
        0
    } else {
        1 + line_break(s.skip(1))
    }
}

/// A line as `str::lines` yields it: a trailing carriage return is dropped.
pub open spec fn strip_cr(line: Seq<u8>) -> Seq<u8> {
    if line.len() > 0 && line.last() == 13u8 {
        line.drop_last()
    } else {
        line
    }
}

/// The first line of `s`: everything before the first line feed, with a
/// trailing carriage return dropped.
pub open spec fn first_line(s: Seq<u8>) -> Seq<u8> {
    strip_cr(s.take(line_break(s) as int))
}

/// What remains of `s` after its first line and that line's line feed.
pub open spec fn rest_lines(s: Seq<u8>) -> Seq<u8> {
    if line_break(s) < s.len() {
        s.skip(line_break(s) as int + 1)
    } else {
        Seq::empty()
    }
}

/// The lines of the captured output, as `str::lines` splits them: at each
/// line feed, with a trailing carriage return dropped from every line and
/// no empty line after a trailing line feed.
pub open spec fn lines_of(s: Seq<u8>) -> Seq<Seq<u8>>
    decreases s.len(),
{
    if s.len() == 0 {
        Seq::empty()
    } else {
        seq![first_line(s)] + lines_of(rest_lines(s))
    }
}

/// How many lines of the captured output report a root entry.
pub open spec fn root_entry_count(s: Seq<u8>) -> nat
    decreases s.len(),
{
    if s.len() == 0 {
        0
    } else {
        (if is_root_line(first_line(s)) {
            1nat
        } else {
            0nat
        }) + root_entry_count(rest_lines(s))
    }
}

/// The lines of a listing that report root entries, in order.
pub open spec fn root_lines(lines: Seq<Seq<u8>>) -> Seq<Seq<u8>> {
    lines.filter(|line: Seq<u8>| is_root_line(line))
}

/// A position with no line feed before it, and one at it or the end of the
/// sequence, is where the first line breaks.
pub proof fn lemma_line_break_at(s: Seq<u8>, m: int)
    requires
        0 <= m <= s.len(),
        forall|i: int| 0 <= i < m ==> s[i] != 10u8,
        m < s.len() ==> s[m] == 10u8,
    ensures
        line_break(s) == m,
    decreases s.len(),
{
    if s.len() == 0 {
    } else if s[0] == 10u8 {
        assert(m == 0);
    } else {
        assert(m >= 1);
        assert forall|i: int| 0 <= i < m - 1 implies s.skip(1)[i] != 10u8 by {
            assert(s.skip(1)[i] == s[i + 1]);
        }
        if m - 1 < s.skip(1).len() {
            assert(s.skip(1)[m - 1] == s[m]);
        }
        lemma_line_break_at(s.skip(1), m - 1);
    }
}

/// The root lines among a single line: that line when it reports a root
/// entry, nothing otherwise.
proof fn lemma_root_lines_singleton(line: Seq<u8>)
    ensures
        root_lines(seq![line]) == if is_root_line(line) {
            seq![line]
        } else {
            Seq::<Seq<u8>>::empty()
        },
{
    reveal_with_fuel(Seq::filter, 2);
    assert(seq![line].drop_last() =~= Seq::<Seq<u8>>::empty());
    assert(seq![line].last() == line);
    if is_root_line(line) {
        assert(Seq::<Seq<u8>>::empty().push(line) =~= seq![line]);
    }
}

/// Counting root entries over the raw bytes agrees with filtering the
/// root lines out of the split lines.
pub proof fn lemma_root_count_is_root_lines(s: Seq<u8>)
    ensures
        root_entry_count(s) == root_lines(lines_of(s)).len(),
    decreases s.len(),
{
    if s.len() == 0 {
        reveal_with_fuel(Seq::filter, 1);
        assert(lines_of(s) == Seq::<Seq<u8>>::empty());
    } else {
        lemma_root_count_is_root_lines(rest_lines(s));
        Seq::filter_distributes_over_add(
            seq![first_line(s)],
            lines_of(rest_lines(s)),
            |line: Seq<u8>| is_root_line(line),
        );
        lemma_root_lines_singleton(first_line(s));
    }
}

/// A line whose value holds a path separator never counts toward the root
/// cardinality: dropping it from the listing's lines leaves the root
/// lines, and with them the classification, unchanged.
pub proof fn lemma_separator_line_not_counted(
    before: Seq<Seq<u8>>,
    line: Seq<u8>,
    after: Seq<Seq<u8>>,
)
    requires
        has_separator(entry_value(line)),
    ensures
        root_lines(before + seq![line] + after) == root_lines(before + after),
{
    let pred = |l: Seq<u8>| is_root_line(l);
    Seq::filter_distributes_over_add(before + seq![line], after, pred);
    Seq::filter_distributes_over_add(before, seq![line], pred);
    Seq::filter_distributes_over_add(before, after, pred);
    lemma_root_lines_singleton(line);
    assert(before.filter(pred) + Seq::<Seq<u8>>::empty() =~= before.filter(pred));
}

/// The marker byte at position `t` of `Path = `.
fn marker_byte_at(t: usize) -> (b: u8)
    requires
        t < path_marker().len(),
    ensures
        b == path_marker()[t as int],
{
    if t == 0 {
        80
    } else if t == 1 {
        97
    } else if t == 2 {
        116
    } else if t == 3 {
        104
    } else if t == 4 {
        32
    } else if t == 5 {
        61
    } else {
        32
    }
}

/// Decide whether the bytes `output[start..end]` form a root entry line.
fn is_root_line_at(output: &[u8], start: usize, end: usize) -> (r: bool)
    requires
        start <= end <= output@.len(),
    ensures
        r == is_root_line(output@.subrange(start as int, end as int)),
{
    let ghost line = output@.subrange(start as int, end as int);
    if end - start < 7 {
        assert(!is_entry_line(line));
        return false;
    }
    let mut m: usize = 0;
    while m < 7
        invariant
            m <= 7,
            start + 7 <= end <= output@.len(),
            line == output@.subrange(start as int, end as int),
            forall|t: int| 0 <= t < m ==> line[t] == path_marker()[t],
        decreases 7 - m,
    {
        if output[start + m] != marker_byte_at(m) {
            proof {
                assert(line[m as int] == output@[start + m as int]);
                assert(!is_entry_line(line));
            }
            return false;
        }
        assert(line[m as int] == output@[start + m as int]);
        m += 1;
    }
    proof {
        assert(path_marker() =~= line.subrange(0, 7));
        assert(is_entry_line(line));
    }
    let mut k: usize = start + 7;
    let mut found: bool = false;
    while k < end
        invariant
            start + 7 <= k <= end <= output@.len(),
            line == output@.subrange(start as int, end as int),
            found == exists|t: int| start + 7 <= t < k && is_separator(output@[t]),
        decreases end - k,
    {
        if output[k] == 47 || output[k] == 92 {
            found = true;
        }
        k += 1;
    }
    proof {
        let value = entry_value(line);
        assert(value =~= output@.subrange(start + 7, end as int));
        if found {
            let t = choose|t: int| start + 7 <= t < end && is_separator(output@[t]);
            assert(value[t - (start + 7)] == output@[t]);
            assert(has_separator(value));
        } else if has_separator(value) {
            let i = choose|i: int| 0 <= i < value.len() && is_separator(value[i]);
            assert(value[i] == output@[start + 7 + i]);
        }
    }
    !found
}

/// Count the lines of the captured listing output that report a root
/// entry: lines beginning with `Path = ` whose value holds no `/` or `\`.
pub fn count_root_entries(output: &[u8]) -> (count: usize)
    ensures
        count == root_entry_count(output@),
{
    let len = output.len();
    let mut count: usize = 0;
    let mut i: usize = 0;
    proof {
        assert(output@.skip(0) =~= output@);
    }
    while i < len
        invariant
            i <= len,
            len == output@.len(),
            count <= i,
            root_entry_count(output@) == count + root_entry_count(output@.skip(i as int)),
        decreases len - i,
    {
        let ghost tail = output@.skip(i as int);
        let mut j: usize = i;
        while j < len && output[j] != 10
            invariant
                i <= j <= len,
                len == output@.len(),
                forall|k: int| i <= k < j ==> output@[k] != 10u8,
            decreases len - j,
        {
            j += 1;
        }
        proof {
            assert forall|k: int| 0 <= k < j - i implies tail[k] != 10u8 by {
                assert(tail[k] == output@[i + k]);
            }
            if j < len {
                assert(tail[j - i] == output@[j as int]);
            }
            lemma_line_break_at(tail, j - i);
        }
        let line_end: usize = if j > i && output[j - 1] == 13 {
            j - 1
        } else {
            j
        };
        proof {
            assert(tail.take(j - i) =~= output@.subrange(i as int, j as int));
            if j > i && output@[j - 1] == 13u8 {
                assert(tail.take(j - i).drop_last() =~= output@.subrange(
                    i as int,
                    line_end as int,
                ));
            }
            assert(first_line(tail) == output@.subrange(i as int, line_end as int));
        }
        let is_root = is_root_line_at(output, i, line_end);
        if is_root {
            count += 1;
        }
        let next_i: usize = if j < len {
            j + 1
        } else {
            len
        };
        proof {
            if j < len {
                assert(tail.skip(j - i + 1) =~= output@.skip(next_i as int));
            } else {
                assert(output@.skip(next_i as int) =~= Seq::<u8>::empty());
            }
            assert(rest_lines(tail) == output@.skip(next_i as int));
        }
        i = next_i;
    }
    proof {
        assert(output@.skip(len as int) =~= Seq::<u8>::empty());
        assert(root_entry_count(Seq::<u8>::empty()) == 0);
    }
    count
}

/// Classify a captured listing output: count the root entries it reports
/// and place the archive in one of the three cardinality categories.
pub fn probe_listing(output: &[u8]) -> (root: crate::policy::Root)
    ensures
        root == crate::policy::classify(root_entry_count(output@)),
{
    let n = count_root_entries(output);
    if n == 0 {
        crate::policy::Root::Zero
    } else if n == 1 {
        crate::policy::Root::Single
    } else {
        crate::policy::Root::Multiple
    }
}

} // verus!
