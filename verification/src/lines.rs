//! Splitting a file buffer into lines and selecting the header lines.

use vstd::prelude::*;
use vstd::utf8::{decode_utf8, valid_utf8};

use crate::text::{ascii_lower, ascii_lower_suffix_eq, chars_of};

verus! {

/// A carriage return or a line feed.
pub open spec fn is_line_break(b: u8) -> bool {
    b == 13 || b == 10
}

/// The state of the line splitter after it has looked at the first `n` bytes of `buf`:
/// the `(start, end)` ranges of the lines found so far, and the start of the line being
/// read, `None` while it is between lines.  The splitter starts inside a line at 0.
pub open spec fn split_state(buf: Seq<u8>, n: nat) -> (Seq<(int, int)>, Option<int>)
    decreases n,
{
    if n == 0 {
        (Seq::empty(), Some(0))
    } else {
        let prev = split_state(buf, (n - 1) as nat);
        let i = n - 1;
        if is_line_break(buf[i]) {
            match prev.1 {
                Some(s) => (prev.0.push((s, i)), None),
                None => (prev.0, None),
            }
        } else {
            match prev.1 {
                Some(s) => (prev.0, Some(s)),
                None => (prev.0, Some(i)),
            }
        }
    }
}

/// The ranges of the lines of `buf`: each run of bytes ended by a line break, where
/// runs of several line breaks end only one line (the first line may be empty when the
/// buffer starts with a break), and a last run with no line break after it is dropped.
pub open spec fn line_ranges(buf: Seq<u8>) -> Seq<(int, int)> {
    split_state(buf, buf.len()).0
}

/// The lines of `buf`, as byte sequences.
pub open spec fn buffer_lines(buf: Seq<u8>) -> Seq<Seq<u8>> {
    line_ranges(buf).map_values(|r: (int, int)| buf.subrange(r.0, r.1))
}

/// What the splitter keeps true: ranges are in bounds, in order, free of line breaks,
/// and each one is followed by a line break; an open line holds no line break.
pub open spec fn split_state_wf(buf: Seq<u8>, n: nat) -> bool {
    let st = split_state(buf, n);
    &&& forall|k: int|
        0 <= k < st.0.len() ==> {
            &&& 0 <= (#[trigger] st.0[k]).0 <= st.0[k].1 < n
            &&& is_line_break(buf[st.0[k].1])
            &&& forall|j: int| st.0[k].0 <= j < st.0[k].1 ==> !is_line_break(buf[j])
        }
    &&& forall|k: int, l: int| 0 <= k < l < st.0.len() ==> st.0[k].1 < st.0[l].0
    &&& match st.1 {
        Some(s) => {
            &&& 0 <= s <= n
            &&& forall|j: int| s <= j < n ==> !is_line_break(buf[j])
            &&& forall|k: int| 0 <= k < st.0.len() ==> st.0[k].1 < s
        },
        None => n > 0 && is_line_break(buf[n - 1]),
    }
}

proof fn lemma_split_state_wf(buf: Seq<u8>, n: nat)
    requires
        n <= buf.len(),
    ensures
        split_state_wf(buf, n),
    decreases n,
{
    if n > 0 {
        lemma_split_state_wf(buf, (n - 1) as nat);
    }
}

/// Every line of a buffer lies inside it, holds no carriage return or line feed, is
/// followed by one, and the lines come in the order in which they stand in the buffer.
pub proof fn lemma_lines_are_break_free(buf: Seq<u8>)
    ensures
        forall|k: int|
            0 <= k < line_ranges(buf).len() ==> {
                let r = #[trigger] line_ranges(buf)[k];
                &&& 0 <= r.0 <= r.1 < buf.len()
                &&& is_line_break(buf[r.1])
                &&& forall|j: int| r.0 <= j < r.1 ==> !is_line_break(buf[j])
            },
        forall|k: int, l: int|
            0 <= k < l < line_ranges(buf).len() ==> line_ranges(buf)[k].1 < line_ranges(buf)[l].0,
{
    lemma_split_state_wf(buf, buf.len());
}

/// Whether `s..e` is a line of `buf` in its own right: a non-empty run of bytes with no
/// line break in it, that starts the buffer or follows a line break, and that a line
/// break follows.
pub open spec fn is_line_run(buf: Seq<u8>, s: int, e: int) -> bool {
    &&& 0 <= s < e < buf.len()
    &&& is_line_break(buf[e])
    &&& s == 0 || is_line_break(buf[s - 1])
    &&& forall|j: int| s <= j < e ==> !is_line_break(buf[j])
}

/// What the splitter keeps true beyond `split_state_wf`: every range found is a line run
/// or the empty first line of a buffer that starts with a break, every line run that
/// ends before `n` has been found, and an open line starts a run.
pub open spec fn split_state_complete(buf: Seq<u8>, n: nat) -> bool {
    let st = split_state(buf, n);
    &&& forall|k: int|
        0 <= k < st.0.len() ==> (k == 0 && #[trigger] st.0[k] == (0int, 0int) && is_line_break(buf[0]))
            || is_line_run(buf, st.0[k].0, st.0[k].1)
    &&& forall|s: int, e: int|
        e < n && #[trigger] is_line_run(buf, s, e) ==> exists|k: int| 0 <= k < st.0.len() && st.0[k] == (s, e)
    &&& (n > 0 && is_line_break(buf[0])) ==> st.0.len() > 0 && st.0[0] == (0int, 0int)
    &&& st.1 matches Some(s) ==> (s == 0 || is_line_break(buf[s - 1])) && (s == n ==> n == 0)
}

proof fn lemma_split_state_complete(buf: Seq<u8>, n: nat)
    requires
        n <= buf.len(),
    ensures
        split_state_complete(buf, n),
    decreases n,
{
    if n > 0 {
        let m = (n - 1) as nat;
        lemma_split_state_complete(buf, m);
        lemma_split_state_wf(buf, m);
        let prev = split_state(buf, m);
        let st = split_state(buf, n);
        let i = n - 1;
        assert forall|s: int, e: int| e < n && #[trigger] is_line_run(buf, s, e) implies exists|k: int|
            0 <= k < st.0.len() && st.0[k] == (s, e) by {
            if e < m {
                let k = choose|k: int| 0 <= k < prev.0.len() && prev.0[k] == (s, e);
                assert(st.0[k] == prev.0[k]);
            } else {
                assert(e == i);
                match prev.1 {
                    None => {
                        assert(!is_line_break(buf[i - 1]));
                    },
                    Some(o) => {
                        if o < s {
                            assert(!is_line_break(buf[s - 1]));
                        } else if o > s {
                            assert(!is_line_break(buf[o - 1]));
                        }
                        assert(st.0[prev.0.len() as int] == (s, e));
                    },
                }
            }
        }
        if is_line_break(buf[i]) {
            if let Some(o) = prev.1 {
                assert forall|k: int| 0 <= k < st.0.len() implies (k == 0 && #[trigger] st.0[k] == (
                    0int,
                    0int,
                ) && is_line_break(buf[0])) || is_line_run(buf, st.0[k].0, st.0[k].1) by {
                    if k < prev.0.len() {
                        assert(st.0[k] == prev.0[k]);
                    } else if o == i {
                        assert(m == 0);
                    }
                }
            }
        }
    }
}

/// The lines of a buffer in closed form: the first line is empty exactly when the
/// buffer starts with a line break; every other line is a line run, and every line run
/// is one of the lines, which come in the order in which they stand in the buffer.
pub proof fn law_lines_closed_form(buf: Seq<u8>)
    ensures
        forall|k: int|
            0 <= k < line_ranges(buf).len() ==> (k == 0 && #[trigger] line_ranges(buf)[k] == (
                0int,
                0int,
            ) && is_line_break(buf[0])) || is_line_run(
                buf,
                line_ranges(buf)[k].0,
                line_ranges(buf)[k].1,
            ),
        forall|s: int, e: int|
            #[trigger] is_line_run(buf, s, e) ==> exists|k: int|
                0 <= k < line_ranges(buf).len() && line_ranges(buf)[k] == (s, e),
        (buf.len() > 0 && is_line_break(buf[0])) ==> line_ranges(buf).len() > 0 && line_ranges(
            buf,
        )[0] == (0int, 0int),
        forall|k: int, l: int|
            0 <= k < l < line_ranges(buf).len() ==> line_ranges(buf)[k].1 < line_ranges(buf)[l].0,
{
    lemma_split_state_complete(buf, buf.len());
    lemma_lines_are_break_free(buf);
}

/// Splits `buffer` into lines at carriage returns and line feeds.
pub fn split_lines(buffer: &[u8]) -> (lines: Vec<&[u8]>)
    ensures
        lines@.len() == buffer_lines(buffer@).len(),
        forall|k: int| 0 <= k < lines@.len() ==> (#[trigger] lines@[k])@ == buffer_lines(buffer@)[k],
{
    let mut lines: Vec<&[u8]> = Vec::new();
    let mut start_offset: Option<usize> = Some(0);
    let len = buffer.len();
    let ghost buf = buffer@;
    for i in 0..len
        invariant
            len == buf.len(),
            buf == buffer@,
            split_state(buf, i as nat).1 == match start_offset {
                Some(s) => Some(s as int),
                None => None::<int>,
            },
            start_offset matches Some(s) ==> s <= i,
            lines@.len() == split_state(buf, i as nat).0.len(),
            forall|k: int|
                0 <= k < lines@.len() ==> (#[trigger] lines@[k])@ == buf.subrange(
                    split_state(buf, i as nat).0[k].0,
                    split_state(buf, i as nat).0[k].1,
                ),
    {
        if buffer[i] == 13u8 || buffer[i] == 10u8 {
            if let Some(off) = start_offset {
                lines.push(&buffer[off..i]);
                start_offset = None;
            }
        } else {
            if start_offset.is_none() {
                start_offset = Some(i);
            }
        }
    }
    lines
}

/// The byte that marks a header line: a backslash.
pub open spec fn header_line_prefix() -> u8 {
    92
}

/// The end-of-header marker, compared after ASCII lowercasing.
pub open spec fn header_end_marker() -> Seq<char> {
    seq!['*', 'f', 'i', 'l', 'e', ' ', 'l', 'i', 's', 't', ' ', 'e', 'n', 'd']
}

/// The text of a header line: the bytes after the leading backslash, when the line has
/// one and those bytes are valid UTF-8.
pub open spec fn header_line_text(line: Seq<u8>) -> Option<Seq<char>> {
    if line.len() > 0 && line[0] == header_line_prefix() && valid_utf8(line.drop_first()) {
        Some(decode_utf8(line.drop_first()))
    } else {
        None
    }
}

/// The header lines among `lines`: the texts of the backslash lines, in order, up to
/// (and not including) the first whose ASCII lowercase is `*file list end`.
pub open spec fn valid_header_lines(lines: Seq<Seq<u8>>) -> Seq<Seq<char>>
    decreases lines.len(),
{
    if lines.len() == 0 {
        Seq::empty()
    } else {
        match header_line_text(lines[0]) {
            None => valid_header_lines(lines.drop_first()),
            Some(t) => if ascii_lower(t) == header_end_marker() {
                Seq::empty()
            } else {
                seq![t] + valid_header_lines(lines.drop_first())
            },
        }
    }
}

/// `std::str::from_utf8`: the text that `bytes` encode when they are valid UTF-8, and
/// nothing otherwise, as its documentation states.
#[verifier::external_body]
fn decode_utf8_text(bytes: &[u8]) -> (r: Option<&str>)
    ensures
        r is Some <==> valid_utf8(bytes@),
        r matches Some(s) ==> s@ == decode_utf8(bytes@),
{
    std::str::from_utf8(bytes).ok()
}

/// The end-of-header marker as a vector of characters.
fn end_marker_chars() -> (v: Vec<char>)
    ensures
        v@ == header_end_marker(),
{
    let v: Vec<char> = vec!['*', 'f', 'i', 'l', 'e', ' ', 'l', 'i', 's', 't', ' ', 'e', 'n', 'd'];
    assert(v@ =~= header_end_marker());
    v
}

/// Keeps the header lines of `lines`: those that start with a backslash and are valid
/// UTF-8 after it, with the backslash removed, up to the `*File list end` marker.
pub fn filter_valid_header_lines<'a>(lines: Vec<&'a [u8]>) -> (out: Vec<&'a str>)
    ensures
        out@.len() == valid_header_lines(lines@.map_values(|l: &[u8]| l@)).len(),
        forall|k: int|
            0 <= k < out@.len() ==> (#[trigger] out@[k])@ == valid_header_lines(
                lines@.map_values(|l: &[u8]| l@),
            )[k],
{
    let ghost all = lines@.map_values(|l: &[u8]| l@);
    let marker = end_marker_chars();
    let mut out: Vec<&'a str> = Vec::new();
    let n = lines.len();
    let mut i: usize = 0;
    assert(all.skip(0) =~= all);
    while i < n
        invariant
            n == lines@.len(),
            all == lines@.map_values(|l: &[u8]| l@),
            marker@ == header_end_marker(),
            i <= n,
            valid_header_lines(all) == out@.map_values(|s: &str| s@) + valid_header_lines(
                all.skip(i as int),
            ),
        decreases n - i,
    {
        let line = lines[i];
        assert(all.skip(i as int).drop_first() =~= all.skip(i + 1));
        assert(all.skip(i as int)[0] == line@);
        if line.len() > 0 && line[0] == 92u8 {
            let rest = &line[1..line.len()];
            assert(rest@ =~= line@.drop_first());
            if let Some(text) = decode_utf8_text(rest) {
                let chars = chars_of(text);
                if ascii_lower_suffix_eq(&chars, 0, &marker) {
                    assert(chars@.subrange(0, chars@.len() as int) =~= chars@);
                    assert(valid_header_lines(all.skip(i as int)) =~= Seq::empty());
                    assert(valid_header_lines(all) =~= out@.map_values(|s: &str| s@));
                    return out;
                }
                assert(chars@.subrange(0, chars@.len() as int) =~= chars@);
                let ghost before = out@.map_values(|s: &str| s@);
                out.push(text);
                assert(out@.map_values(|s: &str| s@) =~= before.push(text@));
            }
        }
        i = i + 1;
    }
    assert(all.skip(n as int) =~= Seq::<Seq<u8>>::empty());
    assert(valid_header_lines(all) =~= out@.map_values(|s: &str| s@));
    out
}

} // verus!

verus! {

/// The header lines never include the end marker, and each is the text of a
/// backslash line of the input.
pub proof fn law_header_lines_are_marked_lines(lines: Seq<Seq<u8>>)
    ensures
        forall|k: int|
            0 <= k < valid_header_lines(lines).len() ==> ascii_lower(
                #[trigger] valid_header_lines(lines)[k],
            ) != header_end_marker() && exists|j: int|
                0 <= j < lines.len() && header_line_text(lines[j]) == Some(valid_header_lines(lines)[k]),
    decreases lines.len(),
{
    if lines.len() > 0 {
        law_header_lines_are_marked_lines(lines.drop_first());
        let rest = valid_header_lines(lines.drop_first());
        let out = valid_header_lines(lines);
        assert forall|k: int| 0 <= k < out.len() implies ascii_lower(#[trigger] out[k]) != header_end_marker()
            && exists|j: int| 0 <= j < lines.len() && header_line_text(lines[j]) == Some(out[k]) by {
            match header_line_text(lines[0]) {
                None => {
                    let j = choose|j: int| 0 <= j < lines.drop_first().len() && header_line_text(
                        lines.drop_first()[j],
                    ) == Some(rest[k]);
                    assert(lines[j + 1] == lines.drop_first()[j]);
                },
                Some(t) => {
                    if ascii_lower(t) != header_end_marker() {
                        if k == 0 {
                            assert(out[0] == t);
                            assert(header_line_text(lines[0]) == Some(out[k]));
                        } else {
                            assert(out[k] == rest[k - 1]);
                            let j = choose|j: int| 0 <= j < lines.drop_first().len() && header_line_text(
                                lines.drop_first()[j],
                            ) == Some(rest[k - 1]);
                            assert(lines[j + 1] == lines.drop_first()[j]);
                        }
                    }
                },
            }
        }
    }
}

} // verus!

verus! {

/// Whether some line of `lines` is a backslash line whose text is the end marker.
pub open spec fn has_end_marker(lines: Seq<Seq<u8>>) -> bool {
    exists|j: int| 0 <= j < lines.len() && is_end_marker_line(#[trigger] lines[j])
}

/// Whether `line` is a backslash line whose text is the end marker.
pub open spec fn is_end_marker_line(line: Seq<u8>) -> bool {
    header_line_text(line) matches Some(t) && ascii_lower(t) == header_end_marker()
}

/// Reading more lines only adds header lines at the end: the header lines of `lines` are
/// a prefix of those of `lines + more`, and once `lines` holds the end marker, `more`
/// adds nothing.
pub proof fn law_header_lines_grow_at_end(lines: Seq<Seq<u8>>, more: Seq<Seq<u8>>)
    ensures
        valid_header_lines(lines).is_prefix_of(valid_header_lines(lines + more)),
        has_end_marker(lines) ==> valid_header_lines(lines + more) == valid_header_lines(lines),
    decreases lines.len(),
{
    let all = lines + more;
    if lines.len() == 0 {
        assert(all =~= more);
        assert(valid_header_lines(lines) =~= Seq::<Seq<char>>::empty());
    } else {
        assert(all.drop_first() =~= lines.drop_first() + more);
        assert(all[0] == lines[0]);
        law_header_lines_grow_at_end(lines.drop_first(), more);
        let a = valid_header_lines(lines);
        let b = valid_header_lines(all);
        match header_line_text(lines[0]) {
            None => {},
            Some(t) => {
                if ascii_lower(t) != header_end_marker() {
                    let ra = valid_header_lines(lines.drop_first());
                    let rb = valid_header_lines(lines.drop_first() + more);
                    assert(a =~= seq![t] + ra);
                    assert(b =~= seq![t] + rb);
                    assert(a =~= b.subrange(0, a.len() as int));
                }
            },
        }
        if has_end_marker(lines) {
            let j = choose|j: int| 0 <= j < lines.len() && is_end_marker_line(#[trigger] lines[j]);
            if j > 0 {
                assert(lines.drop_first()[j - 1] == lines[j]);
                assert(has_end_marker(lines.drop_first()));
            }
        }
    }
}

/// The texts of the backslash lines of `lines` that are valid UTF-8 after the
/// backslash, in order.
pub open spec fn backslash_texts(lines: Seq<Seq<u8>>) -> Seq<Seq<char>>
    decreases lines.len(),
{
    if lines.len() == 0 {
        Seq::empty()
    } else {
        match header_line_text(lines[0]) {
            None => backslash_texts(lines.drop_first()),
            Some(t) => seq![t] + backslash_texts(lines.drop_first()),
        }
    }
}

/// The header lines are the backslash texts cut before the first one that is the end
/// marker: there is a cut `t` such that they are the first `t` backslash texts, none of
/// which is the marker, and the text at `t`, if there is one, is the marker.
pub proof fn law_header_lines_closed_form(lines: Seq<Seq<u8>>)
    ensures
        exists|t: int|
            0 <= t <= backslash_texts(lines).len() && valid_header_lines(lines) == backslash_texts(
                lines,
            ).take(t) && (forall|i: int|
                0 <= i < t ==> ascii_lower(#[trigger] backslash_texts(lines)[i]) != header_end_marker())
                && (t < backslash_texts(lines).len() ==> ascii_lower(backslash_texts(lines)[t])
                == header_end_marker()),
    decreases lines.len(),
{
    let p = backslash_texts(lines);
    let v = valid_header_lines(lines);
    if lines.len() == 0 {
        assert(v =~= p.take(0));
    } else {
        law_header_lines_closed_form(lines.drop_first());
        let rp = backslash_texts(lines.drop_first());
        let rv = valid_header_lines(lines.drop_first());
        let t0 = choose|t: int|
            0 <= t <= rp.len() && rv == rp.take(t) && (forall|i: int|
                0 <= i < t ==> ascii_lower(#[trigger] rp[i]) != header_end_marker()) && (t < rp.len()
                ==> ascii_lower(rp[t]) == header_end_marker());
        match header_line_text(lines[0]) {
            None => {
                assert(p == rp);
                assert(v == rv);
            },
            Some(x) => {
                assert(p =~= seq![x] + rp);
                if ascii_lower(x) == header_end_marker() {
                    assert(v =~= p.take(0));
                } else {
                    assert(v =~= p.take(t0 + 1));
                    assert forall|i: int| 0 <= i < t0 + 1 implies ascii_lower(#[trigger] p[i])
                        != header_end_marker() by {
                        if i > 0 {
                            assert(p[i] == rp[i - 1]);
                        }
                    }
                    if t0 + 1 < p.len() {
                        assert(p[t0 + 1] == rp[t0]);
                    }
                }
            },
        }
    }
}


proof fn lemma_split_state_prefix(buf: Seq<u8>, tail: Seq<u8>, n: nat)
    requires
        n <= buf.len(),
    ensures
        split_state(buf + tail, n) == split_state(buf, n),
    decreases n,
{
    if n > 0 {
        lemma_split_state_prefix(buf, tail, (n - 1) as nat);
        assert((buf + tail)[n - 1] == buf[n - 1]);
    }
}

proof fn lemma_split_state_break_free_tail(buf: Seq<u8>, tail: Seq<u8>, k: nat)
    requires
        k <= tail.len(),
        forall|j: int| 0 <= j < tail.len() ==> !is_line_break(#[trigger] tail[j]),
    ensures
        split_state(buf + tail, buf.len() + k).0 == split_state(buf, buf.len()).0,
    decreases k,
{
    if k == 0 {
        lemma_split_state_prefix(buf, tail, buf.len());
    } else {
        lemma_split_state_break_free_tail(buf, tail, (k - 1) as nat);
        assert((buf + tail)[buf.len() + k - 1] == tail[k - 1]);
    }
}

/// A last run of bytes with no line break after it is not a line: appending bytes that
/// hold no carriage return or line feed leaves the lines as they were.
pub proof fn law_unterminated_tail_adds_no_line(buf: Seq<u8>, tail: Seq<u8>)
    requires
        forall|j: int| 0 <= j < tail.len() ==> !is_line_break(#[trigger] tail[j]),
    ensures
        buffer_lines(buf + tail) == buffer_lines(buf),
{
    let all = buf + tail;
    lemma_split_state_break_free_tail(buf, tail, tail.len());
    assert(all.len() == buf.len() + tail.len());
    let r = line_ranges(buf);
    assert(line_ranges(all) == r);
    lemma_lines_are_break_free(buf);
    assert forall|k: int| 0 <= k < r.len() implies all.subrange(#[trigger] r[k].0, r[k].1)
        == buf.subrange(r[k].0, r[k].1) by {
        assert(all.subrange(r[k].0, r[k].1) =~= buf.subrange(r[k].0, r[k].1));
    }
    assert(buffer_lines(all) =~= buffer_lines(buf));
}


proof fn lemma_split_state_same_breaks(a: Seq<u8>, b: Seq<u8>, n: nat)
    requires
        n <= a.len(),
        n <= b.len(),
        forall|j: int| 0 <= j < n ==> is_line_break(#[trigger] a[j]) == is_line_break(b[j]),
    ensures
        split_state(a, n) == split_state(b, n),
    decreases n,
{
    if n > 0 {
        lemma_split_state_same_breaks(a, b, (n - 1) as nat);
        assert(is_line_break(a[n - 1]) == is_line_break(b[n - 1]));
    }
}

/// Carriage returns and line feeds end lines alike: putting one line break in place of
/// another leaves the lines as they were.
pub proof fn law_break_kind_does_not_matter(buf: Seq<u8>, i: int, c: u8)
    requires
        0 <= i < buf.len(),
        is_line_break(buf[i]),
        is_line_break(c),
    ensures
        buffer_lines(buf.update(i, c)) == buffer_lines(buf),
{
    let b2 = buf.update(i, c);
    assert forall|j: int| 0 <= j < buf.len() implies is_line_break(#[trigger] b2[j]) == is_line_break(
        buf[j],
    ) by {}
    lemma_split_state_same_breaks(b2, buf, buf.len());
    lemma_lines_are_break_free(buf);
    let r = line_ranges(buf);
    assert(line_ranges(b2) == r);
    assert forall|k: int| 0 <= k < r.len() implies b2.subrange(#[trigger] r[k].0, r[k].1) == buf.subrange(
        r[k].0,
        r[k].1,
    ) by {
        assert(b2.subrange(r[k].0, r[k].1) =~= buf.subrange(r[k].0, r[k].1));
    }
    assert(buffer_lines(b2) =~= buffer_lines(buf));
}

/// A range of `buf` moved to where it stands once a byte is put in after position `i`.
pub open spec fn shift_range(r: (int, int), i: int) -> (int, int) {
    if r.0 > i {
        (r.0 + 1, r.1 + 1)
    } else {
        r
    }
}

proof fn lemma_split_state_inserted_break(buf: Seq<u8>, i: int, c: u8, n: nat)
    requires
        0 <= i < buf.len(),
        is_line_break(buf[i]),
        is_line_break(c),
        i + 1 <= n <= buf.len(),
    ensures
        ({
            let b2 = buf.take(i + 1) + seq![c] + buf.skip(i + 1);
            let st = split_state(buf, n);
            &&& split_state(b2, n + 1).0 == st.0.map_values(|r: (int, int)| shift_range(r, i))
            &&& split_state(b2, n + 1).1 == match st.1 {
                Some(s) => Some(s + 1),
                None => None::<int>,
            }
        }),
    decreases n,
{
    let b2 = buf.take(i + 1) + seq![c] + buf.skip(i + 1);
    lemma_split_state_wf(buf, n);
    if n == i + 1 {
        assert forall|j: int| 0 <= j < n implies is_line_break(#[trigger] b2[j]) == is_line_break(
            buf[j],
        ) by {
            assert(b2[j] == buf[j]);
        }
        lemma_split_state_same_breaks(b2, buf, n);
        assert(b2[n as int] == c);
        let st = split_state(buf, n);
        lemma_split_state_wf(buf, n);
        assert(st.0.map_values(|r: (int, int)| shift_range(r, i)) =~= st.0);
    } else {
        let m = (n - 1) as nat;
        lemma_split_state_inserted_break(buf, i, c, m);
        lemma_split_state_wf(buf, m);
        assert(b2[n as int] == buf[m as int]);
        let prev = split_state(buf, m);
        let st = split_state(buf, n);
        if let Some(s) = prev.1 {
            if s <= i {
                assert(!is_line_break(buf[i]));
            }
        }
        assert(split_state(b2, n + 1).0 =~= st.0.map_values(|r: (int, int)| shift_range(r, i)));
    }
}

/// A line break right after a line break ends no line: putting another carriage return
/// or line feed after one leaves the lines as they were.
pub proof fn law_repeated_break_adds_no_line(buf: Seq<u8>, i: int, c: u8)
    requires
        0 <= i < buf.len(),
        is_line_break(buf[i]),
        is_line_break(c),
    ensures
        buffer_lines(buf.take(i + 1) + seq![c] + buf.skip(i + 1)) == buffer_lines(buf),
{
    let b2 = buf.take(i + 1) + seq![c] + buf.skip(i + 1);
    lemma_split_state_inserted_break(buf, i, c, buf.len());
    assert(b2.len() == buf.len() + 1);
    lemma_lines_are_break_free(buf);
    let r = line_ranges(buf);
    assert forall|k: int| 0 <= k < r.len() implies b2.subrange(
        #[trigger] shift_range(r[k], i).0,
        shift_range(r[k], i).1,
    ) == buf.subrange(r[k].0, r[k].1) by {
        if r[k].0 > i {
            assert(b2.subrange(r[k].0 + 1, r[k].1 + 1) =~= buf.subrange(r[k].0, r[k].1));
        } else {
            if r[k].1 > i {
                assert(!is_line_break(buf[i]));
            }
            assert(b2.subrange(r[k].0, r[k].1) =~= buf.subrange(r[k].0, r[k].1));
        }
    }
    assert(buffer_lines(b2) =~= buffer_lines(buf));
}


/// `buf` with each run of line breaks replaced by one line feed.
pub open spec fn collapse_breaks(buf: Seq<u8>) -> Seq<u8>
    decreases buf.len(),
{
    if buf.len() == 0 {
        Seq::empty()
    } else {
        let rest = collapse_breaks(buf.drop_last());
        if is_line_break(buf.last()) {
            if buf.len() > 1 && is_line_break(buf[buf.len() - 2]) {
                rest
            } else {
                rest.push(10u8)
            }
        } else {
            rest.push(buf.last())
        }
    }
}

/// The texts of the lines found in the first `n` bytes of `buf`.
pub open spec fn found_lines(buf: Seq<u8>, n: nat) -> Seq<Seq<u8>> {
    split_state(buf, n).0.map_values(|r: (int, int)| buf.subrange(r.0, r.1))
}

/// The text of the line being read after the first `n` bytes of `buf`, if any.
pub open spec fn open_line(buf: Seq<u8>, n: nat) -> Option<Seq<u8>> {
    match split_state(buf, n).1 {
        Some(s) => Some(buf.subrange(s, n as int)),
        None => None,
    }
}

proof fn lemma_found_lines_push(buf: Seq<u8>, b: u8)
    ensures
        found_lines(buf.push(b), buf.len()) == found_lines(buf, buf.len()),
        open_line(buf.push(b), buf.len()) == open_line(buf, buf.len()),
{
    let t = seq![b];
    assert(buf.push(b) =~= buf + t);
    lemma_split_state_prefix(buf, t, buf.len());
    lemma_split_state_wf(buf, buf.len());
    let r = split_state(buf, buf.len()).0;
    assert forall|k: int| 0 <= k < r.len() implies buf.push(b).subrange(#[trigger] r[k].0, r[k].1)
        == buf.subrange(r[k].0, r[k].1) by {
        assert(buf.push(b).subrange(r[k].0, r[k].1) =~= buf.subrange(r[k].0, r[k].1));
    }
    assert(found_lines(buf.push(b), buf.len()) =~= found_lines(buf, buf.len()));
    if let Some(o) = split_state(buf, buf.len()).1 {
        assert(buf.push(b).subrange(o, buf.len() as int) =~= buf.subrange(o, buf.len() as int));
    }
}

proof fn lemma_found_lines_step(buf: Seq<u8>, b: u8)
    ensures
        ({
            let all = buf.push(b);
            let n = buf.len();
            let before = found_lines(buf, n);
            let open = open_line(buf, n);
            &&& found_lines(all, n + 1) == if is_line_break(b) && open is Some {
                before.push(open->0)
            } else {
                before
            }
            &&& open_line(all, n + 1) == if is_line_break(b) {
                None::<Seq<u8>>
            } else {
                match open {
                    Some(o) => Some(o.push(b)),
                    None => Some(seq![b]),
                }
            }
        }),
{
    let all = buf.push(b);
    let n = buf.len();
    lemma_found_lines_push(buf, b);
    lemma_split_state_wf(all, n);
    let prev = split_state(all, n);
    assert(all[n as int] == b);
    let r = prev.0;
    assert forall|k: int| 0 <= k < r.len() implies all.subrange(#[trigger] r[k].0, r[k].1) == buf.subrange(
        r[k].0,
        r[k].1,
    ) by {
        assert(all.subrange(r[k].0, r[k].1) =~= buf.subrange(r[k].0, r[k].1));
    }
    if let Some(o) = prev.1 {
        assert(all.subrange(o, n as int) =~= buf.subrange(o, n as int));
        assert(all.subrange(o, n + 1int) =~= buf.subrange(o, n as int).push(b));
    } else {
        assert(all.subrange(n as int, n + 1int) =~= seq![b]);
    }
    if is_line_break(b) && prev.1 is Some {
        assert(found_lines(all, n + 1) =~= found_lines(all, n).push(all.subrange(prev.1->0, n as int)));
    } else {
        assert(found_lines(all, n + 1) =~= found_lines(all, n));
    }
}

proof fn lemma_collapse_keeps_lines(buf: Seq<u8>)
    ensures
        found_lines(collapse_breaks(buf), collapse_breaks(buf).len()) == found_lines(buf, buf.len()),
        open_line(collapse_breaks(buf), collapse_breaks(buf).len()) == open_line(buf, buf.len()),
        buf.len() > 0 && is_line_break(buf.last()) ==> collapse_breaks(buf).len() > 0
            && is_line_break(collapse_breaks(buf).last()),
    decreases buf.len(),
{
    if buf.len() == 0 {
        assert(found_lines(buf, 0) =~= Seq::<Seq<u8>>::empty());
        assert(found_lines(collapse_breaks(buf), 0) =~= Seq::<Seq<u8>>::empty());
        assert(buf.subrange(0, 0) =~= collapse_breaks(buf).subrange(0, 0));
    } else {
        let init = buf.drop_last();
        let b = buf.last();
        let c = collapse_breaks(init);
        lemma_collapse_keeps_lines(init);
        assert(init.push(b) =~= buf);
        lemma_found_lines_step(init, b);
        lemma_split_state_wf(init, init.len());
        if is_line_break(b) {
            if buf.len() > 1 && is_line_break(buf[buf.len() - 2]) {
                assert(init.last() == buf[buf.len() - 2]);
                assert(open_line(init, init.len()) is None);
            } else {
                lemma_found_lines_step(c, 10u8);
            }
        } else {
            lemma_found_lines_step(c, b);
        }
    }
}

/// Runs of line breaks end a line like a single one: replacing each run of carriage
/// returns and line feeds by one line feed leaves the lines as they were.
pub proof fn law_collapsed_breaks_keep_lines(buf: Seq<u8>)
    ensures
        buffer_lines(collapse_breaks(buf)) == buffer_lines(buf),
{
    lemma_collapse_keeps_lines(buf);
}

} // verus!
