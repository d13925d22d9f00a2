//! The line-length-bounded streaming writer behind the PPM encoder.
//!
//! The writer accumulates arbitrary chunks of bytes in a line buffer and
//! emits completed lines: at an embedded newline it flushes the line as it
//! stands, and once the buffer outgrows the column budget it wraps the line
//! at the most recent space inside the budget, never splitting a word
//! between two breaks.  The model is the `drain` function below: every
//! write appends to the buffer and then cuts repeatedly until no cut
//! applies, so the state after any sequence of writes is a pure function of
//! the concatenated input — which is what makes the streaming-equivalence
//! law provable.

use vstd::prelude::*;

verus! {

/// The first index at which `b` occurs in `s`, if any.
pub open spec fn find_first(s: Seq<u8>, b: u8) -> Option<int>
    decreases s.len(),
{
    if s.len() == 0 {
        None
    } else if s[0] == b {
        Some(0)
    } else {
        match find_first(s.skip(1), b) {
            Some(i) => Some(i + 1),
            None => None,
        }
    }
}

/// The last index at which `b` occurs in `s`, if any.
pub open spec fn find_last(s: Seq<u8>, b: u8) -> Option<int>
    decreases s.len(),
{
    if s.len() == 0 {
        None
    } else if s[s.len() - 1] == b {
        Some(s.len() - 1)
    } else {
        find_last(s.drop_last(), b)
    }
}

/// What `find_first` returns: the index of an occurrence with none before it.
pub proof fn lemma_find_first_char(s: Seq<u8>, b: u8)
    ensures
        match find_first(s, b) {
            Some(i) => 0 <= i < s.len() && s[i] == b && forall|j: int|
                0 <= j < i ==> s[j] != b,
            None => forall|j: int| 0 <= j < s.len() ==> s[j] != b,
        },
    decreases s.len(),
{
    if s.len() > 0 && s[0] != b {
        lemma_find_first_char(s.skip(1), b);
        match find_first(s.skip(1), b) {
            Some(i) => {
                assert(s.skip(1)[i] == s[i + 1]);
                assert forall|j: int| 0 <= j < i + 1 implies s[j] != b by {
                    if j > 0 {
                        assert(s.skip(1)[j - 1] == s[j]);
                    }
                }
            }
            None => {
                assert forall|j: int| 0 <= j < s.len() implies s[j] != b by {
                    if j > 0 {
                        assert(s.skip(1)[j - 1] == s[j]);
                    }
                }
            }
        }
    }
}

/// An occurrence with none before it is where `find_first` points.
pub proof fn lemma_find_first_from_witness(s: Seq<u8>, b: u8, i: int)
    requires
        0 <= i < s.len(),
        s[i] == b,
        forall|j: int| 0 <= j < i ==> s[j] != b,
    ensures
        find_first(s, b) == Some(i),
    decreases s.len(),
{
    if i > 0 {
        assert(s.skip(1)[i - 1] == s[i]);
        assert forall|j: int| 0 <= j < i - 1 implies s.skip(1)[j] != b by {
            assert(s.skip(1)[j] == s[j + 1]);
        }
        lemma_find_first_from_witness(s.skip(1), b, i - 1);
    }
}

/// Without any occurrence, `find_first` comes up empty.
pub proof fn lemma_find_first_none(s: Seq<u8>, b: u8)
    requires
        forall|j: int| 0 <= j < s.len() ==> s[j] != b,
    ensures
        find_first(s, b) is None,
    decreases s.len(),
{
    if s.len() > 0 {
        assert forall|j: int| 0 <= j < s.skip(1).len() implies s.skip(1)[j] != b by {
            assert(s.skip(1)[j] == s[j + 1]);
        }
        lemma_find_first_none(s.skip(1), b);
    }
}

/// What `find_last` returns: the index of an occurrence with none after it.
pub proof fn lemma_find_last_char(s: Seq<u8>, b: u8)
    ensures
        match find_last(s, b) {
            Some(i) => 0 <= i < s.len() && s[i] == b && forall|j: int|
                i < j < s.len() ==> s[j] != b,
            None => forall|j: int| 0 <= j < s.len() ==> s[j] != b,
        },
    decreases s.len(),
{
    if s.len() > 0 && s[s.len() - 1] != b {
        lemma_find_last_char(s.drop_last(), b);
        match find_last(s.drop_last(), b) {
            Some(i) => {
                assert(s.drop_last()[i] == s[i]);
                assert forall|j: int| i < j < s.len() implies s[j] != b by {
                    if j < s.len() - 1 {
                        assert(s.drop_last()[j] == s[j]);
                    }
                }
            }
            None => {
                assert forall|j: int| 0 <= j < s.len() implies s[j] != b by {
                    if j < s.len() - 1 {
                        assert(s.drop_last()[j] == s[j]);
                    }
                }
            }
        }
    }
}

/// An occurrence with none after it is where `find_last` points.
pub proof fn lemma_find_last_from_witness(s: Seq<u8>, b: u8, i: int)
    requires
        0 <= i < s.len(),
        s[i] == b,
        forall|j: int| i < j < s.len() ==> s[j] != b,
    ensures
        find_last(s, b) == Some(i),
    decreases s.len(),
{
    if i < s.len() - 1 {
        assert(s.drop_last()[i] == s[i]);
        assert forall|j: int| i < j < s.drop_last().len() implies s.drop_last()[j] != b by {
            assert(s.drop_last()[j] == s[j]);
        }
        lemma_find_last_from_witness(s.drop_last(), b, i);
    }
}

/// Without any occurrence, `find_last` comes up empty.
pub proof fn lemma_find_last_none(s: Seq<u8>, b: u8)
    requires
        forall|j: int| 0 <= j < s.len() ==> s[j] != b,
    ensures
        find_last(s, b) is None,
    decreases s.len(),
{
    if s.len() > 0 {
        assert forall|j: int| 0 <= j < s.drop_last().len() implies s.drop_last()[j] != b by {
            assert(s.drop_last()[j] == s[j]);
        }
        lemma_find_last_none(s.drop_last(), b);
    }
}

/// Where the buffer must next be cut, if anywhere.  A newline that fits the
/// column budget flushes the line it completes; once the buffer outgrows
/// the budget, the line wraps at the last space inside the budget; a buffer
/// whose first budget's worth of bytes holds no space cannot be wrapped
/// without splitting them, so an over-long line is flushed whole at its
/// newline once that arrives.
pub open spec fn cut_point(limit: nat, buf: Seq<u8>) -> Option<int> {
    let nl = find_first(buf, 10u8);
    if nl matches Some(p) && p <= limit {
        nl
    } else if buf.len() > limit {
        match find_last(buf.take(limit as int + 1), 32u8) {
            Some(sp) => Some(sp),
            None => nl,
        }
    } else {
        None
    }
}

/// One cut at `x`: everything before `x` is emitted, followed by a newline
/// (at a wrap this newline replaces the space at `x`), and everything after
/// `x` stays buffered.
pub open spec fn apply_cut(out: Seq<u8>, buf: Seq<u8>, x: int) -> (Seq<u8>, Seq<u8>) {
    (out + buf.take(x) + seq![10u8], buf.skip(x + 1))
}

/// Cut repeatedly until no cut applies: the state of the writer after its
/// buffer held `buf` and everything already emitted was `out`.
pub open spec fn drain(limit: nat, out: Seq<u8>, buf: Seq<u8>) -> (Seq<u8>, Seq<u8>)
    decreases buf.len(),
{
    match cut_point(limit, buf) {
        Some(x) => if 0 <= x < buf.len() {
            drain(limit, apply_cut(out, buf, x).0, apply_cut(out, buf, x).1)
        } else {
            (out, buf)
        },
        None => (out, buf),
    }
}

/// A cut point always lies inside the buffer.
pub proof fn lemma_cut_point_in_range(limit: nat, buf: Seq<u8>)
    ensures
        match cut_point(limit, buf) {
            Some(x) => 0 <= x < buf.len(),
            None => true,
        },
{
    lemma_find_first_char(buf, 10u8);
    if buf.len() > limit {
        lemma_find_last_char(buf.take(limit as int + 1), 32u8);
    }
}

/// A cut lands on a newline or on a space, never inside a word.
pub proof fn lemma_cut_point_byte(limit: nat, buf: Seq<u8>)
    ensures
        match cut_point(limit, buf) {
            Some(x) => buf[x] == 10u8 || buf[x] == 32u8,
            None => true,
        },
{
    lemma_find_first_char(buf, 10u8);
    if buf.len() > limit {
        let w = buf.take(limit as int + 1);
        lemma_find_last_char(w, 32u8);
        match find_last(w, 32u8) {
            Some(sp) => {
                assert(w[sp] == buf[sp]);
            }
            None => {}
        }
    }
}

/// What `drain` leaves buffered is past any cut: draining is complete.
pub proof fn lemma_drain_quiescent(limit: nat, out: Seq<u8>, buf: Seq<u8>)
    ensures
        cut_point(limit, drain(limit, out, buf).1) is None,
    decreases buf.len(),
{
    match cut_point(limit, buf) {
        Some(x) => {
            lemma_cut_point_in_range(limit, buf);
            lemma_drain_quiescent(limit, apply_cut(out, buf, x).0, apply_cut(out, buf, x).1);
        }
        None => {}
    }
}

/// Appending more input never moves a cut that is already due: the decision
/// depends only on the bytes before it.
pub proof fn lemma_cut_point_stable(limit: nat, buf: Seq<u8>, ext: Seq<u8>)
    requires
        cut_point(limit, buf) is Some,
    ensures
        cut_point(limit, buf + ext) == cut_point(limit, buf),
{
    let all = buf + ext;
    lemma_find_first_char(buf, 10u8);
    lemma_find_first_char(all, 10u8);
    match find_first(buf, 10u8) {
        Some(p) => {
            assert(all[p] == buf[p]);
            assert forall|j: int| 0 <= j < p implies all[j] != 10u8 by {
                assert(all[j] == buf[j]);
            }
            lemma_find_first_from_witness(all, 10u8, p);
            if p > limit {
                assert(buf.len() > limit);
                assert(buf.take(limit as int + 1) =~= all.take(limit as int + 1));
            }
        }
        None => {
            assert(buf.len() > limit);
            assert(buf.take(limit as int + 1) =~= all.take(limit as int + 1));
            match find_first(all, 10u8) {
                Some(q) => {
                    assert(q >= buf.len()) by {
                        if q < buf.len() {
                            assert(all[q] == buf[q]);
                        }
                    }
                }
                None => {}
            }
        }
    }
}

/// Draining commutes with appending input: what the writer has already
/// decided to emit, later bytes cannot change.
pub proof fn lemma_drain_append(limit: nat, out: Seq<u8>, buf: Seq<u8>, ext: Seq<u8>)
    ensures
        drain(limit, out, buf + ext) == drain(
            limit,
            drain(limit, out, buf).0,
            drain(limit, out, buf).1 + ext,
        ),
    decreases buf.len(),
{
    match cut_point(limit, buf) {
        Some(x) => {
            lemma_cut_point_in_range(limit, buf);
            lemma_cut_point_stable(limit, buf, ext);
            assert((buf + ext).take(x) =~= buf.take(x));
            assert((buf + ext).skip(x + 1) =~= buf.skip(x + 1) + ext);
            lemma_drain_append(limit, out + buf.take(x) + seq![10u8], buf.skip(x + 1), ext);
        }
        None => {}
    }
}

/// Streaming equivalence: handing the writer a byte sequence in two chunks
/// leaves exactly the state of handing it the concatenation in one write.
/// With `lemma_drain_append` this extends to any number of chunks.
pub proof fn lemma_streaming_equivalence(
    limit: nat,
    out: Seq<u8>,
    buf: Seq<u8>,
    a: Seq<u8>,
    b: Seq<u8>,
)
    ensures
        drain(limit, out, buf + (a + b)) == drain(
            limit,
            drain(limit, out, buf + a).0,
            drain(limit, out, buf + a).1 + b,
        ),
{
    assert(buf + (a + b) =~= (buf + a) + b);
    lemma_drain_append(limit, out, buf + a, b);
}

/// `t` is `s` with some spaces turned into newlines and nothing else
/// touched: the relation between the bytes handed to the writer and the
/// bytes it passes on.
pub open spec fn wraps_to(s: Seq<u8>, t: Seq<u8>) -> bool {
    &&& s.len() == t.len()
    &&& forall|i: int|
        0 <= i < s.len() ==> #[trigger] t[i] == s[i] || (s[i] == 32u8 && t[i] == 10u8)
}

pub proof fn lemma_wraps_to_trans(s: Seq<u8>, t: Seq<u8>, u: Seq<u8>)
    requires
        wraps_to(s, t),
        wraps_to(t, u),
    ensures
        wraps_to(s, u),
{
    assert forall|i: int| 0 <= i < s.len() implies #[trigger] u[i] == s[i] || (s[i] == 32u8
        && u[i] == 10u8) by {
        assert(t[i] == s[i] || (s[i] == 32u8 && t[i] == 10u8));
    }
}

/// Draining only moves bytes along: the emitted bytes followed by what
/// stays buffered are the input bytes, except that each wrap turned one
/// space into the newline that now ends the wrapped line.
pub proof fn lemma_drain_content(limit: nat, out: Seq<u8>, buf: Seq<u8>)
    ensures
        wraps_to(out + buf, drain(limit, out, buf).0 + drain(limit, out, buf).1),
    decreases buf.len(),
{
    match cut_point(limit, buf) {
        Some(x) => {
            lemma_cut_point_in_range(limit, buf);
            lemma_cut_point_byte(limit, buf);
            let out2 = out + buf.take(x) + seq![10u8];
            let buf2 = buf.skip(x + 1);
            assert(wraps_to(out + buf, out2 + buf2)) by {
                assert((out2 + buf2).len() == (out + buf).len());
                assert forall|i: int| 0 <= i < (out + buf).len() implies #[trigger] (out2
                    + buf2)[i] == (out + buf)[i] || ((out + buf)[i] == 32u8 && (out2 + buf2)[i]
                    == 10u8) by {
                    let o = out.len() as int;
                    if i < o {
                        assert((out2 + buf2)[i] == out[i]);
                        assert((out + buf)[i] == out[i]);
                    } else if i < o + x {
                        assert((out2 + buf2)[i] == buf.take(x)[i - o]);
                        assert((out + buf)[i] == buf[i - o]);
                    } else if i == o + x {
                        assert((out2 + buf2)[i] == 10u8);
                        assert((out + buf)[i] == buf[x]);
                    } else {
                        assert((out2 + buf2)[i] == buf2[i - o - x - 1]);
                        assert((out + buf)[i] == buf[i - o]);
                    }
                }
            }
            lemma_drain_content(limit, out2, buf2);
            lemma_wraps_to_trans(
                out + buf,
                out2 + buf2,
                drain(limit, out2, buf2).0 + drain(limit, out2, buf2).1,
            );
        }
        None => {}
    }
}

/// A space or a newline: the bytes a line may break at.
pub open spec fn is_break(b: u8) -> bool {
    b == 32u8 || b == 10u8
}

/// The number of consecutive break-free bytes of `s` from position `i` on.
pub open spec fn runlen_from(s: Seq<u8>, i: int) -> int
    decreases s.len() - i,
    when 0 <= i <= s.len()
{
    if i >= s.len() || is_break(s[i]) {
        0
    } else {
        1 + runlen_from(s, i + 1)
    }
}

/// Every break-free run of `s` has at most `m` bytes.
pub open spec fn run_bound(s: Seq<u8>, m: int) -> bool {
    forall|i: int| 0 <= i <= s.len() ==> #[trigger] runlen_from(s, i) <= m
}

/// A run reaches at most the end of the sequence.
pub proof fn lemma_runlen_le(s: Seq<u8>, i: int)
    requires
        0 <= i <= s.len(),
    ensures
        0 <= runlen_from(s, i) <= s.len() - i,
    decreases s.len() - i,
{
    if i < s.len() && !is_break(s[i]) {
        lemma_runlen_le(s, i + 1);
    }
}

/// The bytes inside a run are break-free.
pub proof fn lemma_runlen_covers(s: Seq<u8>, i: int)
    requires
        0 <= i <= s.len(),
    ensures
        forall|k: int| i <= k < i + runlen_from(s, i) ==> !is_break(s[k]),
    decreases s.len() - i,
{
    if i < s.len() && !is_break(s[i]) {
        lemma_runlen_covers(s, i + 1);
    }
}

/// The byte just past a run, if the sequence goes on, is a break.
pub proof fn lemma_runlen_stops(s: Seq<u8>, i: int)
    requires
        0 <= i <= s.len(),
        i + runlen_from(s, i) < s.len(),
    ensures
        is_break(s[i + runlen_from(s, i)]),
    decreases s.len() - i,
{
    lemma_runlen_le(s, i);
    if i < s.len() && !is_break(s[i]) {
        lemma_runlen_stops(s, i + 1);
    }
}

/// A sequence no longer than `m` has its runs bounded by `m` outright.
pub proof fn lemma_run_bound_by_len(s: Seq<u8>, m: int)
    requires
        s.len() <= m,
    ensures
        run_bound(s, m),
{
    assert forall|i: int| 0 <= i <= s.len() implies #[trigger] runlen_from(s, i) <= m by {
        lemma_runlen_le(s, i);
    }
}

/// How a run behaves across a concatenation: it stays inside one part
/// unless it reaches the first part's end and continues into the second.
pub proof fn lemma_runlen_concat(a: Seq<u8>, b: Seq<u8>, i: int)
    requires
        0 <= i <= a.len() + b.len(),
    ensures
        i >= a.len() ==> runlen_from(a + b, i) == runlen_from(b, i - a.len()),
        i < a.len() && runlen_from(a, i) < a.len() - i ==> runlen_from(a + b, i) == runlen_from(
            a,
            i,
        ),
        i < a.len() && runlen_from(a, i) == a.len() - i ==> runlen_from(a + b, i) == (a.len() - i)
            + runlen_from(b, 0),
    decreases a.len() + b.len() - i,
{
    if i >= a.len() {
        if i < (a + b).len() {
            assert((a + b)[i] == b[i - a.len()]);
            lemma_runlen_concat(a, b, i + 1);
        }
    } else {
        assert((a + b)[i] == a[i]);
        lemma_runlen_le(a, i);
        if !is_break(a[i]) {
            lemma_runlen_le(a, i + 1);
            lemma_runlen_concat(a, b, i + 1);
        }
    }
}

/// Runs stay bounded across a concatenation when a break guards the seam.
pub proof fn lemma_run_bound_concat(a: Seq<u8>, b: Seq<u8>, m: int)
    requires
        run_bound(a, m),
        run_bound(b, m),
        a.len() == 0 || b.len() == 0 || is_break(a[a.len() - 1]) || is_break(b[0]),
    ensures
        run_bound(a + b, m),
{
    assert forall|i: int| 0 <= i <= (a + b).len() implies #[trigger] runlen_from(a + b, i)
        <= m by {
        lemma_runlen_concat(a, b, i);
        if i < a.len() {
            lemma_runlen_le(a, i);
            if runlen_from(a, i) == a.len() - i {
                if b.len() == 0 {
                    assert(runlen_from(b, 0) == 0);
                } else if is_break(a[a.len() - 1]) && runlen_from(a, i) > 0 {
                    lemma_runlen_covers(a, i);
                    assert(!is_break(a[a.len() - 1]));
                } else if !is_break(b[0]) {
                    assert(is_break(b[0]));
                } else {
                    assert(runlen_from(b, 0) == 0);
                }
            }
        } else {
            assert(runlen_from(b, i - a.len()) <= m);
        }
    }
}

/// Runs of a suffix are the original's runs, read from the offset.
pub proof fn lemma_runlen_suffix(s: Seq<u8>, c: int, i: int)
    requires
        0 <= c <= s.len(),
        0 <= i <= s.len() - c,
    ensures
        runlen_from(s.skip(c), i) == runlen_from(s, c + i),
    decreases s.len() - c - i,
{
    if i < s.skip(c).len() {
        assert(s.skip(c)[i] == s[c + i]);
        if !is_break(s[c + i]) {
            lemma_runlen_suffix(s, c, i + 1);
        }
    }
}

/// The number of bytes of `s` from position `i` up to its line's end: the
/// next newline, or failing that the end of the sequence.
pub open spec fn linelen_from(s: Seq<u8>, i: int) -> int
    decreases s.len() - i,
    when 0 <= i <= s.len()
{
    if i >= s.len() || s[i] == 10u8 {
        0
    } else {
        1 + linelen_from(s, i + 1)
    }
}

/// Every line of `s` — every newline-free stretch — has at most `m` bytes.
pub open spec fn lines_within(s: Seq<u8>, m: int) -> bool {
    forall|i: int| 0 <= i <= s.len() ==> #[trigger] linelen_from(s, i) <= m
}

/// A line reaches at most the end of the sequence.
pub proof fn lemma_linelen_le(s: Seq<u8>, i: int)
    requires
        0 <= i <= s.len(),
    ensures
        0 <= linelen_from(s, i) <= s.len() - i,
    decreases s.len() - i,
{
    if i < s.len() && s[i] != 10u8 {
        lemma_linelen_le(s, i + 1);
    }
}

/// How a line behaves across a concatenation.
pub proof fn lemma_linelen_concat(a: Seq<u8>, b: Seq<u8>, i: int)
    requires
        0 <= i <= a.len() + b.len(),
    ensures
        i >= a.len() ==> linelen_from(a + b, i) == linelen_from(b, i - a.len()),
        i < a.len() && linelen_from(a, i) < a.len() - i ==> linelen_from(a + b, i)
            == linelen_from(a, i),
        i < a.len() && linelen_from(a, i) == a.len() - i ==> linelen_from(a + b, i) == (a.len()
            - i) + linelen_from(b, 0),
    decreases a.len() + b.len() - i,
{
    if i >= a.len() {
        if i < (a + b).len() {
            assert((a + b)[i] == b[i - a.len()]);
            lemma_linelen_concat(a, b, i + 1);
        }
    } else {
        assert((a + b)[i] == a[i]);
        lemma_linelen_le(a, i);
        if a[i] != 10u8 {
            lemma_linelen_le(a, i + 1);
            lemma_linelen_concat(a, b, i + 1);
        }
    }
}

/// Appending a newline-free tail of at most `m` bytes after complete lines
/// keeps every line within `m`.
pub proof fn lemma_lines_append_tail(a: Seq<u8>, b: Seq<u8>, m: int)
    requires
        0 <= m,
        lines_within(a, m),
        a.len() == 0 || a[a.len() - 1] == 10u8,
        forall|k: int| 0 <= k < b.len() ==> b[k] != 10u8,
        b.len() <= m,
    ensures
        lines_within(a + b, m),
{
    assert forall|i: int| 0 <= i <= (a + b).len() implies #[trigger] linelen_from(a + b, i)
        <= m by {
        lemma_linelen_concat(a, b, i);
        lemma_linelen_le(b, 0);
        if i >= a.len() {
            lemma_linelen_le(b, i - a.len());
        }
        if i < a.len() {
            lemma_linelen_le(a, i);
            if linelen_from(a, i) == a.len() - i {
                if a.len() > 0 {
                    // a line reaching a's end would have to pass the final
                    // newline, so it is empty: i must be a.len() itself
                    assert(a[a.len() - 1] == 10u8);
                    if linelen_from(a, i) > 0 {
                        lemma_linelen_covers(a, i);
                    }
                }
            }
        }
    }
}

/// The bytes inside a line are newline-free.
pub proof fn lemma_linelen_covers(s: Seq<u8>, i: int)
    requires
        0 <= i <= s.len(),
    ensures
        forall|k: int| i <= k < i + linelen_from(s, i) ==> s[k] != 10u8,
    decreases s.len() - i,
{
    if i < s.len() && s[i] != 10u8 {
        lemma_linelen_covers(s, i + 1);
    }
}

/// A newline-free sequence no longer than `m` keeps its lines within `m`.
pub proof fn lemma_lines_nl_free(s: Seq<u8>, m: int)
    requires
        forall|k: int| 0 <= k < s.len() ==> s[k] != 10u8,
        s.len() <= m,
    ensures
        lines_within(s, m),
{
    assert forall|i: int| 0 <= i <= s.len() implies #[trigger] linelen_from(s, i) <= m by {
        lemma_linelen_le(s, i);
    }
}

/// Complete lines followed by anything whose lines fit still have every
/// line within `m`.
pub proof fn lemma_lines_concat_complete(a: Seq<u8>, b: Seq<u8>, m: int)
    requires
        0 <= m,
        lines_within(a, m),
        lines_within(b, m),
        a.len() == 0 || a[a.len() - 1] == 10u8,
    ensures
        lines_within(a + b, m),
{
    assert forall|i: int| 0 <= i <= (a + b).len() implies #[trigger] linelen_from(a + b, i)
        <= m by {
        lemma_linelen_concat(a, b, i);
        if i < a.len() {
            lemma_linelen_le(a, i);
            if linelen_from(a, i) == a.len() - i && linelen_from(a, i) > 0 {
                lemma_linelen_covers(a, i);
                assert(a[a.len() - 1] != 10u8);
            }
        }
    }
}

/// A newline-free line of at most `m` bytes, closed by its newline, has its
/// lines within `m`.
pub proof fn lemma_lines_of_closed_line(line: Seq<u8>, m: int)
    requires
        0 <= m,
        forall|k: int| 0 <= k < line.len() ==> line[k] != 10u8,
        line.len() <= m,
    ensures
        lines_within(line + seq![10u8], m),
{
    let b = seq![10u8];
    assert forall|i: int| 0 <= i <= (line + b).len() implies #[trigger] linelen_from(line + b, i)
        <= m by {
        lemma_linelen_concat(line, b, i);
        if i < line.len() {
            lemma_linelen_le(line, i);
        }
    }
}

/// Under a run-bounded buffer, every due cut falls inside the budget and
/// the line it flushes holds no newline; a quiescent run-bounded buffer is
/// itself short and newline-free.
pub proof fn lemma_cut_under_run_bound(limit: nat, buf: Seq<u8>)
    requires
        run_bound(buf, limit as int),
    ensures
        match cut_point(limit, buf) {
            Some(x) => 0 <= x <= limit && forall|k: int| 0 <= k < x ==> buf[k] != 10u8,
            None => buf.len() <= limit && forall|k: int| 0 <= k < buf.len() ==> buf[k] != 10u8,
        },
{
    lemma_find_first_char(buf, 10u8);
    if buf.len() > limit {
        let w = buf.take(limit as int + 1);
        lemma_find_last_char(w, 32u8);
        lemma_runlen_le(buf, 0);
        let r = runlen_from(buf, 0);
        assert(0 <= r <= limit);
        assert(r < buf.len());
        lemma_runlen_stops(buf, 0);
        lemma_runlen_covers(buf, 0);
        if buf[r] == 10u8 {
            match find_first(buf, 10u8) {
                Some(p) => {
                    assert(p <= r);
                }
                None => {
                    assert(false);
                }
            }
        } else {
            assert(buf[r] == 32u8);
            match find_first(buf, 10u8) {
                Some(p) => {
                    if p > limit {
                        assert(w[r] == 32u8);
                        match find_last(w, 32u8) {
                            Some(sp) => {
                                assert forall|k: int| 0 <= k < sp implies buf[k] != 10u8 by {
                                    assert(k < p);
                                }
                            }
                            None => {
                                assert(false);
                            }
                        }
                    }
                }
                None => {
                    assert(w[r] == 32u8);
                    match find_last(w, 32u8) {
                        Some(sp) => {}
                        None => {
                            assert(false);
                        }
                    }
                }
            }
        }
    }
}

/// Fed a run-bounded buffer after complete lines, draining emits only
/// lines within the budget and leaves a short, newline-free buffer.
pub proof fn lemma_drain_lines_within(limit: nat, out: Seq<u8>, buf: Seq<u8>)
    requires
        run_bound(buf, limit as int),
        lines_within(out, limit as int),
        out.len() == 0 || out[out.len() - 1] == 10u8,
    ensures
        lines_within(drain(limit, out, buf).0, limit as int),
        drain(limit, out, buf).0.len() == 0 || drain(limit, out, buf).0[drain(
            limit,
            out,
            buf,
        ).0.len() - 1] == 10u8,
        drain(limit, out, buf).1.len() <= limit,
        forall|k: int|
            0 <= k < drain(limit, out, buf).1.len() ==> drain(limit, out, buf).1[k] != 10u8,
    decreases buf.len(),
{
    lemma_cut_under_run_bound(limit, buf);
    match cut_point(limit, buf) {
        Some(x) => {
            lemma_cut_point_in_range(limit, buf);
            let line = buf.take(x);
            let out2 = out + line + seq![10u8];
            let buf2 = buf.skip(x + 1);
            assert(lines_within(out2, limit as int)) by {
                lemma_lines_of_closed_line(line, limit as int);
                lemma_lines_concat_complete(out, line + seq![10u8], limit as int);
                assert(out + line + seq![10u8] =~= out + (line + seq![10u8]));
            }
            assert(out2[out2.len() - 1] == 10u8);
            assert(run_bound(buf2, limit as int)) by {
                assert forall|i: int| 0 <= i <= buf2.len() implies #[trigger] runlen_from(buf2, i)
                    <= limit as int by {
                    lemma_runlen_suffix(buf, x + 1, i);
                }
            }
            lemma_drain_lines_within(limit, out2, buf2);
        }
        None => {}
    }
}

/// The whole line-length guarantee: fed input whose break-free runs fit
/// the column budget, the writer — drained and then flushed — produces
/// output whose every line has at most `limit` bytes.
pub proof fn lemma_drain_output_lines(limit: nat, buf: Seq<u8>)
    requires
        run_bound(buf, limit as int),
    ensures
        lines_within(
            drain(limit, Seq::<u8>::empty(), buf).0 + drain(limit, Seq::<u8>::empty(), buf).1,
            limit as int,
        ),
{
    let e = Seq::<u8>::empty();
    assert(lines_within(e, limit as int)) by {
        assert forall|i: int| 0 <= i <= e.len() implies #[trigger] linelen_from(e, i)
            <= limit as int by {
            lemma_linelen_le(e, i);
        }
    }
    lemma_drain_lines_within(limit, e, buf);
    let o = drain(limit, e, buf).0;
    let b = drain(limit, e, buf).1;
    lemma_lines_nl_free(b, limit as int);
    lemma_lines_concat_complete(o, b, limit as int);
}

/// A writer that re-wraps its input into output lines of at most
/// `number_columns` bytes, breaking only at spaces and newlines.  Bytes
/// pass from the line buffer to `writer_vec` exactly as `drain` describes.
pub struct MaxWidthWriter {
    /// Bytes already emitted, in order.
    pub writer_vec: Vec<u8>,
    /// Bytes still buffered: the current, incomplete line.
    pub line_buffer: Vec<u8>,
    /// The column budget: how many bytes an emitted line may hold, its
    /// terminating newline not counted.
    pub number_columns: usize,
}

impl MaxWidthWriter {
    /// A writer with the given column budget and nothing buffered.
    pub fn new(number_columns: usize) -> (w: MaxWidthWriter)
        ensures
            w.writer_vec@ == Seq::<u8>::empty(),
            w.line_buffer@ == Seq::<u8>::empty(),
            w.number_columns == number_columns,
    {
        MaxWidthWriter { writer_vec: Vec::new(), line_buffer: Vec::new(), number_columns }
    }

    /// Emit the first `x` buffered bytes followed by a newline and retain
    /// the rest.  Cutting at a buffered newline emits the line as it
    /// stands; cutting at a buffered space wraps the line there, the
    /// emitted newline replacing the space.
    #[verifier::loop_isolation(false)]
    pub fn flush_partial(&mut self, x: usize)
        requires
            x < old(self).line_buffer@.len(),
        ensures
            final(self).writer_vec@ == old(self).writer_vec@ + old(self).line_buffer@.take(
                x as int,
            ) + seq![10u8],
            final(self).line_buffer@ == old(self).line_buffer@.skip(x as int + 1),
            final(self).number_columns == old(self).number_columns,
    {
        let ghost out0 = self.writer_vec@;
        let ghost buf0 = self.line_buffer@;
        let mut i: usize = 0;
        while i < x
            invariant
                i <= x,
                self.line_buffer@ == buf0,
                self.number_columns == old(self).number_columns,
                self.writer_vec@ == out0 + buf0.take(i as int),
            decreases x - i,
        {
            let b = self.line_buffer[i];
            self.writer_vec.push(b);
            i = i + 1;
            proof {
                assert(self.writer_vec@ =~= out0 + buf0.take(i as int));
            }
        }
        self.writer_vec.push(10);
        proof {
            assert(self.writer_vec@ =~= out0 + buf0.take(x as int) + seq![10u8]);
        }
        let n = self.line_buffer.len();
        let mut rest: Vec<u8> = Vec::new();
        let mut j: usize = x + 1;
        while j < n
            invariant
                x + 1 <= j <= n,
                self.line_buffer@ == buf0,
                self.writer_vec@ == out0 + buf0.take(x as int) + seq![10u8],
                self.number_columns == old(self).number_columns,
                rest@ == buf0.subrange(x as int + 1, j as int),
            decreases n - j,
        {
            let b = self.line_buffer[j];
            rest.push(b);
            j = j + 1;
            proof {
                assert(rest@ =~= buf0.subrange(x as int + 1, j as int));
            }
        }
        self.line_buffer = rest;
        proof {
            assert(self.line_buffer@ =~= buf0.skip(x as int + 1));
        }
    }

    /// Find the cut the buffer is due for, as `cut_point` names it.
    fn find_cut(&self) -> (r: Option<usize>)
        ensures
            match r {
                Some(x) => cut_point(self.number_columns as nat, self.line_buffer@) == Some(
                    x as int,
                ) && x < self.line_buffer@.len(),
                None => cut_point(self.number_columns as nat, self.line_buffer@) is None,
            },
    {
        let n = self.line_buffer.len();
        let limit = self.number_columns;
        let mut nl: Option<usize> = None;
        let mut i: usize = 0;
        while i < n
            invariant_except_break
                nl is None,
            invariant
                i <= n,
                n == self.line_buffer@.len(),
                forall|j: int| 0 <= j < i ==> self.line_buffer@[j] != 10u8,
            ensures
                match nl {
                    Some(p) => p < n && self.line_buffer@[p as int] == 10u8 && forall|j: int|
                        0 <= j < p ==> self.line_buffer@[j] != 10u8,
                    None => forall|j: int| 0 <= j < n ==> self.line_buffer@[j] != 10u8,
                },
            decreases n - i,
        {
            if self.line_buffer[i] == 10 {
                nl = Some(i);
                break;
            }
            i = i + 1;
        }
        proof {
            match nl {
                Some(p) => lemma_find_first_from_witness(self.line_buffer@, 10u8, p as int),
                None => lemma_find_first_none(self.line_buffer@, 10u8),
            }
        }
        if let Some(p) = nl {
            if p <= limit {
                return Some(p);
            }
        }
        if n > limit {
            let ghost w = self.line_buffer@.take(limit as int + 1);
            let mut sp: Option<usize> = None;
            let mut k: usize = limit + 1;
            while k > 0
                invariant_except_break
                    sp is None,
                    forall|j: int| k <= j <= limit ==> self.line_buffer@[j] != 32u8,
                invariant
                    k <= limit + 1,
                    limit < n,
                    n == self.line_buffer@.len(),
                ensures
                    match sp {
                        Some(q) => q <= limit && self.line_buffer@[q as int] == 32u8 && forall|
                            j: int,
                        | q < j <= limit ==> self.line_buffer@[j] != 32u8,
                        None => forall|j: int| 0 <= j <= limit ==> self.line_buffer@[j] != 32u8,
                    },
                decreases k,
            {
                k = k - 1;
                if self.line_buffer[k] == 32 {
                    sp = Some(k);
                    break;
                }
            }
            proof {
                assert(w.len() == limit + 1);
                match sp {
                    Some(q) => {
                        assert(w[q as int] == self.line_buffer@[q as int]);
                        assert forall|j: int| q < j < w.len() implies w[j] != 32u8 by {
                            assert(w[j] == self.line_buffer@[j]);
                        }
                        lemma_find_last_from_witness(w, 32u8, q as int);
                    }
                    None => {
                        assert forall|j: int| 0 <= j < w.len() implies w[j] != 32u8 by {
                            assert(w[j] == self.line_buffer@[j]);
                        }
                        lemma_find_last_none(w, 32u8);
                    }
                }
            }
            match sp {
                Some(q) => Some(q),
                None => nl,
            }
        } else {
            None
        }
    }

    /// Append `bytes` to the line buffer, then cut and emit lines until no
    /// cut applies: exactly one `drain` of the extended buffer.
    pub fn write(&mut self, bytes: &Vec<u8>)
        ensures
            final(self).number_columns == old(self).number_columns,
            final(self).writer_vec@ == drain(
                old(self).number_columns as nat,
                old(self).writer_vec@,
                old(self).line_buffer@ + bytes@,
            ).0,
            final(self).line_buffer@ == drain(
                old(self).number_columns as nat,
                old(self).writer_vec@,
                old(self).line_buffer@ + bytes@,
            ).1,
            cut_point(final(self).number_columns as nat, final(self).line_buffer@) is None,
    {
        let ghost lim = self.number_columns as nat;
        let ghost buf0 = self.line_buffer@;
        let ghost target = drain(lim, self.writer_vec@, self.line_buffer@ + bytes@);
        let mut i: usize = 0;
        while i < bytes.len()
            invariant
                i <= bytes@.len(),
                self.writer_vec@ == old(self).writer_vec@,
                self.number_columns == old(self).number_columns,
                self.line_buffer@ == buf0 + bytes@.take(i as int),
            decreases bytes@.len() - i,
        {
            let b = bytes[i];
            self.line_buffer.push(b);
            i = i + 1;
            proof {
                assert(self.line_buffer@ =~= buf0 + bytes@.take(i as int));
            }
        }
        proof {
            assert(self.line_buffer@ =~= buf0 + bytes@);
        }
        loop
            invariant
                self.number_columns == old(self).number_columns,
                lim == self.number_columns as nat,
                drain(lim, self.writer_vec@, self.line_buffer@) == target,
            ensures
                self.number_columns == old(self).number_columns,
                drain(lim, self.writer_vec@, self.line_buffer@) == target,
                cut_point(lim, self.line_buffer@) is None,
            decreases self.line_buffer@.len(),
        {
            let cut = self.find_cut();
            match cut {
                Some(x) => {
                    proof {
                        lemma_cut_point_in_range(lim, self.line_buffer@);
                    }
                    let ghost prev_out = self.writer_vec@;
                    let ghost prev_buf = self.line_buffer@;
                    self.flush_partial(x);
                    proof {
                        assert(drain(lim, prev_out, prev_buf) == drain(
                            lim,
                            self.writer_vec@,
                            self.line_buffer@,
                        ));
                    }
                }
                None => {
                    break;
                }
            }
        }
    }

    /// Emit whatever stays buffered, as it stands and without a final
    /// newline: the finalization step.
    pub fn flush(&mut self)
        ensures
            final(self).writer_vec@ == old(self).writer_vec@ + old(self).line_buffer@,
            final(self).line_buffer@ == Seq::<u8>::empty(),
            final(self).number_columns == old(self).number_columns,
    {
        let ghost out0 = self.writer_vec@;
        let ghost buf0 = self.line_buffer@;
        let mut rest: Vec<u8> = Vec::new();
        core::mem::swap(&mut rest, &mut self.line_buffer);
        self.writer_vec.append(&mut rest);
        proof {
            assert(self.writer_vec@ =~= out0 + buf0);
        }
    }
}

} // verus!
