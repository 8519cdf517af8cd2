//! Mathematical model of line framing: where a byte stream splits into
//! newline-terminated messages, what one read contributes, and what a whole
//! run of reads produces.
use vstd::prelude::*;

verus! {

use crate::BUFFER_SIZE;

/// True iff `b` is the line terminator.
pub open spec fn is_newline(b: u8) -> bool {
    b == 10u8
}

/// True iff `s` holds at least one newline byte.
pub open spec fn has_newline(s: Seq<u8>) -> bool {
    exists|i: int| 0 <= i < s.len() && is_newline(#[trigger] s[i])
}

/// One past the index of the last newline in `s`, or 0 when `s` holds none.
/// Everything before this point is complete lines; everything after is an
/// unterminated remainder.
pub open spec fn line_split(s: Seq<u8>) -> int
    decreases s.len(),
{
    if s.len() == 0 {
        0
    } else if is_newline(s.last()) {
        s.len() as int
    } else {
        line_split(s.drop_last())
    }
}

/// `line_split` marks the last newline: it is in bounds, the byte before it
/// is a newline (when it is positive), nothing after it is a newline, and it
/// is zero exactly when `s` has no newline at all.
pub proof fn lemma_line_split_properties(s: Seq<u8>)
    ensures
        0 <= line_split(s) <= s.len(),
        line_split(s) > 0 ==> is_newline(s[line_split(s) - 1]),
        forall|j: int| line_split(s) <= j < s.len() ==> !is_newline(#[trigger] s[j]),
        line_split(s) == 0 <==> !has_newline(s),
    decreases s.len(),
{
    if s.len() == 0 {
    } else if is_newline(s.last()) {
    } else {
        lemma_line_split_properties(s.drop_last());
        assert(forall|j: int|
            0 <= j < s.len() - 1 ==> s.drop_last()[j] == #[trigger] s[j]);
        if line_split(s) == 0 {
            assert forall|i: int| 0 <= i < s.len() implies !is_newline(#[trigger] s[i]) by {
                if i < s.len() - 1 {
                    assert(s.drop_last()[i] == s[i]);
                }
            }
        }
        if has_newline(s) {
            let i = choose|i: int| 0 <= i < s.len() && is_newline(#[trigger] s[i]);
            if i < s.len() - 1 {
                assert(is_newline(s.drop_last()[i]));
                assert(has_newline(s.drop_last()));
            }
        }
    }
}

/// A concatenation holds a newline iff one of its parts does.
pub proof fn lemma_has_newline_concat(x: Seq<u8>, y: Seq<u8>)
    ensures
        has_newline(x + y) <==> has_newline(x) || has_newline(y),
{
    if has_newline(x) {
        let i = choose|i: int| 0 <= i < x.len() && is_newline(#[trigger] x[i]);
        assert(is_newline((x + y)[i]));
    }
    if has_newline(y) {
        let i = choose|i: int| 0 <= i < y.len() && is_newline(#[trigger] y[i]);
        assert(is_newline((x + y)[x.len() + i]));
    }
    if has_newline(x + y) {
        let i = choose|i: int| 0 <= i < (x + y).len() && is_newline(#[trigger] (x + y)[i]);
        if i < x.len() {
            assert(is_newline(x[i]));
        } else {
            assert(is_newline(y[i - x.len()]));
        }
    }
}

/// The last newline of a concatenation lies in `y` when `y` has one, and at
/// `x`'s last newline otherwise.
pub proof fn lemma_line_split_concat(x: Seq<u8>, y: Seq<u8>)
    ensures
        line_split(x + y) == if has_newline(y) {
            x.len() + line_split(y)
        } else {
            line_split(x)
        },
    decreases y.len(),
{
    lemma_has_newline_concat(x, y);
    lemma_line_split_properties(y);
    if y.len() == 0 {
        assert(x + y =~= x);
    } else if is_newline(y.last()) {
        assert((x + y).last() == y.last());
    } else {
        lemma_line_split_concat(x, y.drop_last());
        assert((x + y).drop_last() =~= x + y.drop_last());
        lemma_has_newline_concat(x, y.drop_last());
        lemma_line_split_properties(y.drop_last());
        if has_newline(y) {
            let i = choose|i: int| 0 <= i < y.len() && is_newline(#[trigger] y[i]);
            assert(is_newline(y.drop_last()[i]));
        }
        if has_newline(y.drop_last()) {
            let i = choose|i: int|
                0 <= i < y.drop_last().len() && is_newline(#[trigger] y.drop_last()[i]);
            assert(is_newline(y[i]));
        }
    }
}

/// One past the index of the first newline in `s`, or `s.len()` when `s`
/// holds none: the boundary of the first message.
pub open spec fn first_line_end(s: Seq<u8>) -> int
    decreases s.len(),
{
    if s.len() == 0 {
        0
    } else if is_newline(s.first()) {
        1
    } else {
        1 + first_line_end(s.drop_first())
    }
}

/// `first_line_end` marks the first newline: it is in bounds and positive for
/// a nonempty sequence, the byte before it is the only candidate newline, and
/// it reaches the end exactly when `s` has no newline.
pub proof fn lemma_first_line_end_properties(s: Seq<u8>)
    ensures
        0 <= first_line_end(s) <= s.len(),
        s.len() > 0 ==> first_line_end(s) >= 1,
        has_newline(s) ==> is_newline(s[first_line_end(s) - 1]),
        forall|j: int| 0 <= j < first_line_end(s) - 1 ==> !is_newline(#[trigger] s[j]),
        !has_newline(s) ==> first_line_end(s) == s.len(),
        has_newline(s) ==> first_line_end(s) < s.len() || is_newline(s.last()),
    decreases s.len(),
{
    if s.len() == 0 {
    } else if is_newline(s.first()) {
    } else {
        let t = s.drop_first();
        lemma_first_line_end_properties(t);
        assert(forall|j: int| 0 <= j < t.len() ==> #[trigger] t[j] == s[j + 1]);
        lemma_has_newline_concat(seq![s.first()], t);
        assert(seq![s.first()] + t =~= s);
        if has_newline(seq![s.first()]) {
            let i = choose|i: int| 0 <= i < 1 && is_newline(#[trigger] seq![s.first()][i]);
            assert(is_newline(s.first()));
        }
        assert(has_newline(s) <==> has_newline(t));
        assert forall|j: int|
            0 <= j < first_line_end(s) - 1 implies !is_newline(#[trigger] s[j]) by {
            if j > 0 {
                assert(t[j - 1] == s[j]);
            }
        }
    }
}

/// Only one position can be "one past the first newline": a position whose
/// predecessor is a newline with none before it.
pub proof fn lemma_first_line_end_unique(s: Seq<u8>, e: int)
    requires
        1 <= e <= s.len(),
        is_newline(s[e - 1]),
        forall|j: int| 0 <= j < e - 1 ==> !is_newline(#[trigger] s[j]),
    ensures
        first_line_end(s) == e,
{
    lemma_first_line_end_properties(s);
    assert(has_newline(s));
    let f = first_line_end(s);
    if f < e {
        assert(!is_newline(s[f - 1]));
    }
    if f > e {
        assert(!is_newline(s[e - 1]));
    }
}

/// The newline-terminated messages of `s`, split in arrival order; bytes
/// after the last newline belong to no message.
pub open spec fn lines_of(s: Seq<u8>) -> Seq<Seq<u8>>
    decreases s.len(),
    via lines_of_decreases
{
    if !has_newline(s) {
        Seq::empty()
    } else {
        seq![s.take(first_line_end(s))] + lines_of(s.skip(first_line_end(s)))
    }
}

#[via_fn]
proof fn lines_of_decreases(s: Seq<u8>) {
    lemma_first_line_end_properties(s);
    if has_newline(s) {
        let i = choose|i: int| 0 <= i < s.len() && is_newline(#[trigger] s[i]);
    }
}

/// Every message of a split is a line: nonempty, newline-terminated, with no
/// newline anywhere before its end.
pub proof fn lemma_lines_shape(s: Seq<u8>)
    ensures
        forall|m: int|
            0 <= m < lines_of(s).len() ==> {
                let l = #[trigger] lines_of(s)[m];
                &&& l.len() >= 1
                &&& is_newline(l.last())
                &&& forall|j: int| 0 <= j < l.len() - 1 ==> !is_newline(#[trigger] l[j])
            },
    decreases s.len(),
{
    lemma_first_line_end_properties(s);
    if has_newline(s) {
        let e = first_line_end(s);
        let i = choose|i: int| 0 <= i < s.len() && is_newline(#[trigger] s[i]);
        lemma_lines_shape(s.skip(e));
        assert forall|m: int|
            0 <= m < lines_of(s).len() implies {
            let l = #[trigger] lines_of(s)[m];
            &&& l.len() >= 1
            &&& is_newline(l.last())
            &&& forall|j: int| 0 <= j < l.len() - 1 ==> !is_newline(#[trigger] l[j])
        } by {
            if m == 0 {
                let l = lines_of(s)[0];
                assert(l =~= s.take(e));
                assert(l.last() == s[e - 1]);
                assert forall|j: int| 0 <= j < l.len() - 1 implies !is_newline(
                    #[trigger] l[j]) by {
                    assert(l[j] == s[j]);
                }
            } else {
                assert(lines_of(s)[m] == lines_of(s.skip(e))[m - 1]);
            }
        }
    }
}

/// Splitting a concatenation whose first part ends on a line boundary splits
/// the parts separately.
pub proof fn lemma_lines_of_boundary_concat(x: Seq<u8>, y: Seq<u8>)
    requires
        line_split(x) == x.len(),
    ensures
        lines_of(x + y) == lines_of(x) + lines_of(y),
    decreases x.len(),
{
    lemma_line_split_properties(x);
    lemma_has_newline_concat(x, y);
    lemma_first_line_end_properties(x);
    lemma_first_line_end_properties(x + y);
    if x.len() == 0 {
        assert(x + y =~= y);
        assert(!has_newline(x));
        assert(lines_of(x) + lines_of(y) =~= lines_of(y));
    } else {
        assert(is_newline(x.last()));
        assert(has_newline(x));
        let e = first_line_end(x);
        assert(is_newline(x[e - 1]));
        assert((x + y)[e - 1] == x[e - 1]);
        assert forall|j: int| 0 <= j < e - 1 implies !is_newline(#[trigger] (x + y)[j]) by {
            assert((x + y)[j] == x[j]);
        }
        lemma_first_line_end_unique(x + y, e);
        assert((x + y).take(e) =~= x.take(e));
        assert((x + y).skip(e) =~= x.skip(e) + y);
        lemma_line_split_concat(x.take(e), x.skip(e));
        assert(x.take(e) + x.skip(e) =~= x);
        lemma_line_split_properties(x.take(e));
        if has_newline(x.skip(e)) {
            assert(line_split(x.skip(e)) == x.len() - e);
        } else {
            assert(line_split(x) == line_split(x.take(e)));
            assert(line_split(x.take(e)) <= e);
            assert(e == x.len());
            assert(x.skip(e) =~= Seq::<u8>::empty());
        }
        assert(line_split(x.skip(e)) == x.skip(e).len());
        lemma_lines_of_boundary_concat(x.skip(e), y);
        assert(lines_of(x + y) == seq![x.take(e)] + (lines_of(x.skip(e)) + lines_of(y)));
        assert(seq![x.take(e)] + (lines_of(x.skip(e)) + lines_of(y)) =~= (seq![x.take(e)]
            + lines_of(x.skip(e))) + lines_of(y));
    }
}

/// The messages of a split, joined back together in order.
pub open spec fn concat_lines(ls: Seq<Seq<u8>>) -> Seq<u8>
    decreases ls.len(),
{
    if ls.len() == 0 {
        Seq::empty()
    } else {
        ls.first() + concat_lines(ls.drop_first())
    }
}

/// Splitting loses and invents nothing: joining the messages of `s` yields
/// exactly the bytes up to `s`'s last line boundary.
pub proof fn lemma_lines_of_complete(s: Seq<u8>)
    ensures
        concat_lines(lines_of(s)) == s.take(line_split(s)),
    decreases s.len(),
{
    lemma_line_split_properties(s);
    lemma_first_line_end_properties(s);
    if !has_newline(s) {
        assert(concat_lines(lines_of(s)) =~= s.take(0));
    } else {
        let e = first_line_end(s);
        let k = line_split(s);
        let ls = lines_of(s);
        assert(ls.first() == s.take(e));
        assert(ls.drop_first() =~= lines_of(s.skip(e)));
        lemma_lines_of_complete(s.skip(e));
        lemma_line_split_concat(s.take(e), s.skip(e));
        assert(s.take(e) + s.skip(e) =~= s);
        lemma_line_split_properties(s.take(e));
        lemma_line_split_properties(s.skip(e));
        assert(is_newline(s[e - 1]));
        assert(e <= k);
        if has_newline(s.skip(e)) {
            assert(k == e + line_split(s.skip(e)));
        } else {
            assert(k == line_split(s.take(e)));
            assert(k <= e);
        }
        assert(line_split(s.skip(e)) == k - e);
        assert(s.take(e) + s.skip(e).take(k - e) =~= s.take(k));
        assert(concat_lines(lines_of(s)) =~= s.take(k));
    }
}

/// Bytes after the last newline contribute no message: splitting stops at the
/// last line boundary.
pub proof fn lemma_lines_of_ignores_tail(t: Seq<u8>)
    ensures
        lines_of(t) == lines_of(t.take(line_split(t))),
{
    let k = line_split(t);
    lemma_line_split_properties(t);
    let chunk = t.take(k);
    let rest = t.skip(k);
    assert(chunk + rest =~= t);
    lemma_line_split_concat(chunk, rest);
    lemma_line_split_properties(chunk);
    if has_newline(rest) {
        let i = choose|i: int| 0 <= i < rest.len() && is_newline(#[trigger] rest[i]);
        assert(rest[i] == t[k + i]);
        assert(false);
    }
    assert(line_split(t) == line_split(chunk));
    lemma_lines_of_boundary_concat(chunk, rest);
    assert(lines_of(chunk) + lines_of(rest) =~= lines_of(chunk));
}

/// The chunk dispatched when read `d` arrives with `p` pending: everything up
/// to and including the last newline of `p + d`, or nothing when there is no
/// newline.
pub open spec fn step_line(p: Seq<u8>, d: Seq<u8>) -> Seq<u8> {
    (p + d).take(line_split(p + d))
}

/// A step drops its bytes only when the buffer has filled to capacity without
/// any newline.
pub open spec fn step_drops(p: Seq<u8>, d: Seq<u8>) -> bool {
    !has_newline(p + d) && (p + d).len() >= BUFFER_SIZE
}

/// The bytes left pending after read `d` arrives with `p` pending: what
/// follows the last newline, or nothing when a full buffer held no newline
/// at all.
pub open spec fn step_pending(p: Seq<u8>, d: Seq<u8>) -> Seq<u8> {
    let t = p + d;
    if has_newline(t) {
        t.skip(line_split(t))
    } else if t.len() >= BUFFER_SIZE {
        Seq::empty()
    } else {
        t
    }
}

/// A dropped read contributes nothing: its bytes are neither dispatched nor
/// carried into the next read.
pub proof fn lemma_drop_step(p: Seq<u8>, d: Seq<u8>)
    requires
        step_drops(p, d),
    ensures
        step_line(p, d) == Seq::<u8>::empty(),
        step_pending(p, d) == Seq::<u8>::empty(),
{
    lemma_line_split_properties(p + d);
    assert(step_line(p, d) =~= Seq::<u8>::empty());
}

/// All bytes of a run of reads, in arrival order.
pub open spec fn concat_all(reads: Seq<Seq<u8>>) -> Seq<u8>
    decreases reads.len(),
{
    if reads.len() == 0 {
        Seq::empty()
    } else {
        concat_all(reads.drop_last()) + reads.last()
    }
}

/// The bytes still pending after a run of reads, starting from an empty
/// buffer.
pub open spec fn run_pending(reads: Seq<Seq<u8>>) -> Seq<u8>
    decreases reads.len(),
{
    if reads.len() == 0 {
        Seq::empty()
    } else {
        step_pending(run_pending(reads.drop_last()), reads.last())
    }
}

/// All bytes handed to the dispatcher over a run of reads, in dispatch order.
pub open spec fn run_output(reads: Seq<Seq<u8>>) -> Seq<u8>
    decreases reads.len(),
{
    if reads.len() == 0 {
        Seq::empty()
    } else {
        run_output(reads.drop_last()) + step_line(run_pending(reads.drop_last()), reads.last())
    }
}

/// Every message broadcast over a run of reads, in dispatch order: each
/// dispatched chunk contributes its newline-terminated lines.
pub open spec fn run_messages(reads: Seq<Seq<u8>>) -> Seq<Seq<u8>>
    decreases reads.len(),
{
    if reads.len() == 0 {
        Seq::empty()
    } else {
        run_messages(reads.drop_last()) + lines_of(
            step_line(run_pending(reads.drop_last()), reads.last()),
        )
    }
}

/// True iff no read of the run fills the buffer without a newline, so no
/// bytes are ever dropped.
pub open spec fn no_drop(reads: Seq<Seq<u8>>) -> bool {
    forall|k: int|
        0 <= k < reads.len() ==> !step_drops(run_pending(#[trigger] reads.take(k)), reads[k])
}

/// What a step leaves pending never holds a newline.
pub proof fn lemma_step_pending_no_newline(p: Seq<u8>, d: Seq<u8>)
    requires
        !has_newline(p),
    ensures
        !has_newline(step_pending(p, d)),
{
    let t = p + d;
    lemma_line_split_properties(t);
    if has_newline(t) {
        let r = t.skip(line_split(t));
        if has_newline(r) {
            let i = choose|i: int| 0 <= i < r.len() && is_newline(#[trigger] r[i]);
            assert(r[i] == t[line_split(t) + i]);
        }
    }
}

/// Framing law: over any run of reads that never fills the buffer without a
/// newline, the bytes handed to the dispatcher are exactly the complete lines
/// of the concatenated input, in arrival order, and the pending remainder is
/// exactly the newline-less tail of that input, held back for later reads.
#[verifier::rlimit(80)]
pub proof fn lemma_framing_run(reads: Seq<Seq<u8>>)
    requires
        no_drop(reads),
    ensures
        run_output(reads) == concat_all(reads).take(line_split(concat_all(reads))),
        run_pending(reads) == concat_all(reads).skip(line_split(concat_all(reads))),
        run_output(reads) + run_pending(reads) == concat_all(reads),
        !has_newline(run_pending(reads)),
        run_output(reads).len() > 0 ==> is_newline(run_output(reads).last()),
    decreases reads.len(),
{
    if reads.len() == 0 {
        assert(run_output(reads) =~= concat_all(reads).take(line_split(concat_all(reads))));
        assert(run_pending(reads) =~= concat_all(reads).skip(line_split(concat_all(reads))));
        assert(run_output(reads) + run_pending(reads) =~= concat_all(reads));
    } else {
        let rs = reads.drop_last();
        let d = reads.last();
        assert forall|k: int|
            0 <= k < rs.len() implies !step_drops(run_pending(#[trigger] rs.take(k)), rs[k]) by {
            assert(rs.take(k) =~= reads.take(k));
            assert(!step_drops(run_pending(reads.take(k)), reads[k]));
        }
        lemma_framing_run(rs);
        let a = concat_all(rs);
        let p = run_pending(rs);
        let ka = line_split(a);
        let t = p + d;
        let tt = concat_all(reads);
        lemma_line_split_properties(a);
        lemma_line_split_properties(d);
        lemma_line_split_properties(t);
        lemma_line_split_properties(tt);
        lemma_has_newline_concat(p, d);
        lemma_has_newline_concat(a, d);
        lemma_line_split_concat(p, d);
        lemma_line_split_concat(a, d);
        lemma_step_pending_no_newline(p, d);
        assert(tt == a + d);
        if has_newline(d) {
            let kd = line_split(d);
            assert(has_newline(t));
            assert(line_split(t) == p.len() + kd);
            assert(line_split(tt) == a.len() + kd);
            assert(run_output(reads) == run_output(rs) + t.take(p.len() + kd));
            assert(t.take(p.len() + kd) =~= p + d.take(kd));
            assert(a.take(ka) + (a.skip(ka) + d.take(kd)) =~= a + d.take(kd));
            assert(tt.take(line_split(tt)) =~= a + d.take(kd));
            assert(run_output(reads) =~= tt.take(line_split(tt)));
            assert(run_pending(reads) == t.skip(p.len() + kd));
            assert(t.skip(p.len() + kd) =~= d.skip(kd));
            assert(tt.skip(line_split(tt)) =~= d.skip(kd));
        } else {
            assert(!has_newline(t));
            assert(reads.take(reads.len() - 1) =~= rs);
            assert(!step_drops(run_pending(reads.take(reads.len() - 1)), reads[reads.len() - 1]));
            assert(!step_drops(p, d));
            assert(t.len() < BUFFER_SIZE);
            assert(run_pending(reads) == t);
            assert(line_split(t) == 0);
            assert(step_line(p, d) =~= Seq::<u8>::empty());
            assert(run_output(reads) =~= run_output(rs));
            assert(line_split(tt) == ka);
            assert(tt.take(ka) =~= a.take(ka));
            assert(run_output(reads) =~= tt.take(line_split(tt)));
            assert(tt.skip(ka) =~= a.skip(ka) + d);
            assert(run_pending(reads) =~= tt.skip(line_split(tt)));
        }
        assert(run_output(reads) + run_pending(reads) =~= tt);
        if run_output(reads).len() > 0 {
            assert(run_output(reads).last() == tt[line_split(tt) - 1]);
        }
    }
}

/// Framing law, message by message: over any run of reads that never fills
/// the buffer without a newline, the sequence of broadcast messages equals
/// the sequence obtained by splitting the concatenated input on newline
/// boundaries — the newline-less remainder is held back and contributes no
/// message.
pub proof fn lemma_framing_messages(reads: Seq<Seq<u8>>)
    requires
        no_drop(reads),
    ensures
        run_messages(reads) == lines_of(concat_all(reads)),
        concat_lines(run_messages(reads)) == run_output(reads),
    decreases reads.len(),
{
    lemma_framing_run(reads);
    lemma_lines_of_complete(concat_all(reads));
    if reads.len() == 0 {
        assert(run_messages(reads) =~= lines_of(concat_all(reads)));
    } else {
        let rs = reads.drop_last();
        let d = reads.last();
        assert forall|k: int|
            0 <= k < rs.len() implies !step_drops(run_pending(#[trigger] rs.take(k)), rs[k]) by {
            assert(rs.take(k) =~= reads.take(k));
            assert(!step_drops(run_pending(reads.take(k)), reads[k]));
        }
        lemma_framing_messages(rs);
        lemma_framing_run(rs);
        let a = concat_all(rs);
        let p = run_pending(rs);
        let ka = line_split(a);
        let t = p + d;
        let tt = concat_all(reads);
        lemma_line_split_properties(a);
        lemma_line_split_properties(t);
        assert(a.take(ka) + p =~= a);
        assert(tt == a + d);
        assert(a.take(ka) + t =~= tt);
        lemma_line_split_concat(a.take(ka), p);
        assert(line_split(a.take(ka)) == ka);
        lemma_lines_of_boundary_concat(a.take(ka), t);
        lemma_lines_of_boundary_concat(a.take(ka), p);
        assert(lines_of(p) =~= Seq::<Seq<u8>>::empty());
        assert(lines_of(a) =~= lines_of(a.take(ka)));
        lemma_lines_of_ignores_tail(t);
        assert(run_messages(reads) == run_messages(rs) + lines_of(step_line(p, d)));
        assert(lines_of(tt) == lines_of(a.take(ka)) + lines_of(t));
        assert(run_messages(reads) =~= lines_of(tt));
    }
}

} // verus!
