//! Laws of the wire format: what the writer writes, the reader reads back.
use vstd::prelude::*;
use vstd::utf8::{decode_utf8, encode_utf8, encode_utf8_decode_utf8, encode_utf8_valid_utf8, valid_utf8};
use crate::ascii::{COLON, CR, DOLLAR, LF, MINUS, ONE, PLUS, STAR};
use crate::decimal::{atoi_value, decimal, is_digit, lemma_atoi_decimal, lemma_decimal_bytes};
use crate::connection::parse_outcome;
use crate::frame::{Error, SpecFrame};
use crate::wire::{
    check_at, check_elems, crlf, decimal_at, skip_at, frame_bytes, line_at, line_end, read_at, read_elems,
    value_bytes, value_writable, values_bytes, writable, Step,
};

verus! {

/// No `\r\n` stands inside `b`.
pub open spec fn no_crlf(b: Seq<u8>) -> bool {
    forall|i: int| 0 <= i && i + 1 < b.len() ==> !(#[trigger] b[i] == CR && b[i + 1] == LF)
}

/// A frame that an array may hold and that reads back as itself: not
/// `Null` (which the writer sends as an error), and no `\r\n` inside a
/// simple string or error.
pub open spec fn value_round_trips(f: SpecFrame) -> bool {
    match f {
        SpecFrame::Simple(text) => no_crlf(encode_utf8(text)),
        SpecFrame::Error(text) => no_crlf(encode_utf8(text)),
        SpecFrame::Null => false,
        SpecFrame::Array(_) => false,
        _ => true,
    }
}

/// A frame that reads back as itself once written.
pub open spec fn round_trips(f: SpecFrame) -> bool {
    match f {
        SpecFrame::Array(items) => forall|i: int|
            0 <= i < items.len() ==> value_round_trips(#[trigger] items[i]),
        _ => value_round_trips(f),
    }
}

/// `x` stands in `s` from `p`.
pub open spec fn stands_at(s: Seq<u8>, p: int, x: Seq<u8>) -> bool {
    0 <= p && p + x.len() <= s.len() && s.subrange(p, p + x.len()) == x
}

proof fn lemma_stands_split(s: Seq<u8>, p: int, a: Seq<u8>, b: Seq<u8>)
    requires
        stands_at(s, p, a + b),
    ensures
        stands_at(s, p, a),
        stands_at(s, p + a.len(), b),
{
    let ab = a + b;
    let whole = s.subrange(p, p + ab.len());
    assert forall|i: int| 0 <= i < a.len() implies #[trigger] s.subrange(p, p + a.len())[i]
        == a[i] by {
        assert(whole[i] == ab[i]);
    }
    assert forall|i: int| 0 <= i < b.len() implies #[trigger] s.subrange(
        p + a.len(),
        p + a.len() + b.len(),
    )[i] == b[i] by {
        assert(whole[a.len() + i] == ab[a.len() + i]);
    }
    assert(s.subrange(p, p + a.len()) =~= a);
    assert(s.subrange(p + a.len(), p + a.len() + b.len()) =~= b);
}

proof fn lemma_line_end_found(s: Seq<u8>, from: int, e: int)
    requires
        from <= e,
        e + 1 < s.len(),
        s[e] == CR,
        s[e + 1] == LF,
        forall|i: int| from <= i < e ==> !(#[trigger] s[i] == CR && s[i + 1] == LF),
    ensures
        line_end(s, from) == Some(e),
    decreases e - from,
{
    if from < e {
        lemma_line_end_found(s, from + 1, e);
    }
}

/// A line followed by `\r\n` is read as that line.
proof fn lemma_line_at(s: Seq<u8>, p: int, line: Seq<u8>)
    requires
        stands_at(s, p, line + crlf()),
        no_crlf(line),
    ensures
        line_at(s, p) == Step::Done(line, p + line.len() + 2),
{
    let e = p + line.len();
    lemma_stands_split(s, p, line, crlf());
    assert(s[e] == crlf()[0]);
    assert(s[e + 1] == crlf()[1]);
    assert forall|i: int| p <= i < e implies !(#[trigger] s[i] == CR && s[i + 1] == LF) by {
        assert(s[i] == line[i - p]);
        if i + 1 < e {
            assert(s[i + 1] == line[i + 1 - p]);
        }
    }
    lemma_line_end_found(s, p, e);
    assert(s.subrange(p, e) == line);
}

proof fn lemma_decimal_no_crlf(v: int)
    ensures
        no_crlf(decimal(v)),
        is_digit(decimal(v)[0]) || decimal(v)[0] == MINUS,
        v >= 0 ==> is_digit(decimal(v)[0]),
{
    lemma_decimal_bytes(v);
    let d = decimal(v);
    assert forall|i: int| 0 <= i && i + 1 < d.len() implies !(#[trigger] d[i] == CR && d[i + 1]
        == LF) by {
        assert(is_digit(d[i]) || d[i] == MINUS);
    }
    if v >= 0 {
        assert(is_digit(d[0]) || d[0] == MINUS);
        crate::decimal::lemma_decimal_nonneg_first(v);
    }
}

/// A decimal line is read as its number.
proof fn lemma_decimal_at(s: Seq<u8>, p: int, v: i64)
    requires
        stands_at(s, p, decimal(v as int) + crlf()),
    ensures
        decimal_at(s, p) == Step::Done(v, p + decimal(v as int).len() + 2),
{
    lemma_decimal_no_crlf(v as int);
    lemma_line_at(s, p, decimal(v as int));
    lemma_atoi_decimal(v);
}

proof fn lemma_byte_at(s: Seq<u8>, p: int, b: u8, rest: Seq<u8>)
    requires
        stands_at(s, p, seq![b] + rest),
    ensures
        s[p] == b,
        stands_at(s, p + 1, rest),
{
    lemma_stands_split(s, p, seq![b], rest);
    assert(s.subrange(p, p + 1)[0] == b);
}

/// A frame that is not an array, written at `p`, is checked and read back
/// as itself.
proof fn lemma_value_reads(s: Seq<u8>, p: int, f: SpecFrame)
    requires
        value_writable(f),
        value_round_trips(f),
        stands_at(s, p, value_bytes(f)),
    ensures
        value_bytes(f).len() > 0,
        read_at(s, p) == Step::Done(f, p + value_bytes(f).len()),
        check_at(s, p) == Step::Done((), p + value_bytes(f).len()),
{
    let end = p + value_bytes(f).len();
    match f {
        SpecFrame::Simple(text) => {
            let body = encode_utf8(text);
            assert(value_bytes(f) =~= seq![PLUS] + (body + crlf()));
            lemma_byte_at(s, p, PLUS, body + crlf());
            lemma_line_at(s, p + 1, body);
            encode_utf8_valid_utf8(text);
            encode_utf8_decode_utf8(text);
        },
        SpecFrame::Error(text) => {
            let body = encode_utf8(text);
            assert(value_bytes(f) =~= seq![MINUS] + (body + crlf()));
            lemma_byte_at(s, p, MINUS, body + crlf());
            lemma_line_at(s, p + 1, body);
            encode_utf8_valid_utf8(text);
            encode_utf8_decode_utf8(text);
        },
        SpecFrame::Integer(v) => {
            assert(value_bytes(f) =~= seq![COLON] + (decimal(v as int) + crlf()));
            lemma_byte_at(s, p, COLON, decimal(v as int) + crlf());
            lemma_decimal_at(s, p + 1, v);
        },
        SpecFrame::Bulk(data) => {
            let n = data.len() as i64;
            let head = decimal(n as int) + crlf();
            assert(value_bytes(f) =~= seq![DOLLAR] + (head + (data + crlf())));
            lemma_byte_at(s, p, DOLLAR, head + (data + crlf()));
            lemma_stands_split(s, p + 1, head, data + crlf());
            lemma_decimal_at(s, p + 1, n);
            let r = p + 1 + head.len();
            lemma_stands_split(s, r, data, crlf());
            lemma_decimal_no_crlf(n as int);
            lemma_stands_split(s, p + 1, decimal(n as int), crlf());
            assert(s[p + 1] == decimal(n as int)[0]);
            assert(s.subrange(r, r + n) == data);
        },
        _ => {},
    }
}

proof fn lemma_values_bytes_front(items: Seq<SpecFrame>)
    requires
        items.len() > 0,
    ensures
        values_bytes(items) == value_bytes(items[0]) + values_bytes(items.drop_first()),
    decreases items.len(),
{
    if items.len() == 1 {
        assert(items.drop_last() =~= Seq::<SpecFrame>::empty());
        assert(items.drop_first() =~= Seq::<SpecFrame>::empty());
        assert(values_bytes(items) =~= value_bytes(items[0]) + values_bytes(items.drop_first()));
    } else {
        let dl = items.drop_last();
        lemma_values_bytes_front(dl);
        assert(items.drop_first().drop_last() =~= dl.drop_first());
        assert(dl[0] == items[0]);
        assert(items.drop_first().last() == items.last());
        assert(values_bytes(items) =~= value_bytes(items[0]) + values_bytes(items.drop_first()));
    }
}

/// Frames written one after the other from `p` are checked and read back as
/// themselves.
proof fn lemma_elems_read(s: Seq<u8>, p: int, items: Seq<SpecFrame>)
    requires
        forall|i: int| 0 <= i < items.len() ==> value_writable(#[trigger] items[i]),
        forall|i: int| 0 <= i < items.len() ==> value_round_trips(#[trigger] items[i]),
        stands_at(s, p, values_bytes(items)),
    ensures
        read_elems(s, p, items.len() as int) == Step::Done(items, p + values_bytes(items).len()),
        check_elems(s, p, items.len() as int) == Step::Done((), p + values_bytes(items).len()),
    decreases items.len(),
{
    if items.len() > 0 {
        let first = items[0];
        let rest = items.drop_first();
        lemma_values_bytes_front(items);
        lemma_stands_split(s, p, value_bytes(first), values_bytes(rest));
        lemma_value_reads(s, p, first);
        let p1 = p + value_bytes(first).len();
        assert forall|i: int| 0 <= i < rest.len() implies value_writable(#[trigger] rest[i])
            && value_round_trips(rest[i]) by {
            assert(rest[i] == items[i + 1]);
        }
        lemma_elems_read(s, p1, rest);
        assert(seq![first] + rest =~= items);
    } else {
        assert(items =~= Seq::<SpecFrame>::empty());
    }
}

/// A frame the writer can send, written at `p`, is checked and read back as
/// itself.
proof fn lemma_frame_reads(s: Seq<u8>, p: int, f: SpecFrame)
    requires
        writable(f),
        round_trips(f),
        stands_at(s, p, frame_bytes(f)),
    ensures
        read_at(s, p) == Step::Done(f, p + frame_bytes(f).len()),
        check_at(s, p) == Step::Done((), p + frame_bytes(f).len()),
{
    match f {
        SpecFrame::Array(items) => {
            let n = items.len() as i64;
            let head = decimal(n as int) + crlf();
            assert(frame_bytes(f) =~= seq![STAR] + (head + values_bytes(items)));
            lemma_byte_at(s, p, STAR, head + values_bytes(items));
            lemma_stands_split(s, p + 1, head, values_bytes(items));
            lemma_decimal_at(s, p + 1, n);
            lemma_decimal_no_crlf(n as int);
            lemma_stands_split(s, p + 1, decimal(n as int), crlf());
            assert(s[p + 1] == decimal(n as int)[0]);
            lemma_elems_read(s, p + 1 + head.len(), items);
        },
        _ => {
            lemma_value_reads(s, p, f);
        },
    }
}

/// What the writer writes for a frame, the reader reads back as that frame,
/// ending just after its bytes, whatever stands before and after them; the
/// check finds the same end. This holds of every frame that `writable`
/// admits, except `Null` (written as an error) and simple strings or errors
/// whose UTF-8 bytes hold `\r\n` (the line ends there).
pub proof fn law_read_back_written(f: SpecFrame, before: Seq<u8>, after: Seq<u8>)
    requires
        writable(f),
        round_trips(f),
    ensures
        read_at(before + frame_bytes(f) + after, before.len() as int) == Step::Done(
            f,
            (before.len() + frame_bytes(f).len()) as int,
        ),
        check_at(before + frame_bytes(f) + after, before.len() as int) == Step::Done(
            (),
            (before.len() + frame_bytes(f).len()) as int,
        ),
{
    let s = before + frame_bytes(f) + after;
    assert(s.subrange(before.len() as int, (before.len() + frame_bytes(f).len()) as int) =~= frame_bytes(f));
    lemma_frame_reads(s, before.len() as int, f);
}

/// `s1` and `s2` hold the same bytes below `q`, and both reach `q`.
pub open spec fn agree_below(s1: Seq<u8>, s2: Seq<u8>, q: int) -> bool {
    &&& q <= s1.len()
    &&& q <= s2.len()
    &&& forall|i: int| 0 <= i < q ==> #[trigger] s1[i] == s2[i]
}

proof fn lemma_line_end_agree(s1: Seq<u8>, s2: Seq<u8>, from: int, q: int)
    requires
        line_end(s1, from) matches Some(e) && e + 2 <= q,
        agree_below(s1, s2, q),
        0 <= from,
    ensures
        line_end(s2, from) == line_end(s1, from),
    decreases s1.len() - from,
{
    crate::wire::lemma_line_end(s1, from);
    let e = line_end(s1, from)->0;
    assert(s1[from] == s2[from] && s1[from + 1] == s2[from + 1]);
    if from < e {
        lemma_line_end_agree(s1, s2, from + 1, q);
    }
}

/// A decimal line that does not start with `-` holds a number that is not
/// negative.
proof fn lemma_decimal_at_nonneg(s: Seq<u8>, p: int)
    requires
        0 <= p < s.len(),
        s[p] != MINUS,
    ensures
        decimal_at(s, p) matches Step::Done(n, _) ==> n >= 0,
{
    crate::wire::lemma_line_end(s, p);
    if let Some(e) = line_end(s, p) {
        let line = s.subrange(p, e);
        if line.len() > 0 {
            assert(line[0] == s[p]);
        }
    }
}

proof fn lemma_decimal_at_agree(s1: Seq<u8>, s2: Seq<u8>, p: int, q: int)
    requires
        decimal_at(s1, p) matches Step::Done(_, r) && r <= q,
        agree_below(s1, s2, q),
        0 <= p,
    ensures
        decimal_at(s2, p) == decimal_at(s1, p),
        line_at(s2, p) == line_at(s1, p),
{
    lemma_line_end_agree(s1, s2, p, q);
    crate::wire::lemma_line_end(s1, p);
    let e = line_end(s1, p)->0;
    assert(s1.subrange(p, e) =~= s2.subrange(p, e));
}

proof fn lemma_line_at_agree(s1: Seq<u8>, s2: Seq<u8>, p: int, q: int)
    requires
        line_at(s1, p) matches Step::Done(_, r) && r <= q,
        agree_below(s1, s2, q),
        0 <= p,
    ensures
        line_at(s2, p) == line_at(s1, p),
{
    lemma_line_end_agree(s1, s2, p, q);
    crate::wire::lemma_line_end(s1, p);
    let e = line_end(s1, p)->0;
    assert(s1.subrange(p, e) =~= s2.subrange(p, e));
}

proof fn lemma_check_agree(s1: Seq<u8>, s2: Seq<u8>, p: int, q: int)
    requires
        check_at(s1, p) == Step::Done((), q),
        agree_below(s1, s2, q),
    ensures
        check_at(s2, p) == Step::Done((), q),
    decreases s1.len() - p, 0int,
{
    let tag = s1[p];
    crate::wire::lemma_line_end(s1, p + 1);
    if tag == PLUS || tag == MINUS {
        lemma_line_at_agree(s1, s2, p + 1, q);
    } else if tag == COLON {
        lemma_decimal_at_agree(s1, s2, p + 1, q);
    } else if s1[p + 1] != MINUS {
        assert(tag == DOLLAR || tag == STAR);
        lemma_decimal_at_nonneg(s1, p + 1);
        let r = decimal_at(s1, p + 1)->Done_1;
        let n = decimal_at(s1, p + 1)->Done_0;
        lemma_elems_done_bound(s1, r, n as int);
        assert(s2[p + 1] == s1[p + 1]);
        lemma_decimal_at_agree(s1, s2, p + 1, q);
        if tag == STAR {
            lemma_elems_agree(s1, s2, r, n as int, q);
        }
    } else {
        assert(s2[p + 1] == s1[p + 1]);
    }
}

proof fn lemma_elems_agree(s1: Seq<u8>, s2: Seq<u8>, p: int, n: int, q: int)
    requires
        check_elems(s1, p, n) == Step::Done((), q),
        agree_below(s1, s2, q),
    ensures
        check_elems(s2, p, n) == Step::Done((), q),
    decreases s1.len() - p, 1int,
{
    if n > 0 {
        if let Step::Done(u, r) = check_at(s1, p) {
            assert(u == ());
            if p < r <= s1.len() {
                lemma_elems_done_bound(s1, r, n - 1);
                lemma_check_agree(s1, s2, p, r);
                lemma_elems_agree(s1, s2, r, n - 1, q);
            }
        }
    }
}

proof fn lemma_elems_done_bound(s: Seq<u8>, p: int, n: int)
    ensures
        check_elems(s, p, n) matches Step::Done(_, q) ==> p <= q && (p <= s.len() ==> q <= s.len()),
    decreases s.len() - p, n,
{
    if n > 0 {
        if let Step::Done(_, r) = check_at(s, p) {
            if p < r <= s.len() {
                lemma_elems_done_bound(s, r, n - 1);
            }
        }
    }
}

proof fn lemma_read_agree(s1: Seq<u8>, s2: Seq<u8>, p: int, f: SpecFrame, q: int)
    requires
        read_at(s1, p) == Step::Done(f, q),
        agree_below(s1, s2, q),
    ensures
        read_at(s2, p) == Step::Done(f, q),
    decreases s1.len() - p, 0int,
{
    let tag = s1[p];
    crate::wire::lemma_line_end(s1, p + 1);
    if tag == PLUS || tag == MINUS {
        lemma_line_at_agree(s1, s2, p + 1, q);
    } else if tag == COLON {
        lemma_decimal_at_agree(s1, s2, p + 1, q);
    } else {
        assert(tag == DOLLAR || tag == STAR);
        let r = decimal_at(s1, p + 1)->Done_1;
        let n = decimal_at(s1, p + 1)->Done_0;
        lemma_read_elems_bound(s1, r, n as int);
        lemma_decimal_at_agree(s1, s2, p + 1, q);
        if n >= 0 && tag == STAR {
            lemma_read_elems_agree(s1, s2, r, n as int, f->Array_0, q);
        } else if n >= 0 {
            assert(s1.subrange(r, r + n) =~= s2.subrange(r, r + n));
        }
    }
}

proof fn lemma_read_elems_agree(
    s1: Seq<u8>,
    s2: Seq<u8>,
    p: int,
    n: int,
    items: Seq<SpecFrame>,
    q: int,
)
    requires
        read_elems(s1, p, n) == Step::Done(items, q),
        agree_below(s1, s2, q),
    ensures
        read_elems(s2, p, n) == Step::Done(items, q),
    decreases s1.len() - p, 1int,
{
    if n > 0 {
        if let Step::Done(f, r) = read_at(s1, p) {
            if p < r <= s1.len() {
                lemma_read_elems_bound(s1, r, n - 1);
                lemma_read_agree(s1, s2, p, f, r);
                let rest = read_elems(s1, r, n - 1)->Done_0;
                lemma_read_elems_agree(s1, s2, r, n - 1, rest, q);
            }
        }
    }
}

/// A checked frame starts inside the bytes and ends after its start, at
/// most at their end.
proof fn lemma_check_done_bound(s: Seq<u8>, p: int)
    ensures
        check_at(s, p) matches Step::Done(_, q) ==> 0 <= p < q <= s.len(),
{
    crate::wire::lemma_line_end(s, p + 1);
    if 0 <= p < s.len() && s[p] == STAR && p + 1 < s.len() && s[p + 1] != MINUS {
        if let Step::Done(n, r) = decimal_at(s, p + 1) {
            lemma_elems_done_bound(s, r, n as int);
        }
    }
}

/// The reader stopped because the bytes ran out.
pub open spec fn is_incomplete<T>(st: Step<T>) -> bool {
    st matches Step::Fail(Error::IncompleteFrame, _)
}

proof fn lemma_line_end_cut(s: Seq<u8>, from: int, k: int)
    requires
        line_end(s, from) matches Some(e) && k < e + 2,
        0 <= from,
        0 <= k <= s.len(),
    ensures
        line_end(s.take(k), from) is None,
    decreases s.len() - from,
{
    crate::wire::lemma_line_end(s, from);
    let t = s.take(k);
    if from + 1 < k {
        assert(t[from] == s[from] && t[from + 1] == s[from + 1]);
        lemma_line_end_cut(s, from + 1, k);
    }
}

proof fn lemma_check_cut(s: Seq<u8>, p: int, q: int, k: int)
    requires
        check_at(s, p) == Step::Done((), q),
        p <= k < q,
    ensures
        is_incomplete(check_at(s.take(k), p)),
    decreases s.len() - p, 0int,
{
    let t = s.take(k);
    crate::wire::lemma_line_end(s, p + 1);
    lemma_check_done_bound(s, p);
    if k > p {
        let tag = s[p];
        assert(t[p] == tag);
        if tag == PLUS || tag == MINUS || tag == COLON {
            lemma_line_end_cut(s, p + 1, k);
        } else if k > p + 1 {
            assert(tag == DOLLAR || tag == STAR);
            assert(t[p + 1] == s[p + 1]);
            if s[p + 1] != MINUS {
                lemma_decimal_at_nonneg(s, p + 1);
                let r = decimal_at(s, p + 1)->Done_1;
                let n = decimal_at(s, p + 1)->Done_0;
                if k < r {
                    lemma_line_end_cut(s, p + 1, k);
                } else {
                    assert(agree_below(s, t, k));
                    lemma_decimal_at_agree(s, t, p + 1, k);
                    if tag == STAR {
                        lemma_elems_cut(s, r, n as int, q, k);
                    }
                }
            }
        }
    }
}

proof fn lemma_elems_cut(s: Seq<u8>, p: int, n: int, q: int, k: int)
    requires
        check_elems(s, p, n) == Step::Done((), q),
        p <= k < q,
    ensures
        is_incomplete(check_elems(s.take(k), p, n)),
    decreases s.len() - p, 1int,
{
    let t = s.take(k);
    lemma_elems_done_bound(s, p, n);
    if n > 0 {
        if let Step::Done(u, r) = check_at(s, p) {
            assert(u == ());
            if p < r <= s.len() {
                if k < r {
                    lemma_check_cut(s, p, r, k);
                } else {
                    assert(agree_below(s, t, r));
                    lemma_check_agree(s, t, p, r);
                    lemma_elems_cut(s, r, n - 1, q, k);
                }
            }
        }
    }
}

/// A complete frame cut short anywhere after its start is incomplete to the
/// check: the reader waits for more bytes rather than refusing them.
pub proof fn law_check_cut_short(s: Seq<u8>, p: int, q: int, k: int)
    requires
        check_at(s, p) == Step::Done((), q),
        p <= k < q,
    ensures
        is_incomplete(check_at(s.take(k), p)),
{
    lemma_check_cut(s, p, q, k);
}

/// Bytes received after a decided check change nothing of it: a complete
/// frame keeps its end, and an `InvalidEncoding` answer stays, at the same
/// position.
pub proof fn law_check_extend(s: Seq<u8>, t: Seq<u8>, p: int, q: int)
    requires
        check_at(s, p) == Step::Done((), q) || check_at(s, p) == Step::<()>::Fail(
            Error::InvalidEncoding,
            q,
        ),
    ensures
        check_at(s + t, p) == check_at(s, p),
{
    if check_at(s, p) is Done {
        lemma_check_done_bound(s, p);
        assert(agree_below(s, s + t, q));
        lemma_check_agree(s, s + t, p, q);
    } else {
        lemma_check_inv_bound(s, p);
        assert(agree_below(s, s + t, q));
        lemma_check_inv_agree(s, s + t, p, q);
    }
}

/// An `InvalidEncoding` answer of the check is given after the line that
/// caused it, inside the bytes.
proof fn lemma_check_inv_bound(s: Seq<u8>, p: int)
    ensures
        check_at(s, p) matches Step::Fail(Error::InvalidEncoding, q) ==> 0 <= p < q <= s.len(),
    decreases s.len() - p, 0int,
{
    crate::wire::lemma_line_end(s, p + 1);
    if 0 <= p < s.len() && s[p] == STAR && p + 1 < s.len() && s[p + 1] != MINUS {
        if let Step::Done(n, r) = decimal_at(s, p + 1) {
            lemma_elems_inv_bound(s, r, n as int);
        }
    }
}

proof fn lemma_elems_inv_bound(s: Seq<u8>, p: int, n: int)
    ensures
        check_elems(s, p, n) matches Step::Fail(Error::InvalidEncoding, q) ==> p < q <= s.len(),
    decreases s.len() - p, 1int,
{
    if n > 0 {
        lemma_check_inv_bound(s, p);
        if let Step::Done(_, r) = check_at(s, p) {
            if p < r <= s.len() {
                lemma_elems_inv_bound(s, r, n - 1);
            }
        }
    }
}

proof fn lemma_check_inv_agree(s1: Seq<u8>, s2: Seq<u8>, p: int, q: int)
    requires
        check_at(s1, p) == Step::<()>::Fail(Error::InvalidEncoding, q),
        agree_below(s1, s2, q),
    ensures
        check_at(s2, p) == Step::<()>::Fail(Error::InvalidEncoding, q),
    decreases s1.len() - p, 0int,
{
    lemma_check_inv_bound(s1, p);
    crate::wire::lemma_line_end(s1, p + 1);
    let tag = s1[p];
    assert(s2[p] == tag);
    if tag == COLON {
        lemma_line_at_agree(s1, s2, p + 1, q);
    } else {
        assert(tag == DOLLAR || tag == STAR);
        match decimal_at(s1, p + 1) {
            Step::Done(n, r) => {
                lemma_elems_inv_bound(s1, r, n as int);
                assert(s2[p + 1] == s1[p + 1]);
                lemma_decimal_at_agree(s1, s2, p + 1, q);
                lemma_elems_inv_agree(s1, s2, r, n as int, q);
            },
            _ => {
                assert(s2[p + 1] == s1[p + 1]);
                lemma_line_at_agree(s1, s2, p + 1, q);
            },
        }
    }
}

proof fn lemma_elems_inv_agree(s1: Seq<u8>, s2: Seq<u8>, p: int, n: int, q: int)
    requires
        check_elems(s1, p, n) == Step::<()>::Fail(Error::InvalidEncoding, q),
        agree_below(s1, s2, q),
    ensures
        check_elems(s2, p, n) == Step::<()>::Fail(Error::InvalidEncoding, q),
    decreases s1.len() - p, 1int,
{
    match check_at(s1, p) {
        Step::Done(u, r) => {
            assert(u == ());
            lemma_elems_inv_bound(s1, r, n - 1);
            lemma_check_agree(s1, s2, p, r);
            lemma_elems_inv_agree(s1, s2, r, n - 1, q);
        },
        _ => {
            lemma_check_inv_agree(s1, s2, p, q);
        },
    }
}

/// Bytes that follow a frame change nothing of what is read from it.
pub proof fn law_read_extend(s: Seq<u8>, t: Seq<u8>, p: int, f: SpecFrame, q: int)
    requires
        read_at(s, p) == Step::Done(f, q),
    ensures
        read_at(s + t, p) == Step::Done(f, q),
{
    lemma_read_done_bound(s, p);
    assert(agree_below(s, s + t, q));
    lemma_read_agree(s, s + t, p, f, q);
}

/// A read frame starts inside the bytes and ends after its start, at most
/// at their end.
proof fn lemma_read_done_bound(s: Seq<u8>, p: int)
    ensures
        read_at(s, p) matches Step::Done(_, q) ==> 0 <= p < q <= s.len(),
{
    crate::wire::lemma_line_end(s, p + 1);
    if 0 <= p < s.len() && s[p] == STAR {
        if let Step::Done(n, r) = decimal_at(s, p + 1) {
            lemma_read_elems_bound(s, r, n as int);
        }
    }
}

proof fn lemma_read_elems_bound(s: Seq<u8>, p: int, n: int)
    ensures
        read_elems(s, p, n) matches Step::Done(_, q) ==> p <= q && (p <= s.len() ==> q
            <= s.len()),
    decreases s.len() - p, n,
{
    if n > 0 {
        if let Step::Done(_, r) = read_at(s, p) {
            if p < r <= s.len() {
                lemma_read_elems_bound(s, r, n - 1);
            }
        }
    }
}

/// Received bytes that start with what the writer wrote for a frame give
/// that frame as the next one, and keep what follows it.
pub proof fn law_parse_written(f: SpecFrame, after: Seq<u8>)
    requires
        writable(f),
        round_trips(f),
    ensures
        parse_outcome(frame_bytes(f) + after) == Step::Done(
            Some(f),
            frame_bytes(f).len() as int,
        ),
{
    let empty = Seq::<u8>::empty();
    law_read_back_written(f, empty, after);
    assert(empty + frame_bytes(f) + after =~= frame_bytes(f) + after);
}

/// Received bytes that hold only part of what the writer wrote for a frame
/// give no frame yet, and are kept whole.
pub proof fn law_parse_waits_for_rest(f: SpecFrame, k: int)
    requires
        writable(f),
        round_trips(f),
        0 <= k < frame_bytes(f).len(),
    ensures
        parse_outcome(frame_bytes(f).take(k)) == Step::Done(None::<SpecFrame>, 0),
{
    let empty = Seq::<u8>::empty();
    law_read_back_written(f, empty, empty);
    assert(empty + frame_bytes(f) + empty =~= frame_bytes(f));
    lemma_check_cut(frame_bytes(f), 0, frame_bytes(f).len() as int, k);
}

/// A frame taken from the received bytes uses up at least one of them and
/// no more than there are, so a reading loop moves forward.
pub proof fn law_parse_consumes(buf: Seq<u8>)
    ensures
        parse_outcome(buf) matches Step::Done(Some(_), n) ==> 0 < n <= buf.len(),
        parse_outcome(buf) matches Step::Done(None, n) ==> n == 0,
{
    lemma_check_done_bound(buf, 0);
}

/// The RESP encoding of a frame: `+` or `-` and the UTF-8 bytes of a simple
/// string or error, `:` and the decimal form of an integer, `$`, the length
/// and the bytes of a bulk string, `$-1` for `Null`, and `*`, the count and
/// the encodings of the items of an array, nested to any depth; each header
/// line ends with `\r\n`, and so does a bulk string's data.
pub open spec fn resp(f: SpecFrame) -> Seq<u8>
    decreases f,
{
    match f {
        SpecFrame::Simple(text) => seq![PLUS] + encode_utf8(text) + crlf(),
        SpecFrame::Error(text) => seq![MINUS] + encode_utf8(text) + crlf(),
        SpecFrame::Integer(v) => seq![COLON] + decimal(v as int) + crlf(),
        SpecFrame::Bulk(data) => seq![DOLLAR] + decimal(data.len() as int) + crlf() + data + crlf(),
        SpecFrame::Null => seq![DOLLAR] + decimal(-1) + crlf(),
        SpecFrame::Array(items) => seq![STAR] + decimal(items.len() as int) + crlf() + resp_seq(
            items,
        ),
    }
}

/// The RESP encodings of frames, one after the other.
pub open spec fn resp_seq(items: Seq<SpecFrame>) -> Seq<u8>
    decreases items,
{
    if items.len() == 0 {
        Seq::empty()
    } else {
        resp(items[0]) + resp_seq(items.subrange(1, items.len() as int))
    }
}

/// A frame whose RESP encoding reads back as itself: no `\r\n` inside a
/// simple string or error, and lengths that an `i64` holds, at every depth.
pub open spec fn canonical(f: SpecFrame) -> bool
    decreases f,
{
    match f {
        SpecFrame::Simple(text) => no_crlf(encode_utf8(text)),
        SpecFrame::Error(text) => no_crlf(encode_utf8(text)),
        SpecFrame::Bulk(data) => data.len() <= i64::MAX,
        SpecFrame::Array(items) => items.len() <= i64::MAX && all_canonical(items),
        _ => true,
    }
}

/// Every frame of `items` is canonical.
pub open spec fn all_canonical(items: Seq<SpecFrame>) -> bool
    decreases items,
{
    items.len() == 0 || (canonical(items[0]) && all_canonical(
        items.subrange(1, items.len() as int),
    ))
}

/// A frame in its RESP encoding at `p` is checked and read back as itself.
proof fn lemma_resp_reads(s: Seq<u8>, p: int, f: SpecFrame)
    requires
        canonical(f),
        stands_at(s, p, resp(f)),
    ensures
        resp(f).len() > 0,
        read_at(s, p) == Step::Done(f, p + resp(f).len()),
        check_at(s, p) == Step::Done((), p + resp(f).len()),
    decreases f,
{
    match f {
        SpecFrame::Null => {
            let head = decimal(-1) + crlf();
            assert(decimal(-1) =~= seq![MINUS, ONE]);
            assert(resp(f) =~= seq![DOLLAR] + head);
            lemma_byte_at(s, p, DOLLAR, head);
            lemma_decimal_at(s, p + 1, -1i64);
            lemma_stands_split(s, p + 1, decimal(-1), crlf());
            assert(s[p + 1] == decimal(-1)[0]);
        },
        SpecFrame::Array(items) => {
            let n = items.len() as i64;
            let head = decimal(n as int) + crlf();
            assert(resp(f) =~= seq![STAR] + (head + resp_seq(items)));
            lemma_byte_at(s, p, STAR, head + resp_seq(items));
            lemma_stands_split(s, p + 1, head, resp_seq(items));
            lemma_decimal_at(s, p + 1, n);
            lemma_decimal_no_crlf(n as int);
            lemma_stands_split(s, p + 1, decimal(n as int), crlf());
            assert(s[p + 1] == decimal(n as int)[0]);
            lemma_resp_seq_reads(s, p + 1 + head.len(), items);
        },
        _ => {
            assert(resp(f) == value_bytes(f));
            lemma_value_reads(s, p, f);
        },
    }
}

/// Frames in their RESP encodings, one after the other from `p`, are checked
/// and read back as themselves.
proof fn lemma_resp_seq_reads(s: Seq<u8>, p: int, items: Seq<SpecFrame>)
    requires
        all_canonical(items),
        stands_at(s, p, resp_seq(items)),
    ensures
        read_elems(s, p, items.len() as int) == Step::Done(items, p + resp_seq(items).len()),
        check_elems(s, p, items.len() as int) == Step::Done((), p + resp_seq(items).len()),
    decreases items,
{
    if items.len() > 0 {
        let first = items[0];
        let rest = items.subrange(1, items.len() as int);
        lemma_stands_split(s, p, resp(first), resp_seq(rest));
        lemma_resp_reads(s, p, first);
        lemma_resp_seq_reads(s, p + resp(first).len(), rest);
        assert(seq![first] + rest =~= items);
    } else {
        assert(items =~= Seq::<SpecFrame>::empty());
    }
}

/// A frame in its RESP encoding is read back as itself, ending just after
/// its bytes, whatever stands before and after them; the check finds the
/// same end. This holds of every canonical frame: nested arrays, `$-1`
/// nulls, bulk strings that hold `\r\n`.
pub proof fn law_read_back_resp(f: SpecFrame, before: Seq<u8>, after: Seq<u8>)
    requires
        canonical(f),
    ensures
        read_at(before + resp(f) + after, before.len() as int) == Step::Done(
            f,
            (before.len() + resp(f).len()) as int,
        ),
        check_at(before + resp(f) + after, before.len() as int) == Step::Done(
            (),
            (before.len() + resp(f).len()) as int,
        ),
{
    let s = before + resp(f) + after;
    assert(s.subrange(before.len() as int, (before.len() + resp(f).len()) as int) =~= resp(f));
    lemma_resp_reads(s, before.len() as int, f);
}

/// `*-1` reads as `Null` too, and the check ends after it.
pub proof fn law_null_array_reads(before: Seq<u8>, after: Seq<u8>)
    ensures
        ({
            let s = before + (seq![STAR] + decimal(-1) + crlf()) + after;
            &&& read_at(s, before.len() as int) == Step::Done(SpecFrame::Null, before.len() + 5int)
            &&& check_at(s, before.len() as int) == Step::Done((), before.len() + 5int)
        }),
{
    let x = seq![STAR] + decimal(-1) + crlf();
    let s = before + x + after;
    let p = before.len() as int;
    assert(decimal(-1) =~= seq![MINUS, ONE]);
    assert(s.subrange(p, p + x.len()) =~= x);
    assert(x =~= seq![STAR] + (decimal(-1) + crlf()));
    lemma_byte_at(s, p, STAR, decimal(-1) + crlf());
    lemma_decimal_at(s, p + 1, -1i64);
    lemma_stands_split(s, p + 1, decimal(-1), crlf());
    assert(s[p + 1] == decimal(-1)[0]);
}

/// Received bytes that start with the RESP encoding of a canonical frame
/// give that frame, and keep what follows it.
pub proof fn law_parse_resp(f: SpecFrame, after: Seq<u8>)
    requires
        canonical(f),
    ensures
        parse_outcome(resp(f) + after) == Step::Done(Some(f), resp(f).len() as int),
{
    let empty = Seq::<u8>::empty();
    law_read_back_resp(f, empty, after);
    assert(empty + resp(f) + after =~= resp(f) + after);
}

/// A proper prefix of the RESP encoding of a canonical frame, empty or not,
/// is incomplete to the check, and gives no frame yet.
pub proof fn law_resp_cut_short(f: SpecFrame, k: int)
    requires
        canonical(f),
        0 <= k < resp(f).len(),
    ensures
        is_incomplete(check_at(resp(f).take(k), 0)),
        parse_outcome(resp(f).take(k)) == Step::Done(None::<SpecFrame>, 0),
{
    let empty = Seq::<u8>::empty();
    law_read_back_resp(f, empty, empty);
    assert(empty + resp(f) + empty =~= resp(f));
    lemma_check_cut(resp(f), 0, resp(f).len() as int, k);
}

/// However the bytes of a frame and what follows arrive, the received
/// prefix `b` gives no frame while it is shorter than the frame, and the
/// frame, consuming exactly its bytes, once it holds it all: what is read
/// does not depend on how the bytes are split into reads.
pub proof fn law_parse_any_split(f: SpecFrame, rest: Seq<u8>, k: int)
    requires
        canonical(f),
        0 <= k <= resp(f).len() + rest.len(),
    ensures
        parse_outcome((resp(f) + rest).take(k)) == if k < resp(f).len() {
            Step::Done(None::<SpecFrame>, 0)
        } else {
            Step::Done(Some(f), resp(f).len() as int)
        },
{
    let b = (resp(f) + rest).take(k);
    if k < resp(f).len() {
        assert(b =~= resp(f).take(k));
        law_resp_cut_short(f, k);
    } else {
        assert(b =~= resp(f) + rest.take(k - resp(f).len()));
        law_parse_resp(f, rest.take(k - resp(f).len()));
    }
}

/// A complete header line that `atoi` cannot read makes the frame invalid,
/// not incomplete: after `:`, `$` or `*`, the reader answers
/// `InvalidEncoding` just after the line, and so does the check (for `$` and
/// `*` when the line does not start with `-`, which the check skips over).
pub proof fn law_unreadable_number_is_invalid(s: Seq<u8>, p: int, e: int)
    requires
        0 <= p < s.len(),
        s[p] == COLON || s[p] == DOLLAR || s[p] == STAR,
        line_end(s, p + 1) == Some(e),
        atoi_value(s.subrange(p + 1, e)) is None,
    ensures
        read_at(s, p) == Step::<SpecFrame>::Fail(Error::InvalidEncoding, e + 2),
        s[p] == COLON || s[p + 1] != MINUS ==> check_at(s, p) == Step::<()>::Fail(
            Error::InvalidEncoding,
            e + 2,
        ),
{
    crate::wire::lemma_line_end(s, p + 1);
}

/// A length line that holds a negative number reads as `Null` when the
/// number is -1 and is invalid otherwise, just after the line, for bulk
/// strings and arrays alike.
pub proof fn law_negative_length(s: Seq<u8>, p: int, e: int, n: i64)
    requires
        0 <= p < s.len(),
        s[p] == DOLLAR || s[p] == STAR,
        line_end(s, p + 1) == Some(e),
        atoi_value(s.subrange(p + 1, e)) == Some(n),
        n < 0,
    ensures
        read_at(s, p) == if n == -1 {
            Step::Done(SpecFrame::Null, e + 2)
        } else {
            Step::Fail(Error::InvalidEncoding, e + 2)
        },
{
    crate::wire::lemma_line_end(s, p + 1);
}

/// What the connection takes from received bytes is what the check and the
/// reader say of them: a frame only when the check finds it complete and the
/// reader reads it, consuming what the check consumed; nothing, keeping all
/// bytes, while the check finds them incomplete; and a refusal that keeps
/// all bytes when the check refuses them, or when the check finds a complete
/// frame that the reader refuses.
pub proof fn law_parse_follows_reader(buf: Seq<u8>)
    ensures
        match check_at(buf, 0) {
            Step::Done(_, n) => match read_at(buf, 0) {
                Step::Done(f, _) => parse_outcome(buf) == Step::Done(Some(f), n),
                Step::Fail(e, _) => parse_outcome(buf) == Step::<Option<SpecFrame>>::Fail(e, 0),
                Step::Abort => parse_outcome(buf) is Abort,
            },
            Step::Fail(e, _) => if e == Error::IncompleteFrame {
                parse_outcome(buf) == Step::Done(None::<SpecFrame>, 0)
            } else {
                parse_outcome(buf) == Step::<Option<SpecFrame>>::Fail(e, 0)
            },
            Step::Abort => parse_outcome(buf) is Abort,
        },
{
}

/// A frame the writer sends inside an array is written there exactly as it
/// is written alone, and never as nothing.
pub proof fn law_item_written_as_alone(f: SpecFrame)
    requires
        !(f is Array),
    ensures
        value_bytes(f) == frame_bytes(f),
        frame_bytes(f).len() > 0,
{
}

/// Every frame that may stand inside an array may also be sent alone, and
/// every frame that is not an array may be sent alone when its length, if
/// it is a bulk string, fits in an `i64`.
pub proof fn law_items_are_writable(f: SpecFrame)
    ensures
        value_writable(f) ==> writable(f),
        !(f is Array) && (f is Bulk ==> f->Bulk_0.len() <= i64::MAX) ==> writable(f),
{
}

/// A simple string or error whose bytes hold no `\r\n`; any other frame
/// that is not an array.
pub open spec fn value_lines_whole(f: SpecFrame) -> bool {
    match f {
        SpecFrame::Simple(text) => no_crlf(encode_utf8(text)),
        SpecFrame::Error(text) => no_crlf(encode_utf8(text)),
        _ => true,
    }
}

/// No simple string or error of the frame, or of its items, holds `\r\n`.
pub open spec fn lines_whole(f: SpecFrame) -> bool {
    match f {
        SpecFrame::Array(items) => forall|i: int|
            0 <= i < items.len() ==> value_lines_whole(#[trigger] items[i]),
        _ => value_lines_whole(f),
    }
}

proof fn lemma_value_checks(s: Seq<u8>, p: int, f: SpecFrame)
    requires
        value_writable(f),
        value_lines_whole(f),
        stands_at(s, p, value_bytes(f)),
    ensures
        value_bytes(f).len() > 0,
        check_at(s, p) == Step::Done((), p + value_bytes(f).len()),
{
    if f is Null {
        let line = seq![ONE];
        assert(value_bytes(f) =~= seq![MINUS] + (line + crlf()));
        lemma_byte_at(s, p, MINUS, line + crlf());
        lemma_line_at(s, p + 1, line);
    } else {
        lemma_value_reads(s, p, f);
    }
}

proof fn lemma_elems_check(s: Seq<u8>, p: int, items: Seq<SpecFrame>)
    requires
        forall|i: int| 0 <= i < items.len() ==> value_writable(#[trigger] items[i]),
        forall|i: int| 0 <= i < items.len() ==> value_lines_whole(#[trigger] items[i]),
        stands_at(s, p, values_bytes(items)),
    ensures
        check_elems(s, p, items.len() as int) == Step::Done((), p + values_bytes(items).len()),
    decreases items.len(),
{
    if items.len() > 0 {
        let first = items[0];
        let rest = items.drop_first();
        lemma_values_bytes_front(items);
        lemma_stands_split(s, p, value_bytes(first), values_bytes(rest));
        lemma_value_checks(s, p, first);
        assert forall|i: int| 0 <= i < rest.len() implies value_writable(#[trigger] rest[i])
            && value_lines_whole(rest[i]) by {
            assert(rest[i] == items[i + 1]);
        }
        lemma_elems_check(s, p + value_bytes(first).len(), rest);
    }
}

/// The check finds exactly the bytes the writer wrote for a frame complete,
/// whatever stands before and after them: every frame the writer can send,
/// `Null` included (written as `-1`), when no simple string or error holds
/// `\r\n`; an array's count matches the items written after it.
pub proof fn law_check_accepts_written(f: SpecFrame, before: Seq<u8>, after: Seq<u8>)
    requires
        writable(f),
        lines_whole(f),
    ensures
        check_at(before + frame_bytes(f) + after, before.len() as int) == Step::Done(
            (),
            (before.len() + frame_bytes(f).len()) as int,
        ),
{
    let s = before + frame_bytes(f) + after;
    let p = before.len() as int;
    assert(s.subrange(p, p + frame_bytes(f).len()) =~= frame_bytes(f));
    match f {
        SpecFrame::Array(items) => {
            let n = items.len() as i64;
            let head = decimal(n as int) + crlf();
            assert(frame_bytes(f) =~= seq![STAR] + (head + values_bytes(items)));
            lemma_byte_at(s, p, STAR, head + values_bytes(items));
            lemma_stands_split(s, p + 1, head, values_bytes(items));
            lemma_decimal_at(s, p + 1, n);
            lemma_decimal_no_crlf(n as int);
            lemma_stands_split(s, p + 1, decimal(n as int), crlf());
            assert(s[p + 1] == decimal(n as int)[0]);
            lemma_elems_check(s, p + 1 + head.len(), items);
        },
        _ => {
            lemma_value_checks(s, p, f);
        },
    }
}

/// What the writer writes for `Null` reads back as the error `1`.
pub proof fn law_null_written_reads_as_error(after: Seq<u8>)
    ensures
        read_at(frame_bytes(SpecFrame::Null) + after, 0) == Step::Done(
            SpecFrame::Error(decode_utf8(seq![ONE])),
            4,
        ),
{
    let s = frame_bytes(SpecFrame::Null) + after;
    let line = seq![ONE];
    assert(s.subrange(0, 4) =~= seq![MINUS] + (line + crlf()));
    lemma_byte_at(s, 0, MINUS, line + crlf());
    lemma_line_at(s, 1, line);
    assert(valid_utf8(line)) by {
        assert(line.subrange(0, 0) =~= Seq::<u8>::empty());
        vstd::utf8::partial_valid_utf8_extend_ascii_block(line, 0, 1);
        assert(line.subrange(0, 1) =~= line);
    }
}

/// The reader stopped because the bytes ran out, or gave up on a bulk
/// string shorter than its announced length.
pub open spec fn is_cut_short<T>(st: Step<T>) -> bool {
    is_incomplete(st) || st is Abort
}

proof fn lemma_read_cut(s: Seq<u8>, p: int, f: SpecFrame, q: int, k: int)
    requires
        read_at(s, p) == Step::Done(f, q),
        p <= k < q,
    ensures
        is_cut_short(read_at(s.take(k), p)),
    decreases s.len() - p, 0int,
{
    let t = s.take(k);
    crate::wire::lemma_line_end(s, p + 1);
    lemma_read_done_bound(s, p);
    if k > p {
        let tag = s[p];
        assert(t[p] == tag);
        if tag == PLUS || tag == MINUS || tag == COLON {
            lemma_line_end_cut(s, p + 1, k);
        } else {
            assert(tag == DOLLAR || tag == STAR);
            let r = decimal_at(s, p + 1)->Done_1;
            let n = decimal_at(s, p + 1)->Done_0;
            if k < r {
                lemma_line_end_cut(s, p + 1, k);
            } else {
                assert(agree_below(s, t, k));
                lemma_decimal_at_agree(s, t, p + 1, k);
                if tag == STAR && n >= 0 {
                    lemma_read_elems_cut(s, r, n as int, f->Array_0, q, k);
                }
            }
        }
    }
}

proof fn lemma_read_elems_cut(s: Seq<u8>, p: int, n: int, items: Seq<SpecFrame>, q: int, k: int)
    requires
        read_elems(s, p, n) == Step::Done(items, q),
        p <= k < q,
    ensures
        is_cut_short(read_elems(s.take(k), p, n)),
    decreases s.len() - p, 1int,
{
    let t = s.take(k);
    lemma_read_elems_bound(s, p, n);
    if n > 0 {
        if let Step::Done(f, r) = read_at(s, p) {
            if p < r <= s.len() {
                if k < r {
                    lemma_read_cut(s, p, f, r, k);
                } else {
                    assert(agree_below(s, t, r));
                    lemma_read_agree(s, t, p, f, r);
                    lemma_read_elems_bound(s, r, n - 1);
                    let rest = read_elems(s, r, n - 1)->Done_0;
                    lemma_read_elems_cut(s, r, n - 1, rest, q, k);
                }
            }
        }
    }
}

/// A frame the reader reads, cut short anywhere after its start, is never
/// read: the reader reports `IncompleteFrame`, or gives up on a bulk string
/// shorter than its length, but never returns a frame or `InvalidEncoding`.
pub proof fn law_read_cut_short(s: Seq<u8>, p: int, f: SpecFrame, q: int, k: int)
    requires
        read_at(s, p) == Step::Done(f, q),
        p <= k < q,
    ensures
        is_cut_short(read_at(s.take(k), p)),
{
    lemma_read_cut(s, p, f, q, k);
}

/// Past the end of the bytes, the check and the reader both report
/// `IncompleteFrame` where they stand.
pub proof fn law_nothing_left_is_incomplete(s: Seq<u8>)
    ensures
        check_at(s, s.len() as int) == Step::<()>::Fail(Error::IncompleteFrame, s.len() as int),
        read_at(s, s.len() as int) == Step::<SpecFrame>::Fail(
            Error::IncompleteFrame,
            s.len() as int,
        ),
{
}

/// An array the writer can send holds no array.
pub proof fn law_writable_arrays_are_flat(items: Seq<SpecFrame>, i: int)
    requires
        writable(SpecFrame::Array(items)),
        0 <= i < items.len(),
    ensures
        !(items[i] is Array),
{
}

/// Simple strings and errors are lines: the check ends after the first
/// `\r\n`, and the reader gives the UTF-8 decoding of the bytes before it
/// (and gives up on bytes that are not UTF-8); without a `\r\n` both report
/// `IncompleteFrame` after the type byte.
pub proof fn law_line_frames(s: Seq<u8>, p: int)
    requires
        0 <= p < s.len(),
        s[p] == PLUS || s[p] == MINUS,
    ensures
        match line_end(s, p + 1) {
            Some(e) => {
                &&& check_at(s, p) == Step::Done((), e + 2)
                &&& read_at(s, p) == if !valid_utf8(s.subrange(p + 1, e)) {
                    Step::Abort
                } else if s[p] == PLUS {
                    Step::Done(SpecFrame::Simple(decode_utf8(s.subrange(p + 1, e))), e + 2)
                } else {
                    Step::Done(SpecFrame::Error(decode_utf8(s.subrange(p + 1, e))), e + 2)
                }
            },
            None => {
                &&& check_at(s, p) == Step::<()>::Fail(Error::IncompleteFrame, p + 1)
                &&& read_at(s, p) == Step::<SpecFrame>::Fail(Error::IncompleteFrame, p + 1)
            },
        },
{
}

/// An integer is the number `atoi` reads from its line, and the check ends
/// after the line.
pub proof fn law_integer_frames(s: Seq<u8>, p: int, e: int, v: i64)
    requires
        0 <= p < s.len(),
        s[p] == COLON,
        line_end(s, p + 1) == Some(e),
        atoi_value(s.subrange(p + 1, e)) == Some(v),
    ensures
        check_at(s, p) == Step::Done((), e + 2),
        read_at(s, p) == Step::Done(SpecFrame::Integer(v), e + 2),
{
}

/// A bulk string of length `n` is the `n` bytes after its length line,
/// whatever they hold, followed by two more bytes; the check passes over
/// them, and both report `IncompleteFrame` when they are not all there (the
/// reader gives up when the `n` bytes themselves are missing).
pub proof fn law_bulk_frames(s: Seq<u8>, p: int, e: int, n: i64)
    requires
        0 <= p < s.len(),
        s[p] == DOLLAR,
        s[p + 1] != MINUS,
        line_end(s, p + 1) == Some(e),
        atoi_value(s.subrange(p + 1, e)) == Some(n),
    ensures
        n >= 0,
        check_at(s, p) == if e + 2 + n + 2 <= s.len() {
            Step::Done((), e + n + 4)
        } else {
            Step::<()>::Fail(Error::IncompleteFrame, e + 2)
        },
        read_at(s, p) == if e + 2 + n > s.len() {
            Step::Abort
        } else if e + 2 + n + 2 <= s.len() {
            Step::Done(SpecFrame::Bulk(s.subrange(e + 2, e + 2 + n)), e + n + 4)
        } else {
            Step::<SpecFrame>::Fail(Error::IncompleteFrame, e + 2 + n)
        },
{
    crate::wire::lemma_line_end(s, p + 1);
    lemma_decimal_at_nonneg(s, p + 1);
}

/// After `$-` or `*-` the check passes over exactly four bytes, whatever
/// they hold, and reports `IncompleteFrame` after the type byte when they
/// are not all there.
pub proof fn law_check_negative_header(s: Seq<u8>, p: int)
    requires
        0 <= p,
        p + 1 < s.len(),
        s[p] == DOLLAR || s[p] == STAR,
        s[p + 1] == MINUS,
    ensures
        check_at(s, p) == if p + 5 <= s.len() {
            Step::Done((), p + 5)
        } else {
            Step::<()>::Fail(Error::IncompleteFrame, p + 1)
        },
{
}

} // verus!
