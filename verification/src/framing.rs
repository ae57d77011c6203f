//! Message framing.
//!
//! [`frame_messages`] repeatedly carves complete delimiter-bounded messages
//! out of an append-only byte accumulator: it finds the first start
//! delimiter, the first end delimiter after it, emits the bytes from the one
//! through the other (both included), and removes everything up to and
//! including the message from the buffer. Bytes before an unmatched start
//! delimiter stay in the buffer until a later message consumes them.

use vstd::prelude::*;
use vstd::slice::slice_subrange;
use vstd::slice::slice_to_vec;

verus! {

/// The byte pattern `pat` occurs in `buf` at position `i`.
pub open spec fn match_at(buf: Seq<u8>, pat: Seq<u8>, i: int) -> bool {
    0 <= i && i + pat.len() <= buf.len() && buf.subrange(i, i + pat.len()) == pat
}

/// Position of the first occurrence of `pat` in `buf` at or after `i`.
/// An empty pattern matches immediately.
pub open spec fn find_from(buf: Seq<u8>, pat: Seq<u8>, i: int) -> Option<int>
    decreases buf.len() - i when 0 <= i
{
    if i + pat.len() > buf.len() {
        None
    } else if pat.len() == 0 {
        Some(i)
    } else if match_at(buf, pat, i) {
        Some(i)
    } else {
        find_from(buf, pat, i + 1)
    }
}

/// What `find_from` returns: the first match position, or none at all.
pub proof fn lemma_find_from(buf: Seq<u8>, pat: Seq<u8>, i: int)
    requires
        0 <= i,
    ensures
        match find_from(buf, pat, i) {
            Some(j) => i <= j && j + pat.len() <= buf.len() && match_at(buf, pat, j)
                && forall|k: int| i <= k < j ==> !match_at(buf, pat, k),
            None => forall|k: int| k >= i ==> !match_at(buf, pat, k),
        },
    decreases buf.len() - i,
{
    if i + pat.len() > buf.len() {
        assert forall|k: int| k >= i implies !match_at(buf, pat, k) by {}
    } else if pat.len() == 0 {
        assert(buf.subrange(i, i) =~= pat);
    } else if match_at(buf, pat, i) {
    } else {
        lemma_find_from(buf, pat, i + 1);
    }
}

/// The first match position determines `find_from`.
proof fn lemma_find_from_is(buf: Seq<u8>, pat: Seq<u8>, i: int, j: int)
    requires
        0 <= i <= j,
        match_at(buf, pat, j),
        forall|k: int| i <= k < j ==> !match_at(buf, pat, k),
    ensures
        find_from(buf, pat, i) == Some(j),
    decreases j - i,
{
    if pat.len() == 0 {
        assert(buf.subrange(i, i) =~= pat);
        assert(match_at(buf, pat, i));
        assert(i == j);
    } else if i < j {
        lemma_find_from_is(buf, pat, i + 1, j);
    }
}

/// No match at or after `i` determines `find_from`.
proof fn lemma_find_from_is_none(buf: Seq<u8>, pat: Seq<u8>, i: int)
    requires
        0 <= i,
        forall|k: int| k >= i ==> !match_at(buf, pat, k),
    ensures
        find_from(buf, pat, i) is None,
{
    lemma_find_from(buf, pat, i);
    if let Some(j) = find_from(buf, pat, i) {
        assert(!match_at(buf, pat, j));
    }
}

pub(crate) fn bytes_match_at(buf: &[u8], pat: &[u8], i: usize) -> (r: bool)
    requires
        i + pat@.len() <= buf@.len(),
    ensures
        r == match_at(buf@, pat@, i as int),
{
    let n = pat.len();
    let bl = buf.len();
    let mut k: usize = 0;
    while k < n
        invariant
            k <= n,
            n == pat@.len(),
            bl == buf@.len(),
            i + n <= bl,
            forall|q: int| 0 <= q < k ==> buf@[i + q] == pat@[q],
        decreases n - k,
    {
        if *vstd::slice::slice_index_get(buf, i + k) != *vstd::slice::slice_index_get(pat, k) {
            proof {
                assert(buf@.subrange(i as int, i + n) != pat@) by {
                    assert(buf@.subrange(i as int, i + n)[k as int] == buf@[i + k]);
                }
            }
            return false;
        }
        k = k + 1;
    }
    proof {
        assert(buf@.subrange(i as int, i + n) =~= pat@);
    }
    true
}

/// Whether two byte slices hold the same bytes.
pub(crate) fn bytes_eq(a: &[u8], b: &[u8]) -> (r: bool)
    ensures
        r == (a@ == b@),
{
    if a.len() != b.len() {
        proof {
            assert(a@ != b@);
        }
        return false;
    }
    let r = bytes_match_at(a, b, 0);
    proof {
        if r {
            assert(a@.subrange(0, b@.len() as int) =~= a@);
        } else {
            assert(a@.subrange(0, b@.len() as int) =~= a@);
        }
    }
    r
}

/// Find the first occurrence of `pat` in `buf` at or after `from`.
fn find_pattern(buf: &[u8], pat: &[u8], from: usize) -> (r: Option<usize>)
    requires
        from <= buf@.len(),
    ensures
        match r {
            Some(j) => from <= j && j + pat@.len() <= buf@.len() && find_from(
                buf@,
                pat@,
                from as int,
            ) == Some(j as int),
            None => find_from(buf@, pat@, from as int) is None,
        },
{
    let bl = buf.len();
    let pl = pat.len();
    if pl == 0 {
        proof {
            assert(buf@.subrange(from as int, from as int) =~= pat@);
            assert(match_at(buf@, pat@, from as int));
            lemma_find_from_is(buf@, pat@, from as int, from as int);
        }
        return Some(from);
    }
    if pl > bl {
        proof {
            assert forall|k: int| k >= from implies !match_at(buf@, pat@, k) by {}
            lemma_find_from_is_none(buf@, pat@, from as int);
        }
        return None;
    }
    let mut i = from;
    while i <= bl - pl
        invariant
            from <= i,
            1 <= pl <= bl,
            bl == buf@.len(),
            pl == pat@.len(),
            forall|k: int| from <= k < i ==> !match_at(buf@, pat@, k),
        decreases bl - i,
    {
        if bytes_match_at(buf, pat, i) {
            proof {
                lemma_find_from_is(buf@, pat@, from as int, i as int);
            }
            return Some(i);
        }
        i = i + 1;
    }
    proof {
        assert forall|k: int| k >= from implies !match_at(buf@, pat@, k) by {
            if k < i {
            } else {
                assert(k + pat@.len() > buf@.len());
            }
        }
        lemma_find_from_is_none(buf@, pat@, from as int);
    }
    None
}

/// At least one delimiter is non-empty. With both delimiters empty every
/// pass would carve an empty message out of an empty buffer forever, so that
/// configuration is excluded.
pub open spec fn delims_ok(start: Seq<u8>, end: Seq<u8>) -> bool {
    start.len() > 0 || end.len() > 0
}

/// The first complete frame of `buf`: its start position and its end
/// position (exclusive), delimiters included on both sides. An empty start
/// delimiter matches at position zero; an empty end delimiter matches at the
/// end of the buffer.
pub open spec fn first_frame(buf: Seq<u8>, start: Seq<u8>, end: Seq<u8>) -> Option<(int, int)> {
    let sp = if start.len() == 0 {
        Some(0int)
    } else {
        find_from(buf, start, 0)
    };
    match sp {
        None => None,
        Some(s) => {
            let after = s + start.len() as int;
            let ep = if end.len() == 0 {
                Some(buf.len() as int)
            } else {
                find_from(buf, end, after)
            };
            match ep {
                None => None,
                Some(e) => Some((s, e + end.len() as int)),
            }
        },
    }
}

/// Where the first frame lies, and the delimiters at its two ends.
pub proof fn lemma_first_frame_bounds(buf: Seq<u8>, start: Seq<u8>, end: Seq<u8>)
    requires
        delims_ok(start, end),
        first_frame(buf, start, end) is Some,
    ensures
        ({
            let (s, m) = first_frame(buf, start, end)->0;
            &&& 0 <= s
            &&& s + start.len() + end.len() <= m
            &&& m <= buf.len()
            &&& m >= 1
            &&& buf.subrange(s, s + start.len() as int) == start
            &&& buf.subrange(m - end.len(), m) == end
        }),
{
    let (s, m) = first_frame(buf, start, end)->0;
    if start.len() == 0 {
        assert(s == 0);
        assert(buf.subrange(0, 0) =~= start);
    } else {
        lemma_find_from(buf, start, 0);
    }
    let after = s + start.len() as int;
    if end.len() == 0 {
        assert(m == buf.len());
        assert(buf.subrange(m, m) =~= end);
        assert(start.len() > 0);
    } else {
        lemma_find_from(buf, end, after);
        let e = m - end.len();
        assert(match_at(buf, end, e));
    }
}

/// All complete frames of `buf`, front to back, and the bytes that remain.
/// Each step removes the first frame and everything before it.
pub open spec fn extract_frames(buf: Seq<u8>, start: Seq<u8>, end: Seq<u8>) -> (Seq<Seq<u8>>, Seq<
    u8,
>)
    decreases buf.len() when delims_ok(start, end) via extract_frames_decreases
{
    match first_frame(buf, start, end) {
        None => (Seq::empty(), buf),
        Some((s, m)) => {
            let msg = buf.subrange(s, m);
            let r = extract_frames(buf.subrange(m, buf.len() as int), start, end);
            (seq![msg] + r.0, r.1)
        },
    }
}

#[via_fn]
proof fn extract_frames_decreases(buf: Seq<u8>, start: Seq<u8>, end: Seq<u8>) {
    if first_frame(buf, start, end) is Some {
        lemma_first_frame_bounds(buf, start, end);
    }
}

/// Extraction is idempotent on an exhausted buffer: after one extraction
/// pass the remaining bytes hold no complete frame, so a second pass over
/// them yields no messages and leaves them unchanged.
pub proof fn lemma_extract_idempotent(buf: Seq<u8>, start: Seq<u8>, end: Seq<u8>)
    requires
        delims_ok(start, end),
    ensures
        first_frame(extract_frames(buf, start, end).1, start, end) is None,
        extract_frames(extract_frames(buf, start, end).1, start, end) == (
            Seq::<Seq<u8>>::empty(),
            extract_frames(buf, start, end).1,
        ),
    decreases buf.len(),
{
    if first_frame(buf, start, end) is Some {
        lemma_first_frame_bounds(buf, start, end);
        let (s, m) = first_frame(buf, start, end)->0;
        lemma_extract_idempotent(buf.subrange(m, buf.len() as int), start, end);
    }
}

/// Every extracted message carries the configured delimiters: it begins
/// with the start delimiter bytes and ends with the end delimiter bytes.
pub proof fn lemma_frames_delimited(buf: Seq<u8>, start: Seq<u8>, end: Seq<u8>)
    requires
        delims_ok(start, end),
    ensures
        forall|k: int|
            0 <= k < extract_frames(buf, start, end).0.len() ==> {
                let msg = #[trigger] extract_frames(buf, start, end).0[k];
                &&& msg.len() >= start.len() + end.len()
                &&& msg.subrange(0, start.len() as int) == start
                &&& msg.subrange(msg.len() - end.len(), msg.len() as int) == end
            },
    decreases buf.len(),
{
    if first_frame(buf, start, end) is Some {
        lemma_first_frame_bounds(buf, start, end);
        let (s, m) = first_frame(buf, start, end)->0;
        let msg = buf.subrange(s, m);
        let rest = buf.subrange(m, buf.len() as int);
        lemma_frames_delimited(rest, start, end);
        assert(msg.subrange(0, start.len() as int) =~= buf.subrange(s, s + start.len() as int));
        assert(msg.subrange(msg.len() - end.len(), msg.len() as int) =~= buf.subrange(
            m - end.len(),
            m,
        ));
        assert forall|k: int| 0 <= k < extract_frames(buf, start, end).0.len() implies {
            let msg2 = #[trigger] extract_frames(buf, start, end).0[k];
            &&& msg2.len() >= start.len() + end.len()
            &&& msg2.subrange(0, start.len() as int) == start
            &&& msg2.subrange(msg2.len() - end.len(), msg2.len() as int) == end
        } by {
            if k == 0 {
                assert(extract_frames(buf, start, end).0[0] == msg);
            } else {
                assert(extract_frames(buf, start, end).0[k] == extract_frames(
                    rest,
                    start,
                    end,
                ).0[k - 1]);
            }
        }
    }
}

/// A match wholly inside `a` is unchanged when `b` is appended.
proof fn lemma_match_at_append(a: Seq<u8>, b: Seq<u8>, pat: Seq<u8>, k: int)
    requires
        0 <= k,
        k + pat.len() <= a.len(),
    ensures
        match_at(a + b, pat, k) == match_at(a, pat, k),
{
    assert((a + b).subrange(k, k + pat.len() as int) =~= a.subrange(k, k + pat.len() as int));
}

/// A successful search wholly inside `a` is unchanged when `b` is appended.
proof fn lemma_find_from_append(a: Seq<u8>, b: Seq<u8>, pat: Seq<u8>, i: int, j: int)
    requires
        0 <= i,
        find_from(a, pat, i) == Some(j),
    ensures
        find_from(a + b, pat, i) == Some(j),
{
    lemma_find_from(a, pat, i);
    lemma_match_at_append(a, b, pat, j);
    assert forall|k: int| i <= k < j implies !match_at(a + b, pat, k) by {
        lemma_match_at_append(a, b, pat, k);
    }
    lemma_find_from_is(a + b, pat, i, j);
}

/// With a non-empty end delimiter, the first frame of `a` is still the
/// first frame after `b` is appended.
proof fn lemma_first_frame_append(a: Seq<u8>, b: Seq<u8>, start: Seq<u8>, end: Seq<u8>)
    requires
        end.len() > 0,
        first_frame(a, start, end) is Some,
    ensures
        first_frame(a + b, start, end) == first_frame(a, start, end),
{
    let sp = if start.len() == 0 {
        Some(0int)
    } else {
        find_from(a, start, 0)
    };
    let s = sp->0;
    if start.len() > 0 {
        lemma_find_from(a, start, 0);
        lemma_find_from_append(a, b, start, 0, s);
    }
    let after = s + start.len() as int;
    assert(0 <= after);
    let e = find_from(a, end, after)->0;
    assert(find_from(a, end, after) is Some);
    lemma_find_from_append(a, b, end, after, e);
}

/// Appending bytes does not change messages already extractable: extracting
/// from `a + b` yields first the messages of `a` alone, then the messages
/// of `a`'s leftover followed by `b`, and leaves that second leftover.
/// Feeding a stream chunk by chunk therefore emits the same messages, in
/// the same order, as one extraction over the concatenation. (With an empty
/// end delimiter this fails: the first pass consumes the whole buffer,
/// so the split into chunks is observable.)
pub proof fn lemma_extract_append(a: Seq<u8>, b: Seq<u8>, start: Seq<u8>, end: Seq<u8>)
    requires
        end.len() > 0,
    ensures
        ({
            let r1 = extract_frames(a, start, end);
            let r2 = extract_frames(r1.1 + b, start, end);
            extract_frames(a + b, start, end) == (r1.0 + r2.0, r2.1)
        }),
    decreases a.len(),
{
    let r1 = extract_frames(a, start, end);
    let r2 = extract_frames(r1.1 + b, start, end);
    if first_frame(a, start, end) is None {
        assert(r1.1 == a);
        assert(Seq::<Seq<u8>>::empty() + r2.0 =~= r2.0);
    } else {
        lemma_first_frame_bounds(a, start, end);
        lemma_first_frame_append(a, b, start, end);
        let (s, m) = first_frame(a, start, end)->0;
        let msg = a.subrange(s, m);
        let rest = a.subrange(m, a.len() as int);
        assert((a + b).subrange(s, m) =~= msg);
        assert((a + b).subrange(m, (a + b).len() as int) =~= rest + b);
        lemma_extract_append(rest, b, start, end);
        let q1 = extract_frames(rest, start, end);
        let q2 = extract_frames(q1.1 + b, start, end);
        assert(r1.0 == seq![msg] + q1.0);
        assert(r1.1 == q1.1);
        assert(extract_frames(a + b, start, end).0 == seq![msg] + (q1.0 + q2.0));
        assert(seq![msg] + (q1.0 + q2.0) =~= (seq![msg] + q1.0) + q2.0);
    }
}

/// The chunks of a stream, concatenated.
pub open spec fn concat_chunks(chunks: Seq<Seq<u8>>) -> Seq<u8>
    decreases chunks.len(),
{
    if chunks.len() == 0 {
        Seq::empty()
    } else {
        chunks[0] + concat_chunks(chunks.drop_first())
    }
}

/// Feeding a stream chunk by chunk: append one chunk to the buffer, run
/// extraction to exhaustion, and continue with the leftover; the messages
/// of all rounds in order, and the final leftover.
pub open spec fn feed_chunks(buf: Seq<u8>, chunks: Seq<Seq<u8>>, start: Seq<u8>, end: Seq<u8>) -> (
    Seq<Seq<u8>>,
    Seq<u8>,
)
    decreases chunks.len(),
{
    if chunks.len() == 0 {
        (Seq::empty(), buf)
    } else {
        let r1 = extract_frames(buf + chunks[0], start, end);
        let r2 = feed_chunks(r1.1, chunks.drop_first(), start, end);
        (r1.0 + r2.0, r2.1)
    }
}

/// Order preservation over any chunking: starting from a buffer that holds
/// no complete frame, feeding any sequence of chunks one at a time emits
/// exactly the messages of one extraction over the whole concatenation, in
/// the same order, and leaves the same bytes behind.
pub proof fn lemma_feed_chunks_is_one_append(
    buf: Seq<u8>,
    chunks: Seq<Seq<u8>>,
    start: Seq<u8>,
    end: Seq<u8>,
)
    requires
        end.len() > 0,
        first_frame(buf, start, end) is None,
    ensures
        feed_chunks(buf, chunks, start, end) == extract_frames(
            buf + concat_chunks(chunks),
            start,
            end,
        ),
    decreases chunks.len(),
{
    if chunks.len() == 0 {
        assert(buf + concat_chunks(chunks) =~= buf);
        assert(extract_frames(buf, start, end) == (Seq::<Seq<u8>>::empty(), buf));
    } else {
        let c0 = chunks[0];
        let rest = chunks.drop_first();
        let r1 = extract_frames(buf + c0, start, end);
        lemma_extract_idempotent(buf + c0, start, end);
        lemma_feed_chunks_is_one_append(r1.1, rest, start, end);
        lemma_extract_append(buf + c0, concat_chunks(rest), start, end);
        assert((buf + c0) + concat_chunks(rest) =~= buf + concat_chunks(chunks));
    }
}

/// Extract every complete frame from `buffer`, in order, removing each
/// frame and everything before it; incomplete trailing bytes stay behind.
///
/// The result and the new buffer contents are exactly what
/// [`extract_frames`] says of the old contents.
pub fn frame_messages(buffer: &mut Vec<u8>, start: &[u8], end: &[u8]) -> (msgs: Vec<Vec<u8>>)
    requires
        delims_ok(start@, end@),
    ensures
        msgs.deep_view() == extract_frames(old(buffer)@, start@, end@).0,
        final(buffer)@ == extract_frames(old(buffer)@, start@, end@).1,
{
    let ghost buf0 = buffer@;
    let mut msgs: Vec<Vec<u8>> = Vec::new();
    loop
        invariant
            delims_ok(start@, end@),
            extract_frames(buf0, start@, end@).0 == msgs.deep_view() + extract_frames(
                buffer@,
                start@,
                end@,
            ).0,
            extract_frames(buf0, start@, end@).1 == extract_frames(buffer@, start@, end@).1,
        ensures
            first_frame(buffer@, start@, end@) is None,
        decreases buffer@.len(),
    {
        let ghost cur = buffer@;
        let bl = buffer.len();
        let s_pos: Option<usize> = if start.len() == 0 {
            Some(0)
        } else {
            find_pattern(buffer.as_slice(), start, 0)
        };
        let sp = match s_pos {
            None => {
                proof {
                    assert(first_frame(cur, start@, end@) is None);
                }
                break;
            },
            Some(p) => p,
        };
        proof {
            assert(sp + start@.len() <= bl);
        }
        let after = sp + start.len();
        let e_pos: Option<usize> = if end.len() == 0 {
            Some(buffer.len())
        } else {
            find_pattern(buffer.as_slice(), end, after)
        };
        let ep = match e_pos {
            None => {
                proof {
                    assert(first_frame(cur, start@, end@) is None);
                }
                break;
            },
            Some(p) => p,
        };
        proof {
            assert(ep + end@.len() <= bl);
        }
        let m_end = ep + end.len();
        proof {
            assert(first_frame(cur, start@, end@) == Some((sp as int, m_end as int)));
            lemma_first_frame_bounds(cur, start@, end@);
        }
        let msg = slice_to_vec(slice_subrange(buffer.as_slice(), sp, m_end));
        let rest = slice_to_vec(slice_subrange(buffer.as_slice(), m_end, buffer.len()));
        let ghost msgs0 = msgs.deep_view();
        msgs.push(msg);
        *buffer = rest;
        proof {
            assert(msgs.deep_view() =~~= msgs0.push(cur.subrange(sp as int, m_end as int)));
            assert(msgs.deep_view() + extract_frames(buffer@, start@, end@).0 =~~= msgs0 + (seq![
                cur.subrange(sp as int, m_end as int),
            ] + extract_frames(buffer@, start@, end@).0));
        }
    }
    proof {
        assert(msgs.deep_view() + Seq::<Seq<u8>>::empty() =~~= msgs.deep_view());
    }
    msgs
}

/// Build one 35-byte test frame: the two start bytes, a filler byte, the
/// frame id, six counter bytes, 21 bytes of space-padded message text, two
/// filler bytes, and the two end bytes.
pub fn build_frame(id: u8, start_bytes: [u8; 2], end_bytes: [u8; 2], msg: &[u8]) -> (frame: Vec<
    u8,
>)
    ensures
        frame@.len() == 35,
        frame@[0] == start_bytes@[0],
        frame@[1] == start_bytes@[1],
        frame@[2] == 0xEE,
        frame@[3] == id,
        forall|j: int| 4 <= j < 10 ==> frame@[j] == (0xA0 + j) as u8,
        forall|q: int|
            0 <= q < 21 ==> #[trigger] frame@[10 + q] == if q < msg@.len() {
                msg@[q]
            } else {
                32u8
            },
        frame@[31] == 0xF1,
        frame@[32] == 0xF2,
        frame@[33] == end_bytes@[0],
        frame@[34] == end_bytes@[1],
{
    let mut frame: Vec<u8> = Vec::new();
    frame.push(start_bytes[0]);
    frame.push(start_bytes[1]);
    frame.push(0xEE);
    frame.push(id);
    let mut i: usize = 4;
    while i < 10
        invariant
            4 <= i <= 10,
            frame@.len() == i,
            frame@[0] == start_bytes@[0],
            frame@[1] == start_bytes@[1],
            frame@[2] == 0xEE,
            frame@[3] == id,
            forall|j: int| 4 <= j < i ==> frame@[j] == (0xA0 + j) as u8,
        decreases 10 - i,
    {
        frame.push(0xA0 + (i as u8));
        i = i + 1;
    }
    let ml = msg.len();
    let mut k: usize = 0;
    while k < 21
        invariant
            k <= 21,
            ml == msg@.len(),
            frame@.len() == 10 + k,
            frame@[0] == start_bytes@[0],
            frame@[1] == start_bytes@[1],
            frame@[2] == 0xEE,
            frame@[3] == id,
            forall|j: int| 4 <= j < 10 ==> frame@[j] == (0xA0 + j) as u8,
            forall|q: int|
                0 <= q < k ==> #[trigger] frame@[10 + q] == if q < msg@.len() {
                    msg@[q]
                } else {
                    32u8
                },
        decreases 21 - k,
    {
        if k < ml {
            frame.push(*vstd::slice::slice_index_get(msg, k));
        } else {
            frame.push(32);
        }
        k = k + 1;
    }
    frame.push(0xF1);
    frame.push(0xF2);
    frame.push(end_bytes[0]);
    frame.push(end_bytes[1]);
    frame
}

} // verus!
