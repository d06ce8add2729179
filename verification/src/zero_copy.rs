//! The whole-buffer FASTA reader: the complete decoded source is loaded
//! into one owned buffer up front and sliced with a single cursor, so a
//! record is a header, the list of per-line byte spans, and the total
//! sequence length, with no per-line concatenation.

use vstd::prelude::*;

verus! {

use crate::is_space;
use crate::is_space_byte;
use crate::error::ParseError;
use crate::text::copy_range;
use crate::compress::{spec_decode, decode_input};

/// First index at or after `pos` holding the byte `b`, or the length of the
/// sequence when `b` does not occur there.
pub open spec fn find_idx(s: Seq<u8>, pos: int, b: u8) -> int
    decreases s.len() - pos, when 0 <= pos <= s.len()
{
    if pos >= s.len() {
        s.len() as int
    } else if s[pos] == b {
        pos
    } else {
        find_idx(s, pos + 1, b)
    }
}

pub proof fn lemma_find_idx_bounds(s: Seq<u8>, pos: int, b: u8)
    requires
        0 <= pos <= s.len(),
    ensures
        pos <= find_idx(s, pos, b) <= s.len(),
        find_idx(s, pos, b) < s.len() ==> s[find_idx(s, pos, b)] == b,
        forall|k: int| pos <= k < find_idx(s, pos, b) ==> s[k] != b,
    decreases s.len() - pos,
{
    if pos >= s.len() {
    } else if s[pos] == b {
    } else {
        lemma_find_idx_bounds(s, pos + 1, b);
    }
}

/// Identifies the found index from a scan that saw no earlier occurrence.
pub proof fn lemma_find_idx_is(s: Seq<u8>, pos: int, b: u8, j: int)
    requires
        0 <= pos <= j <= s.len(),
        forall|k: int| pos <= k < j ==> s[k] != b,
        j < s.len() ==> s[j] == b,
    ensures
        find_idx(s, pos, b) == j,
    decreases s.len() - pos,
{
    if pos >= s.len() {
    } else if s[pos] == b {
        assert(j == pos);
    } else {
        lemma_find_idx_is(s, pos + 1, b, j);
    }
}

/// First index at or after `pos` that is not whitespace, or the length.
pub open spec fn skip_ws_idx(s: Seq<u8>, pos: int) -> int
    decreases s.len() - pos, when 0 <= pos <= s.len()
{
    if pos >= s.len() {
        s.len() as int
    } else if is_space(s[pos]) {
        skip_ws_idx(s, pos + 1)
    } else {
        pos
    }
}

/// Identifies the first non-whitespace index from a scan.
pub proof fn lemma_skip_ws_is(s: Seq<u8>, pos: int, j: int)
    requires
        0 <= pos <= j <= s.len(),
        forall|k: int| pos <= k < j ==> is_space(s[k]),
        j < s.len() ==> !is_space(s[j]),
    ensures
        skip_ws_idx(s, pos) == j,
    decreases s.len() - pos,
{
    if pos >= s.len() {
    } else if !is_space(s[pos]) {
        assert(j == pos);
    } else {
        lemma_skip_ws_is(s, pos + 1, j);
    }
}

/// The sequence with one trailing carriage return removed, if present.
pub open spec fn strip_cr(s: Seq<u8>) -> Seq<u8> {
    if s.len() > 0 && s.last() == 13 {
        s.drop_last()
    } else {
        s
    }
}

/// True when every byte is whitespace (so the line is a blank separator).
pub open spec fn is_blank(s: Seq<u8>) -> bool {
    forall|k: int| 0 <= k < s.len() ==> is_space(s[k])
}

/// True when all bytes of `v` are whitespace.
pub fn all_spaces(v: &Vec<u8>) -> (r: bool)
    ensures
        r == is_blank(v@),
{
    let mut i: usize = 0;
    while i < v.len()
        invariant
            i <= v.len(),
            forall|k: int| 0 <= k < i ==> is_space(v@[k]),
        decreases v.len() - i,
    {
        if !is_space_byte(v[i]) {
            return false;
        }
        i += 1;
    }
    true
}

/// The per-line sequence spans from `pos` up to the next record marker or
/// the end of the buffer: at each line start the scan stops on `>` or the
/// end; otherwise the line (carriage return stripped) becomes a span
/// unless it is blank. Returns the spans and the stopping position.
pub open spec fn zc_spans(s: Seq<u8>, pos: int) -> (Seq<Seq<u8>>, int)
    decreases s.len() - pos, when 0 <= pos <= s.len()
    via zc_spans_decreases
{
    if pos >= s.len() {
        (Seq::empty(), pos)
    } else if s[pos] == 62 {
        (Seq::empty(), pos)
    } else {
        let e = find_idx(s, pos, 10);
        let line = strip_cr(s.subrange(pos, e));
        let np = if e < s.len() {
            e + 1
        } else {
            e
        };
        let (rest, endp) = zc_spans(s, np);
        if is_blank(line) {
            (rest, endp)
        } else {
            (seq![line] + rest, endp)
        }
    }
}

#[via_fn]
proof fn zc_spans_decreases(s: Seq<u8>, pos: int) {
    if 0 <= pos <= s.len() {
        lemma_find_idx_bounds(s, pos, 10);
    }
}

/// The total number of bytes over all spans.
pub open spec fn sum_lens(spans: Seq<Seq<u8>>) -> int
    decreases spans.len(),
{
    if spans.len() == 0 {
        0int
    } else {
        spans[0].len() + sum_lens(spans.drop_first())
    }
}

pub proof fn lemma_sum_lens_nonneg(spans: Seq<Seq<u8>>)
    ensures
        sum_lens(spans) >= 0,
    decreases spans.len(),
{
    if spans.len() == 0 {
    } else {
        lemma_sum_lens_nonneg(spans.drop_first());
    }
}

pub proof fn lemma_sum_lens_push(spans: Seq<Seq<u8>>, x: Seq<u8>)
    ensures
        sum_lens(spans.push(x)) == sum_lens(spans) + x.len(),
    decreases spans.len(),
{
    if spans.len() == 0 {
        assert(spans.push(x)[0] == x);
        assert(spans.push(x).drop_first() =~= Seq::<Seq<u8>>::empty());
        assert(sum_lens(Seq::<Seq<u8>>::empty()) == 0);
        assert(sum_lens(spans.push(x)) == x.len() + sum_lens(Seq::<Seq<u8>>::empty()));
    } else {
        assert(spans.push(x)[0] == spans[0]);
        assert(spans.push(x).drop_first() =~= spans.drop_first().push(x));
        lemma_sum_lens_push(spans.drop_first(), x);
        assert(sum_lens(spans.push(x)) == spans[0].len() + sum_lens(spans.drop_first().push(x)));
        assert(sum_lens(spans) == spans[0].len() + sum_lens(spans.drop_first()));
    }
}

/// Bounds on a span scan: the stop position stays in range, and the spans
/// never hold more bytes than the region they were cut from.
pub proof fn lemma_zc_spans_bound(s: Seq<u8>, pos: int)
    requires
        0 <= pos <= s.len(),
    ensures
        pos <= zc_spans(s, pos).1 <= s.len(),
        0 <= sum_lens(zc_spans(s, pos).0) <= s.len() - pos,
    decreases s.len() - pos,
{
    lemma_sum_lens_nonneg(zc_spans(s, pos).0);
    if pos >= s.len() {
    } else if s[pos] == 62 {
    } else {
        lemma_find_idx_bounds(s, pos, 10);
        let e = find_idx(s, pos, 10);
        let line = strip_cr(s.subrange(pos, e));
        let np = if e < s.len() {
            e + 1
        } else {
            e
        };
        lemma_zc_spans_bound(s, np);
        let (rest, _endp) = zc_spans(s, np);
        if is_blank(line) {
        } else {
            assert((seq![line] + rest).drop_first() =~= rest);
            assert(sum_lens(seq![line] + rest) == line.len() + sum_lens(rest));
        }
    }
}

/// One step of the whole-buffer scan: the terminal end once only
/// whitespace remains, a fatal error when the next content byte is not a
/// record marker, or a complete record with its header span, sequence
/// spans, total sequence length, and the cursor for the next step.
#[verifier::ext_equal]
pub enum ZcStep {
    End,
    Bad,
    Rec { header: Seq<u8>, spans: Seq<Seq<u8>>, end_pos: int },
}

/// What the whole-buffer reader yields at `pos`.
pub open spec fn zc_next(s: Seq<u8>, pos: int) -> ZcStep
    recommends
        0 <= pos <= s.len(),
{
    let p = skip_ws_idx(s, pos);
    if p >= s.len() {
        ZcStep::End
    } else if s[p] != 62 {
        ZcStep::Bad
    } else {
        let e = find_idx(s, p + 1, 10);
        let header = strip_cr(s.subrange(p + 1, e));
        let bs = if e < s.len() {
            e + 1
        } else {
            e
        };
        let (spans, endp) = zc_spans(s, bs);
        ZcStep::Rec { header, spans, end_pos: endp }
    }
}

/// A FASTA reader that loads the whole decoded source once and produces
/// records by slicing it, avoiding any per-line concatenation.
pub struct ZeroCopyFastaReader {
    data: Vec<u8>,
    pos: usize,
}

impl ZeroCopyFastaReader {
    pub closed spec fn wf(self) -> bool {
        self.pos <= self.data@.len()
    }

    /// The decoded buffer this reader slices.
    pub closed spec fn buffer(self) -> Seq<u8> {
        self.data@
    }

    /// The current scan position.
    pub closed spec fn cursor(self) -> int {
        self.pos as int
    }

    /// Wraps a raw byte source, sniffing and undoing gzip or bzip2
    /// compression up front. The size hint only pre-allocates.
    pub fn from_bytes(source: Vec<u8>, _size_hint: usize) -> (r: Result<Self, ParseError>)
        ensures
            spec_decode(source@) matches Some(d) ==> {
                &&& r matches Ok(rd)
                &&& rd.wf()
                &&& rd.buffer() == d
                &&& rd.cursor() == 0
            },
            spec_decode(source@) is None ==> (r matches Err(e) && e == ParseError::Decompress),
    {
        let data = match decode_input(source) {
            Ok(d) => d,
            Err(e) => {
                return Err(e);
            },
        };
        Ok(ZeroCopyFastaReader { data, pos: 0 })
    }

    /// Produces the next record as `(header, sequence line spans, total
    /// sequence length)`, or `None` at the end, or the fatal error when the
    /// buffer holds content that is not a record marker.
    pub fn next_record(&mut self) -> (r: Option<
        Result<(Vec<u8>, Vec<Vec<u8>>, usize), ParseError>,
    >)
        requires
            old(self).wf(),
        ensures
            final(self).wf(),
            final(self).buffer() == old(self).buffer(),
            ({
                let step = zc_next(old(self).buffer(), old(self).cursor());
                match step {
                    ZcStep::End => r is None && final(self).cursor()
                        == final(self).buffer().len(),
                    ZcStep::Bad => {
                        &&& r matches Some(q)
                        &&& q matches Err(e)
                        &&& e == ParseError::FastaMissingMarker
                    },
                    ZcStep::Rec { header, spans, end_pos } => {
                        &&& r matches Some(q)
                        &&& q matches Ok(tup)
                        &&& tup.0@ == header
                        &&& tup.1@.len() == spans.len()
                        &&& forall|i: int| 0 <= i < spans.len() ==> tup.1@[i]@ == #[trigger] spans[i]
                        &&& tup.2 == sum_lens(spans)
                        &&& final(self).cursor() == end_pos
                    },
                }
            }),
    {
        let ghost s = self.data@;
        let len = self.data.len();
        // skip leading whitespace
        let mut p = self.pos;
        while p < len && is_space_byte(self.data[p])
            invariant
                old(self).pos <= p <= len,
                self == old(self),
                len == self.data@.len(),
                forall|k: int| old(self).pos <= k < p ==> is_space(self.data@[k]),
            decreases len - p,
        {
            p += 1;
        }
        proof {
            lemma_skip_ws_is(s, self.pos as int, p as int);
        }
        if p >= len {
            self.pos = len;
            return None;
        }
        if self.data[p] != 62 {
            self.pos = p;
            return Some(Err(ParseError::FastaMissingMarker));
        }
        // header line
        let hstart = p + 1;
        let mut e = hstart;
        while e < len && self.data[e] != 10
            invariant
                hstart <= e <= len,
                self == old(self),
                len == self.data@.len(),
                forall|k: int| hstart <= k < e ==> self.data@[k] != 10,
            decreases len - e,
        {
            e += 1;
        }
        proof {
            lemma_find_idx_is(s, hstart as int, 10, e as int);
        }
        let mut header = copy_range(&self.data, hstart, e);
        if header.len() > 0 && header[header.len() - 1] == 13 {
            header.pop();
        }
        proof {
            assert(header@ == strip_cr(s.subrange(hstart as int, e as int)));
        }
        let body_start = if e < len {
            e + 1
        } else {
            e
        };
        // sequence line spans
        let ghost all = zc_spans(s, body_start as int);
        let mut spans: Vec<Vec<u8>> = Vec::new();
        let mut total: usize = 0;
        let mut q = body_start;
        proof {
            lemma_zc_spans_bound(s, body_start as int);
        }
        loop
            invariant_except_break
                body_start <= q <= len,
                self == old(self),
                len == self.data@.len(),
                s == self.data@,
                all == zc_spans(s, body_start as int),
                all.0 == spans@.map_values(|x: Vec<u8>| x@) + zc_spans(s, q as int).0,
                all.1 == zc_spans(s, q as int).1,
                total == sum_lens(spans@.map_values(|x: Vec<u8>| x@)),
                total <= len,
            ensures
                self == old(self),
                q <= len,
                all.0 == spans@.map_values(|x: Vec<u8>| x@),
                all.1 == q as int,
                total == sum_lens(spans@.map_values(|x: Vec<u8>| x@)),
            decreases len - q,
        {
            if q >= len {
                proof {
                    assert(all.0 =~= spans@.map_values(|x: Vec<u8>| x@));
                }
                break;
            }
            if self.data[q] == 62 {
                proof {
                    assert(all.0 =~= spans@.map_values(|x: Vec<u8>| x@));
                }
                break;
            }
            let mut e2 = q;
            while e2 < len && self.data[e2] != 10
                invariant
                    q <= e2 <= len,
                    self == old(self),
                    len == self.data@.len(),
                    forall|k: int| q <= k < e2 ==> self.data@[k] != 10,
                decreases len - e2,
            {
                e2 += 1;
            }
            proof {
                lemma_find_idx_is(s, q as int, 10, e2 as int);
            }
            let mut line = copy_range(&self.data, q, e2);
            if line.len() > 0 && line[line.len() - 1] == 13 {
                line.pop();
            }
            proof {
                assert(line@ == strip_cr(s.subrange(q as int, e2 as int)));
            }
            let ghost qi = q as int;
            let np = if e2 < len {
                e2 + 1
            } else {
                e2
            };
            proof {
                lemma_zc_spans_bound(s, np as int);
                lemma_sum_lens_nonneg(zc_spans(s, np as int).0);
            }
            if !all_spaces(&line) {
                let ghost old_spans = spans@.map_values(|x: Vec<u8>| x@);
                let ghost lv = line@;
                proof {
                    // the step equation of the span scan
                    assert(zc_spans(s, qi).0 == seq![lv] + zc_spans(s, np as int).0);
                    assert(old_spans + zc_spans(s, qi).0 =~= (old_spans + seq![lv]) + zc_spans(
                        s,
                        np as int,
                    ).0);
                    // the new total stays within the buffer
                    lemma_sum_lens_push(old_spans, lv);
                    assert(old_spans.push(lv) =~= old_spans + seq![lv]);
                    lemma_zc_spans_bound(s, body_start as int);
                    lemma_sum_lens_concat(old_spans + seq![lv], zc_spans(s, np as int).0);
                }
                proof {
                    assert(sum_lens(all.0) <= len);
                    assert(sum_lens(old_spans + seq![lv]) + sum_lens(zc_spans(s, np as int).0)
                        == sum_lens(all.0));
                    assert(total + lv.len() <= len);
                }
                total = total + line.len();
                spans.push(line);
                proof {
                    assert(spans@.map_values(|x: Vec<u8>| x@) =~= old_spans + seq![lv]);
                }
            } else {
                proof {
                    assert(zc_spans(s, qi).0 == zc_spans(s, np as int).0);
                }
            }
            q = np;
        }
        self.pos = q;
        Some(Ok((header, spans, total)))
    }
}

/// Splitting a span list splits its total length.
pub proof fn lemma_sum_lens_concat(a: Seq<Seq<u8>>, b: Seq<Seq<u8>>)
    ensures
        sum_lens(a + b) == sum_lens(a) + sum_lens(b),
    decreases a.len(),
{
    if a.len() == 0 {
        assert(a + b =~= b);
    } else {
        assert((a + b).drop_first() =~= a.drop_first() + b);
        lemma_sum_lens_concat(a.drop_first(), b);
    }
}

} // verus!
