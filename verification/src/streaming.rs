//! The bounded-buffer streaming FASTA reader: a fixed-capacity working
//! buffer refilled from the source on demand, with records that span
//! refills reassembled into a reusable overflow accumulator. The contract
//! of `next_record` speaks only of the remaining logical stream, so no
//! record length limit is ever implied by the buffer capacity.

use vstd::prelude::*;

verus! {

use crate::error::ParseError;
use crate::compress::{spec_decode, decode_input};
use crate::zero_copy::{find_idx, lemma_find_idx_bounds, lemma_find_idx_is, strip_cr};

/// The sequence with every line feed and carriage return removed.
pub open spec fn strip_newlines(s: Seq<u8>) -> Seq<u8>
    decreases s.len(),
{
    if s.len() == 0 {
        Seq::empty()
    } else {
        let rest = strip_newlines(s.drop_last());
        if s.last() == 10 || s.last() == 13 {
            rest
        } else {
            rest.push(s.last())
        }
    }
}

/// One step of the streaming scan: the terminal end when no record marker
/// remains, or a record made of the header bytes after the next `>` up to
/// the end of its line, the sequence bytes up to the following `>` with
/// line breaks removed, and the unconsumed rest of the stream.
#[verifier::ext_equal]
pub enum StreamStep {
    End,
    Rec { header: Seq<u8>, body: Seq<u8>, rest: Seq<u8> },
}

/// What the streaming reader yields on a stream holding exactly `s`.
pub open spec fn stream_next(s: Seq<u8>) -> StreamStep {
    let i = find_idx(s, 0, 62);
    if i >= s.len() {
        StreamStep::End
    } else {
        let j = find_idx(s, i + 1, 10);
        let b0 = if j < s.len() {
            j + 1
        } else {
            j
        };
        let k = find_idx(s, b0, 62);
        StreamStep::Rec {
            header: strip_cr(s.subrange(i + 1, j)),
            body: strip_newlines(s.subrange(b0, k)),
            rest: s.subrange(k, s.len() as int),
        }
    }
}

/// A step that produces a record consumes at least one byte.
pub proof fn lemma_stream_next_rest(s: Seq<u8>)
    ensures
        stream_next(s) matches StreamStep::Rec { rest, .. } ==> rest.len() < s.len(),
{
    lemma_find_idx_bounds(s, 0, 62);
    let i = find_idx(s, 0, 62);
    if i < s.len() {
        lemma_find_idx_bounds(s, i + 1, 10);
        let j = find_idx(s, i + 1, 10);
        let b0 = if j < s.len() {
            j + 1
        } else {
            j
        };
        lemma_find_idx_bounds(s, b0, 62);
    }
}

/// All records of the stream, in order: header bytes paired with the
/// sequence bytes.
pub open spec fn stream_records(s: Seq<u8>) -> Seq<(Seq<u8>, Seq<u8>)>
    decreases s.len(),
    via stream_records_decreases
{
    match stream_next(s) {
        StreamStep::End => Seq::empty(),
        StreamStep::Rec { header, body, rest } => seq![(header, body)] + stream_records(rest),
    }
}

#[via_fn]
proof fn stream_records_decreases(s: Seq<u8>) {
    lemma_stream_next_rest(s);
}

proof fn lemma_find_idx_shift(s: Seq<u8>, pos: int, b: u8)
    requires
        1 <= pos <= s.len(),
    ensures
        find_idx(s, pos, b) == 1 + find_idx(s.drop_first(), pos - 1, b),
    decreases s.len() - pos,
{
    let t = s.drop_first();
    if pos >= s.len() {
    } else if s[pos] == b {
        assert(t[pos - 1] == s[pos]);
    } else {
        assert(t[pos - 1] == s[pos]);
        lemma_find_idx_shift(s, pos + 1, b);
    }
}

/// Dropping a leading byte that is no record marker never changes what the
/// stream yields next.
pub proof fn lemma_stream_next_drop(s: Seq<u8>)
    requires
        s.len() > 0,
        s[0] != 62,
    ensures
        stream_next(s.drop_first()) == stream_next(s),
{
    let t = s.drop_first();
    lemma_find_idx_shift(s, 1, 62);
    assert(find_idx(s, 0, 62) == find_idx(s, 1, 62));
    let i = find_idx(s, 0, 62);
    let it = find_idx(t, 0, 62);
    assert(i == 1 + it);
    lemma_find_idx_bounds(t, 0, 62);
    if i >= s.len() {
        assert(it >= t.len());
    } else {
        lemma_find_idx_shift(s, i + 1, 10);
        let j = find_idx(s, i + 1, 10);
        let jt = find_idx(t, it + 1, 10);
        assert(j == 1 + jt);
        lemma_find_idx_bounds(t, it + 1, 10);
        let b0 = if j < s.len() {
            j + 1
        } else {
            j
        };
        let b0t = if jt < t.len() {
            jt + 1
        } else {
            jt
        };
        assert(b0 == 1 + b0t);
        lemma_find_idx_shift(s, b0, 62);
        let k = find_idx(s, b0, 62);
        let kt = find_idx(t, b0t, 62);
        assert(k == 1 + kt);
        lemma_find_idx_bounds(t, b0t, 62);
        assert(s.subrange(i + 1, j) =~= t.subrange(it + 1, jt));
        assert(s.subrange(b0, k) =~= t.subrange(b0t, kt));
        assert(s.subrange(k, s.len() as int) =~= t.subrange(kt, t.len() as int));
    }
}

/// A FASTA reader over a fixed-capacity working buffer that is refilled
/// from an in-memory source, reassembling boundary-spanning records into a
/// reusable overflow accumulator.
pub struct StreamingZeroCopyFastaReader {
    src_data: Vec<u8>,
    src_pos: usize,
    buf: Vec<u8>,
    start: usize,
    end: usize,
    eof: bool,
    overflow: Vec<u8>,
}

impl StreamingZeroCopyFastaReader {
    /// Cursors in range, a non-degenerate buffer, and an end flag that is
    /// only set once the source is exhausted.
    pub closed spec fn wf(self) -> bool {
        &&& self.start <= self.end <= self.buf@.len()
        &&& self.buf@.len() >= 8
        &&& self.src_pos <= self.src_data@.len()
        &&& (self.eof ==> self.src_pos == self.src_data@.len())
    }

    /// The bytes this reader has not yet consumed: the unconsumed tail of
    /// the working buffer followed by the unread part of the source.
    pub closed spec fn remaining(self) -> Seq<u8> {
        self.buf@.subrange(self.start as int, self.end as int) + self.src_data@.subrange(
            self.src_pos as int,
            self.src_data@.len() as int,
        )
    }

    /// Wraps a raw byte source, sniffing and undoing gzip or bzip2
    /// compression up front. The working buffer capacity is floor-clamped
    /// to 8 bytes; the contract of `next_record` shows the capacity never
    /// affects what is parsed.
    pub fn from_bytes(source: Vec<u8>, buffer_size: usize) -> (r: Result<Self, ParseError>)
        ensures
            spec_decode(source@) matches Some(d) ==> {
                &&& r matches Ok(rd)
                &&& rd.wf()
                &&& rd.remaining() == d
            },
            spec_decode(source@) is None ==> (r matches Err(e) && e == ParseError::Decompress),
    {
        let data = match decode_input(source) {
            Ok(d) => d,
            Err(e) => {
                return Err(e);
            },
        };
        let cap = if buffer_size < 8 {
            8
        } else {
            buffer_size
        };
        let mut buf: Vec<u8> = Vec::with_capacity(cap);
        let mut i: usize = 0;
        while i < cap
            invariant
                buf@.len() == i,
                i <= cap,
            decreases cap - i,
        {
            buf.push(0);
            i += 1;
        }
        let r = StreamingZeroCopyFastaReader {
            src_data: data,
            src_pos: 0,
            buf,
            start: 0,
            end: 0,
            eof: false,
            overflow: Vec::new(),
        };
        proof {
            assert(r.remaining() =~= r.src_data@);
        }
        Ok(r)
    }

    /// Compacts any unconsumed bytes to the front of the working buffer,
    /// preserving their order, then appends bytes read from the source;
    /// the end flag is set once the source has nothing more to give. The
    /// remaining logical stream is untouched.
    fn fill_buffer(&mut self)
        requires
            old(self).wf(),
        ensures
            final(self).wf(),
            final(self).remaining() == old(self).remaining(),
            final(self).buf@.len() == old(self).buf@.len(),
            final(self).overflow@ == old(self).overflow@,
            final(self).start == 0,
            final(self).end >= old(self).end - old(self).start,
            final(self).end > old(self).end - old(self).start || final(self).eof
                || final(self).end == final(self).buf@.len(),
            final(self).eof <==> final(self).src_pos == final(self).src_data@.len(),
    {
        let ghost r0 = self.remaining();
        let avail = self.end - self.start;
        if self.start > 0 {
            let mut i: usize = 0;
            while i < avail
                invariant
                    i <= avail,
                    avail == old(self).end - old(self).start,
                    self.start == old(self).start,
                    self.end == old(self).end,
                    self.src_pos == old(self).src_pos,
                    self.src_data@ == old(self).src_data@,
                    self.eof == old(self).eof,
                    self.overflow@ == old(self).overflow@,
                    self.start <= self.end <= self.buf@.len(),
                    self.buf@.len() == old(self).buf@.len(),
                    forall|k: int|
                        0 <= k < i ==> #[trigger] self.buf@[k] == old(self).buf@[
                            old(self).start + k
                        ],
                    forall|k: int|
                        i <= k < avail ==> #[trigger] self.buf@[old(self).start + k] == old(
                            self,
                        ).buf@[old(self).start + k],
                decreases avail - i,
            {
                let b = self.buf[self.start + i];
                self.buf[i] = b;
                i += 1;
            }
            self.start = 0;
            self.end = avail;
            proof {
                assert(self.buf@.subrange(0, avail as int) =~= old(self).buf@.subrange(
                    old(self).start as int,
                    old(self).end as int,
                ));
                assert(self.remaining() =~= r0);
            }
        }
        proof {
            assert(self.remaining() =~= r0);
        }
        let ghost e0 = self.end;
        while self.end < self.buf.len() && self.src_pos < self.src_data.len()
            invariant
                self.start == 0,
                self.end <= self.buf@.len(),
                self.end >= e0,
                self.src_pos <= self.src_data@.len(),
                self.src_data@ == old(self).src_data@,
                self.eof == old(self).eof,
                self.overflow@ == old(self).overflow@,
                self.buf@.len() == old(self).buf@.len(),
                old(self).eof ==> old(self).src_pos == old(self).src_data@.len(),
                self.src_pos >= old(self).src_pos,
                self.remaining() == r0,
            decreases self.buf@.len() - self.end,
        {
            let ghost pre = *self;
            let b = self.src_data[self.src_pos];
            self.buf[self.end] = b;
            self.end += 1;
            self.src_pos += 1;
            proof {
                assert(self.buf@.subrange(0, self.end as int) =~= pre.buf@.subrange(
                    0,
                    pre.end as int,
                ).push(b));
                assert(pre.src_data@.subrange(
                    pre.src_pos as int,
                    pre.src_data@.len() as int,
                ) =~= seq![b] + self.src_data@.subrange(
                    self.src_pos as int,
                    self.src_data@.len() as int,
                ));
                assert(self.remaining() =~= pre.remaining());
            }
        }
        if self.src_pos == self.src_data.len() {
            self.eof = true;
        }
    }

    /// Makes at least one byte available in the working buffer, refilling
    /// if necessary; reports `false` exactly when the stream is exhausted.
    fn ensure_byte(&mut self) -> (r: bool)
        requires
            old(self).wf(),
        ensures
            final(self).wf(),
            final(self).remaining() == old(self).remaining(),
            final(self).overflow@ == old(self).overflow@,
            r ==> final(self).start < final(self).end,
            r ==> final(self).remaining().len() > 0 && final(self).remaining()[0]
                == final(self).buf@[final(self).start as int],
            !r ==> final(self).remaining().len() == 0,
    {
        if self.start < self.end {
            proof {
                assert(self.remaining()[0] == self.buf@[self.start as int]);
            }
            return true;
        }
        if self.eof {
            proof {
                assert(self.remaining() =~= Seq::<u8>::empty());
            }
            return false;
        }
        self.fill_buffer();
        if self.start < self.end {
            proof {
                assert(self.remaining()[0] == self.buf@[self.start as int]);
            }
            true
        } else {
            proof {
                assert(self.eof);
                assert(self.remaining() =~= Seq::<u8>::empty());
            }
            false
        }
    }

    /// Produces the next record as `(header, sequence, sequence length)`,
    /// or `None` once no record marker remains in the stream. The sequence
    /// bytes are a fresh copy of the reusable overflow accumulator. A
    /// header or sequence longer than the working buffer is still parsed
    /// correctly, purely through repeated refills.
    pub fn next_record(&mut self) -> (r: Option<Result<(Vec<u8>, Vec<u8>, usize), ParseError>>)
        requires
            old(self).wf(),
        ensures
            final(self).wf(),
            ({
                let step = stream_next(old(self).remaining());
                match step {
                    StreamStep::End => r is None && final(self).remaining().len() == 0,
                    StreamStep::Rec { header, body, rest } => {
                        &&& r matches Some(q)
                        &&& q matches Ok(tup)
                        &&& tup.0@ == header
                        &&& tup.1@ == body
                        &&& tup.2 == body.len()
                        &&& final(self).remaining() == rest
                    },
                }
            }),
    {
        // find the next record marker, discarding what precedes it
        loop
            invariant_except_break
                self.wf(),
                stream_next(self.remaining()) == stream_next(old(self).remaining()),
            ensures
                self.wf(),
                stream_next(self.remaining()) == stream_next(old(self).remaining()),
                self.start < self.end,
                self.remaining().len() > 0,
                self.remaining()[0] == 62,
            decreases self.remaining().len(),
        {
            if !self.ensure_byte() {
                proof {
                    assert(find_idx(self.remaining(), 0, 62) == 0);
                    assert(stream_next(self.remaining()) is End);
                }
                return None;
            }
            let b = self.buf[self.start];
            if b == 62 {
                break;
            }
            let ghost prev = self.remaining();
            self.start += 1;
            proof {
                assert(self.remaining() =~= prev.drop_first());
                lemma_stream_next_drop(prev);
            }
        }
        let ghost ra = self.remaining();
        proof {
            assert(find_idx(ra, 0, 62) == 0);
        }
        // consume the marker, then assemble the header up to end of line
        let ghost prev0 = self.remaining();
        self.start += 1;
        proof {
            assert(self.remaining() =~= prev0.drop_first());
            assert(self.remaining() =~= ra.subrange(1, ra.len() as int));
        }
        let mut hdr: Vec<u8> = Vec::new();
        let mut saw_nl = false;
        loop
            invariant_except_break
                self.wf(),
                ra.len() > 0,
                ra[0] == 62,
                1 + hdr@.len() <= ra.len(),
                hdr@ == ra.subrange(1, 1 + hdr@.len() as int),
                forall|k: int| 1 <= k < 1 + hdr@.len() ==> ra[k] != 10,
                self.remaining() == ra.subrange(1 + hdr@.len() as int, ra.len() as int),
                !saw_nl,
            ensures
                self.wf(),
                ra.len() > 0,
                ra[0] == 62,
                1 + hdr@.len() <= ra.len(),
                hdr@ == ra.subrange(1, 1 + hdr@.len() as int),
                forall|k: int| 1 <= k < 1 + hdr@.len() ==> ra[k] != 10,
                saw_nl ==> 1 + hdr@.len() < ra.len() && ra[1 + hdr@.len() as int] == 10 && self.remaining()
                    == ra.subrange(2 + hdr@.len() as int, ra.len() as int),
                !saw_nl ==> 1 + hdr@.len() == ra.len() && self.remaining().len() == 0,
            decreases self.remaining().len(),
        {
            if !self.ensure_byte() {
                proof {
                    assert(1 + hdr@.len() == ra.len());
                }
                break;
            }
            let ghost prev = self.remaining();
            let b = self.buf[self.start];
            self.start += 1;
            proof {
                assert(self.remaining() =~= prev.drop_first());
                assert(prev[0] == ra[1 + hdr@.len() as int]);
            }
            if b == 10 {
                saw_nl = true;
                proof {
                    assert(self.remaining() =~= ra.subrange(
                        2 + hdr@.len() as int,
                        ra.len() as int,
                    ));
                }
                break;
            }
            let ghost old_h = hdr@;
            hdr.push(b);
            proof {
                assert(hdr@ =~= ra.subrange(1, 1 + hdr@.len() as int));
                assert(self.remaining() =~= ra.subrange(1 + hdr@.len() as int, ra.len() as int));
            }
        }
        let ghost j: int = 1 + hdr@.len() as int;
        proof {
            lemma_find_idx_is(ra, 1, 10, j);
        }
        let ghost b0: int = if j < ra.len() {
            j + 1
        } else {
            j
        };
        proof {
            assert(self.remaining() =~= ra.subrange(b0, ra.len() as int));
        }
        if hdr.len() > 0 && hdr[hdr.len() - 1] == 13 {
            hdr.pop();
        }
        proof {
            assert(hdr@ == strip_cr(ra.subrange(1, j)));
        }
        // assemble the sequence bytes up to the next marker or the end
        self.overflow.clear();
        let ghost mut c: int = 0;
        loop
            invariant_except_break
                self.wf(),
                0 <= c,
                0 <= b0,
                b0 + c <= ra.len(),
                self.remaining() == ra.subrange(b0 + c, ra.len() as int),
                self.overflow@ == strip_newlines(ra.subrange(b0, b0 + c)),
                forall|k: int| b0 <= k < b0 + c ==> ra[k] != 62,
            ensures
                self.wf(),
                0 <= c,
                0 <= b0,
                b0 + c <= ra.len(),
                self.remaining() == ra.subrange(b0 + c, ra.len() as int),
                self.overflow@ == strip_newlines(ra.subrange(b0, b0 + c)),
                forall|k: int| b0 <= k < b0 + c ==> ra[k] != 62,
                b0 + c < ra.len() ==> ra[b0 + c] == 62,
            decreases self.remaining().len(),
        {
            if !self.ensure_byte() {
                proof {
                    assert(b0 + c == ra.len());
                }
                break;
            }
            let ghost prev = self.remaining();
            let b = self.buf[self.start];
            proof {
                assert(prev[0] == ra[b0 + c]);
            }
            if b == 62 {
                break;
            }
            self.start += 1;
            if b != 10 && b != 13 {
                self.overflow.push(b);
            }
            proof {
                assert(self.remaining() =~= prev.drop_first());
                let pre = ra.subrange(b0, b0 + c);
                let post = ra.subrange(b0, b0 + c + 1);
                assert(post =~= pre.push(ra[b0 + c]));
                assert(post.drop_last() =~= pre);
                assert(strip_newlines(post) == if ra[b0 + c] == 10 || ra[b0 + c] == 13 {
                    strip_newlines(pre)
                } else {
                    strip_newlines(pre).push(ra[b0 + c])
                });
                c = c + 1;
                assert(self.remaining() =~= ra.subrange(b0 + c, ra.len() as int));
            }
        }
        let ghost k: int = b0 + c;
        proof {
            lemma_find_idx_is(ra, b0, 62, k);
        }
        let n = self.overflow.len();
        let body_copy = crate::text::copy_range(&self.overflow, 0, n);
        proof {
            assert(stream_next(ra) == (StreamStep::Rec {
                header: strip_cr(ra.subrange(1, j)),
                body: strip_newlines(ra.subrange(b0, k)),
                rest: ra.subrange(k, ra.len() as int),
            }));
        }
        Some(Ok((hdr, body_copy, n)))
    }
}

/// Law: what a streaming reader produces is a function of its remaining
/// byte stream alone — the working buffer's capacity plays no part. Two
/// readers over the same decoded input, whatever their buffer sizes,
/// yield identical record sequences, since `next_record`'s contract
/// speaks only of `remaining()`.
pub proof fn lemma_buffer_size_independence(
    a: StreamingZeroCopyFastaReader,
    b: StreamingZeroCopyFastaReader,
)
    requires
        a.remaining() == b.remaining(),
    ensures
        stream_records(a.remaining()) == stream_records(b.remaining()),
{
}

} // verus!
