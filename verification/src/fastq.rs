//! The line-oriented FASTQ reader: a specification-level parse of the
//! decoded stream, and a verified reader that produces one record per call.

use vstd::prelude::*;

verus! {

use vstd::utf8::{valid_utf8, decode_utf8};
use crate::error::ParseError;
use crate::text::{
    LineScanner,
    bytes_eq,
    copy_range,
    spec_lines,
    trim,
    trim_bytes,
    utf8_to_string,
};
use crate::compress::{spec_decode, decode_input};

/// One FASTQ record at the specification level: the raw bytes of the
/// trimmed identifier (marker stripped), the concatenated sequence lines,
/// and the quality string.
#[verifier::ext_equal]
pub struct SpecFastqRecord {
    pub id: Seq<u8>,
    pub sequence: Seq<u8>,
    pub quality: Seq<u8>,
}

/// The complete outcome of tokenizing a FASTQ stream: the records emitted
/// in order, then either a clean end (`None`) or the fatal error that
/// stopped the reader.
#[verifier::ext_equal]
pub struct FastqParse {
    pub records: Seq<SpecFastqRecord>,
    pub terminal: Option<ParseError>,
}

/// Tokenizes the given lines: blank lines are skipped, then each record
/// must open with an `@` marker line.
pub open spec fn fastq_parse(lines: Seq<Seq<u8>>) -> FastqParse
    decreases lines.len(), 0int,
{
    if lines.len() == 0 {
        FastqParse { records: Seq::empty(), terminal: Option::None }
    } else {
        let t = trim(lines[0]);
        if t.len() == 0 {
            fastq_parse(lines.drop_first())
        } else if t[0] == 64 {
            fastq_seq(t.drop_first(), Seq::empty(), lines.drop_first())
        } else {
            FastqParse {
                records: Seq::empty(),
                terminal: Option::Some(ParseError::FastqMissingMarker),
            }
        }
    }
}

/// Accumulates sequence lines for the record identified by `id` until the
/// `+` separator; the stream must not end first. A non-empty text after
/// `+` must equal the identifier byte for byte.
pub open spec fn fastq_seq(id: Seq<u8>, acc: Seq<u8>, lines: Seq<Seq<u8>>) -> FastqParse
    decreases lines.len(), 1int,
{
    if lines.len() == 0 {
        FastqParse {
            records: Seq::empty(),
            terminal: Option::Some(ParseError::UnexpectedEofSequence),
        }
    } else {
        let t = trim(lines[0]);
        if t.len() > 0 && t[0] == 43 {
            if t.len() > 1 && t.drop_first() != id {
                FastqParse {
                    records: Seq::empty(),
                    terminal: Option::Some(ParseError::PlusLineMismatch),
                }
            } else {
                fastq_qual(id, acc, Seq::empty(), lines.drop_first())
            }
        } else if t.len() == 0 {
            fastq_seq(id, acc, lines.drop_first())
        } else {
            fastq_seq(id, acc + t, lines.drop_first())
        }
    }
}

/// Accumulates quality lines until the quality string equals the sequence
/// length exactly. The stream must not end first, and a quality line that
/// runs past the bytes still needed rejects the record: it is never
/// truncated or padded.
pub open spec fn fastq_qual(id: Seq<u8>, sq: Seq<u8>, qacc: Seq<u8>, lines: Seq<Seq<u8>>) -> FastqParse
    decreases lines.len(), 2int,
{
    if qacc.len() >= sq.len() {
        let sub = fastq_parse(lines);
        FastqParse {
            records: seq![SpecFastqRecord { id: id, sequence: sq, quality: qacc }] + sub.records,
            terminal: sub.terminal,
        }
    } else if lines.len() == 0 {
        FastqParse {
            records: Seq::empty(),
            terminal: Option::Some(ParseError::UnexpectedEofQuality),
        }
    } else {
        let t = trim(lines[0]);
        if t.len() == 0 {
            fastq_qual(id, sq, qacc, lines.drop_first())
        } else if t.len() > sq.len() - qacc.len() {
            FastqParse {
                records: Seq::empty(),
                terminal: Option::Some(ParseError::QualityLengthMismatch),
            }
        } else {
            fastq_qual(id, sq, qacc + t, lines.drop_first())
        }
    }
}

/// Law: every record a FASTQ parse emits has a quality string exactly as
/// long as its sequence; an input violating this is rejected, never
/// truncated or padded.
pub proof fn lemma_fastq_parse_lengths(lines: Seq<Seq<u8>>)
    ensures
        forall|i: int|
            0 <= i < fastq_parse(lines).records.len() ==> (#[trigger] fastq_parse(
                lines,
            ).records[i]).sequence.len() == fastq_parse(lines).records[i].quality.len(),
    decreases lines.len(), 0int,
{
    if lines.len() == 0 {
    } else {
        let t = trim(lines[0]);
        if t.len() == 0 {
            lemma_fastq_parse_lengths(lines.drop_first());
        } else if t[0] == 64 {
            lemma_fastq_seq_lengths(t.drop_first(), Seq::empty(), lines.drop_first());
        } else {
        }
    }
}

proof fn lemma_fastq_seq_lengths(id: Seq<u8>, acc: Seq<u8>, lines: Seq<Seq<u8>>)
    ensures
        forall|i: int|
            0 <= i < fastq_seq(id, acc, lines).records.len() ==> (#[trigger] fastq_seq(
                id,
                acc,
                lines,
            ).records[i]).sequence.len() == fastq_seq(id, acc, lines).records[i].quality.len(),
    decreases lines.len(), 1int,
{
    if lines.len() == 0 {
    } else {
        let t = trim(lines[0]);
        if t.len() > 0 && t[0] == 43 {
            if t.len() > 1 && t.drop_first() != id {
            } else {
                lemma_fastq_qual_lengths(id, acc, Seq::empty(), lines.drop_first());
            }
        } else if t.len() == 0 {
            lemma_fastq_seq_lengths(id, acc, lines.drop_first());
        } else {
            lemma_fastq_seq_lengths(id, acc + t, lines.drop_first());
        }
    }
}

proof fn lemma_fastq_qual_lengths(id: Seq<u8>, sq: Seq<u8>, qacc: Seq<u8>, lines: Seq<Seq<u8>>)
    requires
        qacc.len() <= sq.len(),
    ensures
        forall|i: int|
            0 <= i < fastq_qual(id, sq, qacc, lines).records.len() ==> (#[trigger] fastq_qual(
                id,
                sq,
                qacc,
                lines,
            ).records[i]).sequence.len() == fastq_qual(id, sq, qacc, lines).records[i].quality.len(),
    decreases lines.len(), 2int,
{
    if qacc.len() >= sq.len() {
        assert(qacc.len() == sq.len());
        lemma_fastq_parse_lengths(lines);
        let sub = fastq_parse(lines);
        let full = fastq_qual(id, sq, qacc, lines);
        assert(forall|i: int|
            1 <= i < full.records.len() ==> #[trigger] full.records[i] == sub.records[i - 1]);
    } else if lines.len() == 0 {
    } else {
        let t = trim(lines[0]);
        if t.len() == 0 {
            lemma_fastq_qual_lengths(id, sq, qacc, lines.drop_first());
        } else if t.len() > sq.len() - qacc.len() {
        } else {
            assert((qacc + t).len() <= sq.len());
            lemma_fastq_qual_lengths(id, sq, qacc + t, lines.drop_first());
        }
    }
}

/// A single FASTQ record: identifier, sequence, and quality string.
#[derive(Debug, Clone, PartialEq)]
pub struct FastqRecord {
    pub id: String,
    pub sequence: String,
    pub quality: String,
}

/// True when the executable record is the UTF-8 reading of the
/// specification-level record.
pub open spec fn fastq_rec_matches(r: FastqRecord, s: SpecFastqRecord) -> bool {
    &&& valid_utf8(s.id)
    &&& valid_utf8(s.sequence)
    &&& valid_utf8(s.quality)
    &&& r.id@ == decode_utf8(s.id)
    &&& r.sequence@ == decode_utf8(s.sequence)
    &&& r.quality@ == decode_utf8(s.quality)
}

/// True when all three fields of the specification-level record are valid
/// UTF-8.
pub open spec fn fastq_rec_utf8(s: SpecFastqRecord) -> bool {
    valid_utf8(s.id) && valid_utf8(s.sequence) && valid_utf8(s.quality)
}

/// Reads FASTQ records lazily from an in-memory byte stream, decompressing
/// gzip or bzip2 input up front.
pub struct FastqReader {
    scanner: LineScanner,
    size_hint: usize,
}

impl FastqReader {
    /// Well-formedness of the reader's cursor.
    pub closed spec fn wf(self) -> bool {
        self.scanner.wf()
    }

    /// The tokenization of everything this reader has not yet consumed.
    pub closed spec fn parse_state(self) -> FastqParse {
        fastq_parse(self.scanner.lines())
    }

    /// Wraps a raw byte source, sniffing and undoing gzip or bzip2
    /// compression. The size hint (floor-clamped to 64) only pre-allocates;
    /// the contract shows it never affects what is parsed.
    pub fn from_reader_with_capacity(source: Vec<u8>, sequence_size_hint: usize) -> (r: Result<
        Self,
        ParseError,
    >)
        ensures
            spec_decode(source@) matches Some(d) ==> {
                &&& r matches Ok(rd)
                &&& rd.wf()
                &&& rd.parse_state() == fastq_parse(spec_lines(d))
            },
            spec_decode(source@) is None ==> (r matches Err(e) && e == ParseError::Decompress),
    {
        let data = match decode_input(source) {
            Ok(d) => d,
            Err(e) => {
                return Err(e);
            },
        };
        let hint = if sequence_size_hint < 64 {
            64
        } else {
            sequence_size_hint
        };
        Ok(FastqReader { scanner: LineScanner::new(data), size_hint: hint })
    }

    /// Consumes blank lines until the next `@` marker line and returns the
    /// trimmed identifier after the marker.
    fn next_id(&mut self) -> (r: Result<Option<Vec<u8>>, ParseError>)
        requires
            old(self).wf(),
        ensures
            final(self).wf(),
            ({
                let p = old(self).parse_state();
                match r {
                    Ok(o) => match o {
                        Some(h) => p == fastq_seq(h@, Seq::empty(), final(self).scanner.lines()),
                        None => {
                            &&& p == (FastqParse {
                                records: Seq::empty(),
                                terminal: Option::None,
                            })
                            &&& final(self).parse_state() == p
                        },
                    },
                    Err(e) => p.records.len() == 0 && p.terminal == Option::Some(e),
                }
            }),
    {
        let ghost p = self.parse_state();
        loop
            invariant
                self.wf(),
                p == old(self).parse_state(),
                fastq_parse(self.scanner.lines()) == p,
            decreases self.scanner.lines().len(),
        {
            let ghost ls = self.scanner.lines();
            match self.scanner.next_line() {
                None => {
                    proof {
                        assert(ls.len() == 0);
                    }
                    return Ok(None);
                },
                Some(line) => {
                    let t = trim_bytes(&line);
                    proof {
                        assert(line@ == ls[0]);
                        assert(self.scanner.lines() == ls.drop_first());
                    }
                    if t.len() == 0 {
                        // blank separator: the parse is unchanged
                    } else if t[0] == 64 {
                        let h = copy_range(&t, 1, t.len());
                        proof {
                            assert(h@ =~= trim(ls[0]).drop_first());
                        }
                        return Ok(Some(h));
                    } else {
                        return Err(ParseError::FastqMissingMarker);
                    }
                },
            }
        }
    }

    /// Produces the next record, a clean end of stream (`Ok(None)`), or the
    /// fatal error that stops this reader. After the first `Ok(None)` every
    /// further call returns `Ok(None)` again. Every record emitted has a
    /// quality string exactly as long as its sequence.
    pub fn read_next(&mut self) -> (r: Result<Option<FastqRecord>, ParseError>)
        requires
            old(self).wf(),
        ensures
            final(self).wf(),
            ({
                let p = old(self).parse_state();
                if p.records.len() > 0 {
                    if fastq_rec_utf8(p.records[0]) {
                        &&& r matches Ok(o)
                        &&& o matches Some(rec)
                        &&& fastq_rec_matches(rec, p.records[0])
                        &&& final(self).parse_state() == (FastqParse {
                            records: p.records.drop_first(),
                            terminal: p.terminal,
                        })
                    } else {
                        r matches Err(e) && e == ParseError::InvalidUtf8
                    }
                } else {
                    match p.terminal {
                        Option::None => {
                            &&& r matches Ok(o)
                            &&& o is None
                            &&& final(self).parse_state() == p
                        },
                        Option::Some(e0) => r matches Err(e) && e == e0,
                    }
                }
            }),
    {
        let ghost p = self.parse_state();
        let id: Vec<u8> = match self.next_id() {
            Ok(Some(h)) => h,
            Ok(None) => {
                return Ok(None);
            },
            Err(e) => {
                return Err(e);
            },
        };
        // sequence lines until the '+' separator
        let mut seq_acc: Vec<u8> = Vec::with_capacity(self.size_hint);
        loop
            invariant_except_break
                self.wf(),
                p == old(self).parse_state(),
                p == fastq_seq(id@, seq_acc@, self.scanner.lines()),
            ensures
                self.wf(),
                p == old(self).parse_state(),
                p == fastq_qual(id@, seq_acc@, Seq::empty(), self.scanner.lines()),
            decreases self.scanner.lines().len(),
        {
            let ghost ls = self.scanner.lines();
            match self.scanner.next_line() {
                None => {
                    proof {
                        assert(ls.len() == 0);
                    }
                    return Err(ParseError::UnexpectedEofSequence);
                },
                Some(line) => {
                    let t = trim_bytes(&line);
                    proof {
                        assert(line@ == ls[0]);
                        assert(self.scanner.lines() == ls.drop_first());
                    }
                    if t.len() > 0 && t[0] == 43 {
                        if t.len() > 1 {
                            let plus_id = copy_range(&t, 1, t.len());
                            proof {
                                assert(plus_id@ =~= trim(ls[0]).drop_first());
                            }
                            if !bytes_eq(&plus_id, &id) {
                                return Err(ParseError::PlusLineMismatch);
                            }
                        }
                        break;
                    } else if t.len() == 0 {
                        // blank separator inside the record body
                    } else {
                        let ghost old_acc = seq_acc@;
                        seq_acc.extend_from_slice(t.as_slice());
                        proof {
                            assert(seq_acc@ == old_acc + trim(ls[0]));
                        }
                    }
                },
            }
        }
        // quality lines until the sequence length is reached
        let seq_len = seq_acc.len();
        let mut qual: Vec<u8> = Vec::with_capacity(seq_len);
        while qual.len() < seq_len
            invariant
                self.wf(),
                p == old(self).parse_state(),
                seq_len == seq_acc@.len(),
                qual@.len() <= seq_acc@.len(),
                p == fastq_qual(id@, seq_acc@, qual@, self.scanner.lines()),
            decreases self.scanner.lines().len(),
        {
            let ghost ls = self.scanner.lines();
            match self.scanner.next_line() {
                None => {
                    proof {
                        assert(ls.len() == 0);
                    }
                    return Err(ParseError::UnexpectedEofQuality);
                },
                Some(line) => {
                    let t = trim_bytes(&line);
                    proof {
                        assert(line@ == ls[0]);
                        assert(self.scanner.lines() == ls.drop_first());
                    }
                    if t.len() > 0 {
                        let needed = seq_len - qual.len();
                        if t.len() > needed {
                            // the quality block can no longer equal the
                            // sequence length exactly: reject the record
                            proof {
                                assert(p.records.len() == 0);
                                assert(p.terminal == Option::Some(
                                    ParseError::QualityLengthMismatch,
                                ));
                            }
                            return Err(ParseError::QualityLengthMismatch);
                        }
                        let ghost old_q = qual@;
                        qual.extend_from_slice(t.as_slice());
                        proof {
                            assert(qual@ == old_q + trim(ls[0]));
                        }
                    }
                },
            }
        }
        let ghost gid = id@;
        let ghost gsq = seq_acc@;
        let ghost gq = qual@;
        let ghost rest = self.parse_state();
        proof {
            assert(p.records[0] == SpecFastqRecord { id: gid, sequence: gsq, quality: gq });
            assert(p.records.drop_first() =~= rest.records);
        }
        let id_s = utf8_to_string(id);
        let seq_s = utf8_to_string(seq_acc);
        let q_s = utf8_to_string(qual);
        match (id_s, seq_s, q_s) {
            (Some(i), Some(s), Some(q)) => {
                proof {
                    assert(rest =~= (FastqParse {
                        records: p.records.drop_first(),
                        terminal: p.terminal,
                    }));
                }
                Ok(Some(FastqRecord { id: i, sequence: s, quality: q }))
            },
            _ => Err(ParseError::InvalidUtf8),
        }
    }

    /// Iterator-style form of [`Self::read_next`]: `None` marks the clean
    /// end of the stream, and stays `None` on every further call.
    pub fn next(&mut self) -> (r: Option<Result<FastqRecord, ParseError>>)
        requires
            old(self).wf(),
        ensures
            final(self).wf(),
            ({
                let p = old(self).parse_state();
                if p.records.len() > 0 {
                    if fastq_rec_utf8(p.records[0]) {
                        &&& r matches Some(q)
                        &&& q matches Ok(rec)
                        &&& fastq_rec_matches(rec, p.records[0])
                        &&& final(self).parse_state() == (FastqParse {
                            records: p.records.drop_first(),
                            terminal: p.terminal,
                        })
                    } else {
                        r matches Some(q) && q matches Err(e) && e == ParseError::InvalidUtf8
                    }
                } else {
                    match p.terminal {
                        Option::None => r is None && final(self).parse_state() == p,
                        Option::Some(e0) => {
                            &&& r matches Some(q)
                            &&& q matches Err(e)
                            &&& e == e0
                        },
                    }
                }
            }),
    {
        match self.read_next() {
            Ok(Some(rec)) => Some(Ok(rec)),
            Ok(None) => None,
            Err(e) => Some(Err(e)),
        }
    }

    /// Drains the reader: all records in stream order, or the first error,
    /// with no partial result on failure.
    pub fn read_all(&mut self) -> (r: Result<Vec<FastqRecord>, ParseError>)
        requires
            old(self).wf(),
        ensures
            final(self).wf(),
            ({
                let p = old(self).parse_state();
                match r {
                    Ok(v) => {
                        &&& p.terminal is None
                        &&& v@.len() == p.records.len()
                        &&& forall|i: int|
                            0 <= i < p.records.len() ==> fastq_rec_matches(
                                v@[i],
                                #[trigger] p.records[i],
                            )
                    },
                    Err(e) => {
                        ||| (p.terminal == Option::Some(e) && (forall|i: int|
                            0 <= i < p.records.len() ==> fastq_rec_utf8(#[trigger] p.records[i])))
                        ||| (e == ParseError::InvalidUtf8 && (exists|i: int|
                            0 <= i < p.records.len() && !fastq_rec_utf8(#[trigger] p.records[i])))
                    },
                }
            }),
    {
        let ghost p = self.parse_state();
        let mut v: Vec<FastqRecord> = Vec::new();
        let ghost k: int = 0;
        loop
            invariant
                self.wf(),
                p == old(self).parse_state(),
                0 <= k <= p.records.len(),
                v@.len() == k,
                forall|i: int| 0 <= i < k ==> fastq_rec_matches(v@[i], #[trigger] p.records[i]),
                self.parse_state() == (FastqParse {
                    records: p.records.skip(k),
                    terminal: p.terminal,
                }),
            decreases p.records.len() - k,
        {
            let ghost cur = self.parse_state();
            match self.read_next() {
                Ok(Some(rec)) => {
                    proof {
                        assert(cur.records[0] == p.records[k]);
                        assert(cur.records.drop_first() =~= p.records.skip(k + 1));
                    }
                    v.push(rec);
                    proof {
                        k = k + 1;
                    }
                },
                Ok(None) => {
                    proof {
                        assert(p.records.skip(k).len() == 0);
                        assert(k == p.records.len());
                    }
                    return Ok(v);
                },
                Err(e) => {
                    proof {
                        if cur.records.len() > 0 {
                            assert(!fastq_rec_utf8(p.records[k]));
                        } else {
                            assert(k == p.records.len());
                            assert(forall|i: int|
                                0 <= i < p.records.len() ==> fastq_rec_utf8(
                                    #[trigger] p.records[i],
                                ));
                        }
                    }
                    return Err(e);
                },
            }
        }
    }

    /// Pulls up to `count` records in one call; shorter only at the end of
    /// the stream. The first error encountered is surfaced and any records
    /// read before it are discarded.
    pub fn read_batch(&mut self, count: usize) -> (r: Result<Vec<FastqRecord>, ParseError>)
        requires
            old(self).wf(),
        ensures
            final(self).wf(),
            ({
                let p = old(self).parse_state();
                let n = if p.records.len() < count {
                    p.records.len() as int
                } else {
                    count as int
                };
                match r {
                    Ok(v) => {
                        &&& v@.len() == n
                        &&& forall|i: int|
                            0 <= i < n ==> fastq_rec_matches(v@[i], #[trigger] p.records[i])
                        &&& (n < count ==> p.terminal is None)
                        &&& final(self).parse_state() == (FastqParse {
                            records: p.records.skip(n),
                            terminal: p.terminal,
                        })
                    },
                    Err(e) => {
                        ||| (p.terminal == Option::Some(e) && p.records.len() < count && (
                        forall|i: int|
                            0 <= i < p.records.len() ==> fastq_rec_utf8(#[trigger] p.records[i])))
                        ||| (e == ParseError::InvalidUtf8 && (exists|i: int|
                            0 <= i < n && !fastq_rec_utf8(#[trigger] p.records[i])))
                    },
                }
            }),
    {
        let ghost p = self.parse_state();
        let mut v: Vec<FastqRecord> = Vec::with_capacity(count);
        let mut got: usize = 0;
        while got < count
            invariant
                self.wf(),
                p == old(self).parse_state(),
                0 <= got <= count,
                got <= p.records.len(),
                v@.len() == got,
                forall|i: int| 0 <= i < got ==> fastq_rec_matches(v@[i], #[trigger] p.records[i]),
                self.parse_state() == (FastqParse {
                    records: p.records.skip(got as int),
                    terminal: p.terminal,
                }),
            decreases count - got,
        {
            let ghost cur = self.parse_state();
            match self.read_next() {
                Ok(Some(rec)) => {
                    proof {
                        assert(cur.records[0] == p.records[got as int]);
                        assert(cur.records.drop_first() =~= p.records.skip(got as int + 1));
                    }
                    v.push(rec);
                    got += 1;
                },
                Ok(None) => {
                    proof {
                        assert(p.records.skip(got as int).len() == 0);
                        assert(got == p.records.len());
                    }
                    return Ok(v);
                },
                Err(e) => {
                    proof {
                        if cur.records.len() > 0 {
                            assert(!fastq_rec_utf8(p.records[got as int]));
                        } else {
                            assert(got == p.records.len());
                            assert(forall|i: int|
                                0 <= i < p.records.len() ==> fastq_rec_utf8(
                                    #[trigger] p.records[i],
                                ));
                        }
                    }
                    return Err(e);
                },
            }
        }
        Ok(v)
    }
}

} // verus!
