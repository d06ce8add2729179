//! The line-oriented FASTA reader: a specification-level parse of the
//! decoded stream, and a verified reader that produces one record per call.

use vstd::prelude::*;

verus! {

use vstd::utf8::{valid_utf8, decode_utf8};
use crate::error::ParseError;
use crate::text::{LineScanner, copy_range, spec_lines, trim, trim_bytes, utf8_to_string};
use crate::compress::{spec_decode, decode_input};

/// One FASTA record at the specification level: the raw bytes of the
/// trimmed header (marker stripped) and of the concatenated trimmed
/// sequence lines.
#[verifier::ext_equal]
pub struct SpecFastaRecord {
    pub header: Seq<u8>,
    pub sequence: Seq<u8>,
}

/// The complete outcome of tokenizing a FASTA stream: the records emitted
/// in order, then either a clean end (`None`) or the fatal error that
/// stopped the reader.
#[verifier::ext_equal]
pub struct FastaParse {
    pub records: Seq<SpecFastaRecord>,
    pub terminal: Option<ParseError>,
}

/// Tokenizes the given lines, `pending` holding a header whose marker line
/// was already consumed (the lookahead buffered by the previous record).
pub open spec fn fasta_parse(pending: Option<Seq<u8>>, lines: Seq<Seq<u8>>) -> FastaParse
    decreases lines.len(), 1int,
{
    match pending {
        Option::Some(h) => fasta_body(h, Seq::empty(), lines),
        Option::None => {
            if lines.len() == 0 {
                FastaParse { records: Seq::empty(), terminal: Option::None }
            } else {
                let t = trim(lines[0]);
                if t.len() == 0 {
                    fasta_parse(Option::None, lines.drop_first())
                } else if t[0] == 62 {
                    fasta_parse(Option::Some(t.drop_first()), lines.drop_first())
                } else {
                    FastaParse {
                        records: Seq::empty(),
                        terminal: Option::Some(ParseError::FastaMissingMarker),
                    }
                }
            }
        },
    }
}

/// Accumulates sequence lines for the record headed by `h` until the next
/// marker line or the end of input.
pub open spec fn fasta_body(h: Seq<u8>, acc: Seq<u8>, lines: Seq<Seq<u8>>) -> FastaParse
    decreases lines.len(), 0int,
{
    if lines.len() == 0 {
        FastaParse {
            records: seq![SpecFastaRecord { header: h, sequence: acc }],
            terminal: Option::None,
        }
    } else {
        let t = trim(lines[0]);
        if t.len() == 0 {
            fasta_body(h, acc, lines.drop_first())
        } else if t[0] == 62 {
            let sub = fasta_parse(Option::Some(t.drop_first()), lines.drop_first());
            FastaParse {
                records: seq![SpecFastaRecord { header: h, sequence: acc }] + sub.records,
                terminal: sub.terminal,
            }
        } else {
            fasta_body(h, acc + t, lines.drop_first())
        }
    }
}

/// The concatenation of the trimmed lines, in order.
pub open spec fn concat_trims(lines: Seq<Seq<u8>>) -> Seq<u8>
    decreases lines.len(),
{
    if lines.len() == 0 {
        Seq::empty()
    } else {
        trim(lines[0]) + concat_trims(lines.drop_first())
    }
}

proof fn lemma_fasta_body_concat(h: Seq<u8>, acc: Seq<u8>, body: Seq<Seq<u8>>)
    requires
        forall|i: int|
            0 <= i < body.len() ==> (trim(#[trigger] body[i]).len() > 0 ==> trim(body[i])[0] != 62),
    ensures
        fasta_body(h, acc, body) == (FastaParse {
            records: seq![SpecFastaRecord { header: h, sequence: acc + concat_trims(body) }],
            terminal: Option::None,
        }),
    decreases body.len(),
{
    if body.len() == 0 {
        assert(acc + concat_trims(body) =~= acc);
    } else {
        let t = trim(body[0]);
        let rest = body.drop_first();
        assert(forall|i: int|
            0 <= i < rest.len() ==> #[trigger] rest[i] == body[i + 1]);
        if t.len() == 0 {
            lemma_fasta_body_concat(h, acc, rest);
            assert(acc + concat_trims(rest) =~= acc + concat_trims(body));
        } else {
            lemma_fasta_body_concat(h, acc + t, rest);
            assert((acc + t) + concat_trims(rest) =~= acc + concat_trims(body));
        }
        assert(fasta_body(h, acc, body) =~= (FastaParse {
            records: seq![SpecFastaRecord { header: h, sequence: acc + concat_trims(body) }],
            terminal: Option::None,
        }));
    }
}

/// Law: a marker line followed by body lines, none of which opens a new
/// record, parses to exactly one record. Its header is the trimmed text
/// after `>` up to the end of the line, and its sequence is the
/// concatenation of the trimmed body lines — whatever width the sequence
/// was wrapped at, and wherever blank lines were inserted.
pub proof fn lemma_fasta_single_record(hline: Seq<u8>, body: Seq<Seq<u8>>)
    requires
        trim(hline).len() > 0,
        trim(hline)[0] == 62,
        forall|i: int|
            0 <= i < body.len() ==> (trim(#[trigger] body[i]).len() > 0 ==> trim(body[i])[0] != 62),
    ensures
        fasta_parse(Option::None, seq![hline] + body) == (FastaParse {
            records: seq![
                SpecFastaRecord {
                    header: trim(hline).drop_first(),
                    sequence: concat_trims(body),
                },
            ],
            terminal: Option::None,
        }),
{
    let lines = seq![hline] + body;
    let h = trim(hline).drop_first();
    assert(lines[0] == hline);
    assert(lines.drop_first() =~= body);
    assert(fasta_parse(Option::None, lines) == fasta_parse(Option::Some(h), body));
    assert(fasta_parse(Option::Some(h), body) == fasta_body(h, Seq::empty(), body));
    lemma_fasta_body_concat(h, Seq::empty(), body);
    assert(Seq::<u8>::empty() + concat_trims(body) =~= concat_trims(body));
}

/// A single FASTA sequence with its header and sequence data.
#[derive(Debug, Clone, PartialEq)]
pub struct FastaRecord {
    pub header: String,
    pub sequence: String,
}

/// True when the executable record is the UTF-8 reading of the
/// specification-level record.
pub open spec fn fasta_rec_matches(r: FastaRecord, s: SpecFastaRecord) -> bool {
    &&& valid_utf8(s.header)
    &&& valid_utf8(s.sequence)
    &&& r.header@ == decode_utf8(s.header)
    &&& r.sequence@ == decode_utf8(s.sequence)
}

/// True when both fields of the specification-level record are valid UTF-8.
pub open spec fn fasta_rec_utf8(s: SpecFastaRecord) -> bool {
    valid_utf8(s.header) && valid_utf8(s.sequence)
}

/// Reads FASTA records lazily from an in-memory byte stream, decompressing
/// gzip or bzip2 input up front.
pub struct FastaReader {
    scanner: LineScanner,
    pending: Option<Vec<u8>>,
    size_hint: usize,
}

impl FastaReader {
    /// Well-formedness of the reader's cursor.
    pub closed spec fn wf(self) -> bool {
        self.scanner.wf()
    }

    /// The buffered lookahead header, if any.
    pub closed spec fn pending_view(self) -> Option<Seq<u8>> {
        match self.pending {
            Option::Some(v) => Option::Some(v@),
            Option::None => Option::None,
        }
    }

    /// The tokenization of everything this reader has not yet consumed.
    pub closed spec fn parse_state(self) -> FastaParse {
        fasta_parse(self.pending_view(), self.scanner.lines())
    }

    /// Wraps a raw byte source, sniffing and undoing gzip or bzip2
    /// compression. The size hint (floor-clamped to 64) only pre-allocates;
    /// the contract shows it never affects what is parsed.
    pub fn from_reader_with_capacity(source: Vec<u8>, sequence_size_hint: usize) -> (r: Result<
        Self,
        ParseError,
    >)
        ensures
            spec_decode(source@) matches Some(d) ==> {
                &&& r matches Ok(rd)
                &&& rd.wf()
                &&& rd.parse_state() == fasta_parse(Option::None, spec_lines(d))
            },
            spec_decode(source@) is None ==> (r matches Err(e) && e == ParseError::Decompress),
    {
        let data = match decode_input(source) {
            Ok(d) => d,
            Err(e) => {
                return Err(e);
            },
        };
        let hint = if sequence_size_hint < 64 {
            64
        } else {
            sequence_size_hint
        };
        Ok(FastaReader { scanner: LineScanner::new(data), pending: None, size_hint: hint })
    }

    /// Consumes blank lines until a header is available: the buffered
    /// lookahead, or the next line whose trimmed text starts with `>`.
    fn next_header(&mut self) -> (r: Result<Option<Vec<u8>>, ParseError>)
        requires
            old(self).wf(),
        ensures
            final(self).wf(),
            ({
                let p = old(self).parse_state();
                match r {
                    Ok(o) => match o {
                        Some(h) => {
                            &&& final(self).pending_view() is None
                            &&& p == fasta_body(h@, Seq::empty(), final(self).scanner.lines())
                        },
                        None => {
                            &&& p == (FastaParse {
                                records: Seq::empty(),
                                terminal: Option::None,
                            })
                            &&& final(self).parse_state() == p
                        },
                    },
                    Err(e) => p.records.len() == 0 && p.terminal == Option::Some(e),
                }
            }),
    {
        let ghost p = self.parse_state();
        let pend = self.pending.take();
        match pend {
            Some(h) => {
                proof {
                    assert(p == fasta_body(h@, Seq::empty(), self.scanner.lines()));
                }
                Ok(Some(h))
            },
            None => {
                loop
                    invariant
                        self.wf(),
                        self.pending_view() is None,
                        p == old(self).parse_state(),
                        fasta_parse(Option::None, self.scanner.lines()) == p,
                    decreases self.scanner.lines().len(),
                {
                    let ghost ls = self.scanner.lines();
                    match self.scanner.next_line() {
                        None => {
                            proof {
                                assert(ls.len() == 0);
                                assert(p == (FastaParse {
                                    records: Seq::empty(),
                                    terminal: Option::None,
                                }));
                            }
                            return Ok(None);
                        },
                        Some(line) => {
                            let t = trim_bytes(&line);
                            proof {
                                assert(line@ == ls[0]);
                                assert(self.scanner.lines() == ls.drop_first());
                            }
                            if t.len() == 0 {
                                // blank separator: the parse is unchanged
                            } else if t[0] == 62 {
                                let h = copy_range(&t, 1, t.len());
                                proof {
                                    assert(h@ =~= trim(ls[0]).drop_first());
                                    assert(p == fasta_parse(
                                        Option::Some(h@),
                                        self.scanner.lines(),
                                    ));
                                }
                                return Ok(Some(h));
                            } else {
                                proof {
                                    assert(p.records.len() == 0);
                                    assert(p.terminal == Option::Some(
                                        ParseError::FastaMissingMarker,
                                    ));
                                }
                                return Err(ParseError::FastaMissingMarker);
                            }
                        },
                    }
                }
            },
        }
    }

    /// Produces the next record, a clean end of stream (`Ok(None)`), or the
    /// fatal error that stops this reader. After the first `Ok(None)` every
    /// further call returns `Ok(None)` again.
    pub fn read_next(&mut self) -> (r: Result<Option<FastaRecord>, ParseError>)
        requires
            old(self).wf(),
        ensures
            final(self).wf(),
            ({
                let p = old(self).parse_state();
                if p.records.len() > 0 {
                    if fasta_rec_utf8(p.records[0]) {
                        &&& r matches Ok(o)
                        &&& o matches Some(rec)
                        &&& fasta_rec_matches(rec, p.records[0])
                        &&& final(self).parse_state() == (FastaParse {
                            records: p.records.drop_first(),
                            terminal: p.terminal,
                        })
                    } else {
                        r matches Err(e) && e == ParseError::InvalidUtf8
                    }
                } else {
                    match p.terminal {
                        Option::None => {
                            &&& r matches Ok(o)
                            &&& o is None
                            &&& final(self).parse_state() == p
                        },
                        Option::Some(e0) => r matches Err(e) && e == e0,
                    }
                }
            }),
    {
        let ghost p = self.parse_state();
        let header_vec: Vec<u8> = match self.next_header() {
            Ok(Some(h)) => h,
            Ok(None) => {
                return Ok(None);
            },
            Err(e) => {
                return Err(e);
            },
        };
        let mut seq_acc: Vec<u8> = Vec::with_capacity(self.size_hint);
        loop
            invariant_except_break
                self.wf(),
                self.pending_view() is None,
                p == fasta_body(header_vec@, seq_acc@, self.scanner.lines()),
            ensures
                self.wf(),
                ({
                    let rest = self.parse_state();
                    p == (FastaParse {
                        records: seq![
                            SpecFastaRecord { header: header_vec@, sequence: seq_acc@ },
                        ] + rest.records,
                        terminal: rest.terminal,
                    })
                }),
            decreases self.scanner.lines().len(),
        {
            let ghost ls = self.scanner.lines();
            match self.scanner.next_line() {
                None => {
                    proof {
                        assert(ls.len() == 0);
                        let rest = self.parse_state();
                        assert(rest.records =~= Seq::<SpecFastaRecord>::empty());
                        assert(p.records =~= seq![
                            SpecFastaRecord { header: header_vec@, sequence: seq_acc@ },
                        ] + rest.records);
                    }
                    break;
                },
                Some(line) => {
                    let t = trim_bytes(&line);
                    proof {
                        assert(line@ == ls[0]);
                        assert(self.scanner.lines() == ls.drop_first());
                    }
                    if t.len() == 0 {
                        // blank separator inside the record body
                    } else if t[0] == 62 {
                        let h2 = copy_range(&t, 1, t.len());
                        self.pending = Some(h2);
                        proof {
                            assert(trim(ls[0]).drop_first() =~= t@.subrange(1, t@.len() as int));
                            assert(self.parse_state() == fasta_parse(
                                Option::Some(trim(ls[0]).drop_first()),
                                ls.drop_first(),
                            ));
                        }
                        break;
                    } else {
                        let ghost old_acc = seq_acc@;
                        seq_acc.extend_from_slice(t.as_slice());
                        proof {
                            assert(seq_acc@ == old_acc + trim(ls[0]));
                        }
                    }
                },
            }
        }
        let ghost gh = header_vec@;
        let ghost gs = seq_acc@;
        let ghost rest = self.parse_state();
        proof {
            assert(p.records[0] == SpecFastaRecord { header: gh, sequence: gs });
            assert(p.records.drop_first() =~= rest.records);
        }
        let hdr_s = utf8_to_string(header_vec);
        let seq_s = utf8_to_string(seq_acc);
        match (hdr_s, seq_s) {
            (Some(h), Some(s)) => {
                proof {
                    assert(rest =~= (FastaParse {
                        records: p.records.drop_first(),
                        terminal: p.terminal,
                    }));
                }
                Ok(Some(FastaRecord { header: h, sequence: s }))
            },
            _ => Err(ParseError::InvalidUtf8),
        }
    }

    /// Iterator-style form of [`Self::read_next`]: `None` marks the clean
    /// end of the stream, and stays `None` on every further call.
    pub fn next(&mut self) -> (r: Option<Result<FastaRecord, ParseError>>)
        requires
            old(self).wf(),
        ensures
            final(self).wf(),
            ({
                let p = old(self).parse_state();
                if p.records.len() > 0 {
                    if fasta_rec_utf8(p.records[0]) {
                        &&& r matches Some(q)
                        &&& q matches Ok(rec)
                        &&& fasta_rec_matches(rec, p.records[0])
                        &&& final(self).parse_state() == (FastaParse {
                            records: p.records.drop_first(),
                            terminal: p.terminal,
                        })
                    } else {
                        r matches Some(q) && q matches Err(e) && e == ParseError::InvalidUtf8
                    }
                } else {
                    match p.terminal {
                        Option::None => r is None && final(self).parse_state() == p,
                        Option::Some(e0) => {
                            &&& r matches Some(q)
                            &&& q matches Err(e)
                            &&& e == e0
                        },
                    }
                }
            }),
    {
        match self.read_next() {
            Ok(Some(rec)) => Some(Ok(rec)),
            Ok(None) => None,
            Err(e) => Some(Err(e)),
        }
    }

    /// Drains the reader: all records in stream order, or the first error,
    /// with no partial result on failure.
    pub fn read_all(&mut self) -> (r: Result<Vec<FastaRecord>, ParseError>)
        requires
            old(self).wf(),
        ensures
            final(self).wf(),
            ({
                let p = old(self).parse_state();
                match r {
                    Ok(v) => {
                        &&& p.terminal is None
                        &&& v@.len() == p.records.len()
                        &&& forall|i: int|
                            0 <= i < p.records.len() ==> fasta_rec_matches(
                                v@[i],
                                #[trigger] p.records[i],
                            )
                    },
                    Err(e) => {
                        ||| (p.terminal == Option::Some(e) && (forall|i: int|
                            0 <= i < p.records.len() ==> fasta_rec_utf8(#[trigger] p.records[i])))
                        ||| (e == ParseError::InvalidUtf8 && (exists|i: int|
                            0 <= i < p.records.len() && !fasta_rec_utf8(#[trigger] p.records[i])))
                    },
                }
            }),
    {
        let ghost p = self.parse_state();
        let mut v: Vec<FastaRecord> = Vec::new();
        let ghost k: int = 0;
        loop
            invariant
                self.wf(),
                p == old(self).parse_state(),
                0 <= k <= p.records.len(),
                v@.len() == k,
                forall|i: int| 0 <= i < k ==> fasta_rec_matches(v@[i], #[trigger] p.records[i]),
                self.parse_state() == (FastaParse {
                    records: p.records.skip(k),
                    terminal: p.terminal,
                }),
            decreases p.records.len() - k,
        {
            let ghost cur = self.parse_state();
            match self.read_next() {
                Ok(Some(rec)) => {
                    proof {
                        assert(cur.records[0] == p.records[k]);
                        assert(cur.records.drop_first() =~= p.records.skip(k + 1));
                    }
                    v.push(rec);
                    proof {
                        k = k + 1;
                    }
                },
                Ok(None) => {
                    proof {
                        assert(p.records.skip(k).len() == 0);
                        assert(k == p.records.len());
                    }
                    return Ok(v);
                },
                Err(e) => {
                    proof {
                        if cur.records.len() > 0 {
                            assert(!fasta_rec_utf8(p.records[k]));
                        } else {
                            assert(k == p.records.len());
                            assert(forall|i: int|
                                0 <= i < p.records.len() ==> fasta_rec_utf8(
                                    #[trigger] p.records[i],
                                ));
                        }
                    }
                    return Err(e);
                },
            }
        }
    }

    /// Pulls up to `count` records in one call; shorter only at the end of
    /// the stream. The first error encountered is surfaced and any records
    /// read before it are discarded.
    pub fn read_batch(&mut self, count: usize) -> (r: Result<Vec<FastaRecord>, ParseError>)
        requires
            old(self).wf(),
        ensures
            final(self).wf(),
            ({
                let p = old(self).parse_state();
                let n = if p.records.len() < count {
                    p.records.len() as int
                } else {
                    count as int
                };
                match r {
                    Ok(v) => {
                        &&& v@.len() == n
                        &&& forall|i: int|
                            0 <= i < n ==> fasta_rec_matches(v@[i], #[trigger] p.records[i])
                        &&& (n < count ==> p.terminal is None)
                        &&& final(self).parse_state() == (FastaParse {
                            records: p.records.skip(n),
                            terminal: p.terminal,
                        })
                    },
                    Err(e) => {
                        ||| (p.terminal == Option::Some(e) && p.records.len() < count && (
                        forall|i: int|
                            0 <= i < p.records.len() ==> fasta_rec_utf8(#[trigger] p.records[i])))
                        ||| (e == ParseError::InvalidUtf8 && (exists|i: int|
                            0 <= i < n && !fasta_rec_utf8(#[trigger] p.records[i])))
                    },
                }
            }),
    {
        let ghost p = self.parse_state();
        let mut v: Vec<FastaRecord> = Vec::with_capacity(count);
        let mut got: usize = 0;
        while got < count
            invariant
                self.wf(),
                p == old(self).parse_state(),
                0 <= got <= count,
                got <= p.records.len(),
                v@.len() == got,
                forall|i: int| 0 <= i < got ==> fasta_rec_matches(v@[i], #[trigger] p.records[i]),
                self.parse_state() == (FastaParse {
                    records: p.records.skip(got as int),
                    terminal: p.terminal,
                }),
            decreases count - got,
        {
            let ghost cur = self.parse_state();
            match self.read_next() {
                Ok(Some(rec)) => {
                    proof {
                        assert(cur.records[0] == p.records[got as int]);
                        assert(cur.records.drop_first() =~= p.records.skip(got as int + 1));
                    }
                    v.push(rec);
                    got += 1;
                },
                Ok(None) => {
                    proof {
                        assert(p.records.skip(got as int).len() == 0);
                        assert(got == p.records.len());
                    }
                    return Ok(v);
                },
                Err(e) => {
                    proof {
                        if cur.records.len() > 0 {
                            assert(!fasta_rec_utf8(p.records[got as int]));
                        } else {
                            assert(got == p.records.len());
                            assert(forall|i: int|
                                0 <= i < p.records.len() ==> fasta_rec_utf8(
                                    #[trigger] p.records[i],
                                ));
                        }
                    }
                    return Err(e);
                },
            }
        }
        Ok(v)
    }
}

} // verus!
