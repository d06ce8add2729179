//! Byte-level text model: whitespace trimming and line splitting, with the
//! lemmas that connect scanning loops to the recursive definitions.

use vstd::prelude::*;

verus! {

use crate::is_space;
use crate::is_space_byte;

/// The given sequence with leading whitespace removed.
pub open spec fn trim_start(s: Seq<u8>) -> Seq<u8>
    decreases s.len(),
{
    if s.len() == 0 {
        s
    } else if is_space(s[0]) {
        trim_start(s.drop_first())
    } else {
        s
    }
}

/// The given sequence with trailing whitespace removed.
pub open spec fn trim_end(s: Seq<u8>) -> Seq<u8>
    decreases s.len(),
{
    if s.len() == 0 {
        s
    } else if is_space(s.last()) {
        trim_end(s.drop_last())
    } else {
        s
    }
}

/// The given sequence with both leading and trailing whitespace removed.
pub open spec fn trim(s: Seq<u8>) -> Seq<u8> {
    trim_end(trim_start(s))
}

proof fn lemma_trim_start_range(s: Seq<u8>, a: int)
    requires
        0 <= a <= s.len(),
        forall|k: int| 0 <= k < a ==> is_space(s[k]),
        a < s.len() ==> !is_space(s[a]),
    ensures
        trim_start(s) =~= s.subrange(a, s.len() as int),
    decreases a,
{
    if a == 0 {
        if s.len() == 0 {
        } else {
            assert(!is_space(s[0]));
        }
        assert(trim_start(s) =~= s.subrange(0, s.len() as int));
    } else {
        assert(is_space(s[0]));
        let t = s.drop_first();
        assert(forall|k: int| 0 <= k < a - 1 ==> s[k + 1] == #[trigger] t[k]);
        lemma_trim_start_range(t, a - 1);
        assert(trim_start(s) == trim_start(t));
        assert(t.subrange(a - 1, t.len() as int) =~= s.subrange(a, s.len() as int));
    }
}

proof fn lemma_trim_end_range(s: Seq<u8>, b: int)
    requires
        0 <= b <= s.len(),
        forall|k: int| b <= k < s.len() ==> is_space(s[k]),
        b > 0 ==> !is_space(s[b - 1]),
    ensures
        trim_end(s) =~= s.subrange(0, b),
    decreases s.len(),
{
    if b == s.len() {
        if s.len() == 0 {
        } else {
            assert(!is_space(s.last()));
        }
        assert(trim_end(s) =~= s.subrange(0, b));
    } else {
        assert(is_space(s.last()));
        let t = s.drop_last();
        lemma_trim_end_range(t, b);
        assert(t.subrange(0, b) =~= s.subrange(0, b));
    }
}

/// Connects an index pair found by scanning to the trimmed sequence.
pub proof fn lemma_trim_range(s: Seq<u8>, a: int, b: int)
    requires
        0 <= a <= b <= s.len(),
        forall|k: int| 0 <= k < a ==> is_space(s[k]),
        forall|k: int| b <= k < s.len() ==> is_space(s[k]),
        a < s.len() ==> !is_space(s[a]) || a == b,
        a < b ==> !is_space(s[a]) && !is_space(s[b - 1]),
    ensures
        trim(s) =~= s.subrange(a, b),
{
    if a == b {
        // everything is whitespace
        assert(forall|k: int| 0 <= k < s.len() ==> is_space(s[k]));
        lemma_trim_start_range(s, s.len() as int);
        lemma_trim_end_range(trim_start(s), 0);
        assert(trim(s) =~= s.subrange(a, b));
    } else {
        lemma_trim_start_range(s, a);
        let t = s.subrange(a, s.len() as int);
        lemma_trim_end_range(t, b - a);
        assert(t.subrange(0, b - a) =~= s.subrange(a, b));
    }
}

/// Copies `v[a..b]` into a fresh vector.
pub fn copy_range(v: &Vec<u8>, a: usize, b: usize) -> (r: Vec<u8>)
    requires
        a <= b <= v.len(),
    ensures
        r@ =~= v@.subrange(a as int, b as int),
{
    let mut r: Vec<u8> = Vec::new();
    let mut k = a;
    while k < b
        invariant
            a <= k <= b <= v.len(),
            r@ =~= v@.subrange(a as int, k as int),
        decreases b - k,
    {
        r.push(v[k]);
        k += 1;
        assert(r@ =~= v@.subrange(a as int, k as int));
    }
    r
}

/// Trims ASCII whitespace from both ends of a byte string.
pub fn trim_bytes(v: &Vec<u8>) -> (r: Vec<u8>)
    ensures
        r@ == trim(v@),
{
    let len = v.len();
    let mut a: usize = 0;
    while a < len && is_space_byte(v[a])
        invariant
            0 <= a <= len,
            len == v.len(),
            forall|k: int| 0 <= k < a ==> is_space(v@[k]),
        decreases len - a,
    {
        a += 1;
    }
    let mut b: usize = len;
    while b > a && is_space_byte(v[b - 1])
        invariant
            a <= b <= len,
            len == v.len(),
            forall|k: int| b <= k < len ==> is_space(v@[k]),
        decreases b,
    {
        b -= 1;
    }
    proof {
        lemma_trim_range(v@, a as int, b as int);
    }
    copy_range(v, a, b)
}

/// Compares two byte strings for equality.
pub fn bytes_eq(a: &Vec<u8>, b: &Vec<u8>) -> (r: bool)
    ensures
        r == (a@ == b@),
{
    if a.len() != b.len() {
        proof {
            assert(a@ != b@);
        }
        return false;
    }
    let mut i: usize = 0;
    while i < a.len()
        invariant
            i <= a.len(),
            a@.len() == b@.len(),
            forall|k: int| 0 <= k < i ==> a@[k] == b@[k],
        decreases a.len() - i,
    {
        if a[i] != b[i] {
            proof {
                assert(a@[i as int] != b@[i as int]);
            }
            return false;
        }
        i += 1;
    }
    proof {
        assert(a@ =~= b@);
    }
    true
}

/// Relies on `String::from_utf8`: it succeeds exactly on valid UTF-8 input
/// and returns the string whose characters are the UTF-8 decoding of the
/// bytes.
#[verifier::external_body]
pub fn utf8_to_string(v: Vec<u8>) -> (r: Option<String>)
    ensures
        r is Some <==> vstd::utf8::valid_utf8(v@),
        r matches Some(s) ==> s@ == vstd::utf8::decode_utf8(v@),
{
    match String::from_utf8(v) {
        Ok(s) => Some(s),
        Err(_) => None,
    }
}

/// Index of the first line feed in the sequence, or its length when there is
/// none.
pub open spec fn first_nl(s: Seq<u8>) -> int
    decreases s.len(),
{
    if s.len() == 0 {
        0
    } else if s[0] == 10 {
        0
    } else {
        1 + first_nl(s.drop_first())
    }
}

pub proof fn lemma_first_nl_bounds(s: Seq<u8>)
    ensures
        0 <= first_nl(s) <= s.len(),
        first_nl(s) < s.len() ==> s[first_nl(s)] == 10,
        forall|k: int| 0 <= k < first_nl(s) ==> s[k] != 10,
    decreases s.len(),
{
    if s.len() == 0 {
    } else if s[0] == 10 {
    } else {
        let t = s.drop_first();
        lemma_first_nl_bounds(t);
        assert(forall|k: int| 1 <= k < first_nl(s) ==> #[trigger] s[k] == t[k - 1]);
    }
}

/// Identifies the first line feed from a scan that found no earlier one.
pub proof fn lemma_first_nl_is(s: Seq<u8>, i: int)
    requires
        0 <= i <= s.len(),
        forall|k: int| 0 <= k < i ==> s[k] != 10,
        i < s.len() ==> s[i] == 10,
    ensures
        first_nl(s) == i,
    decreases s.len(),
{
    if s.len() == 0 {
    } else if s[0] == 10 {
        assert(i == 0);
    } else {
        assert(i != 0);
        let t = s.drop_first();
        assert(forall|k: int| 0 <= k < i - 1 ==> #[trigger] t[k] == s[k + 1]);
        lemma_first_nl_is(t, i - 1);
    }
}

/// The line decomposition of a byte stream: segments split on line feeds,
/// the line feeds themselves excluded, without a final empty segment when
/// the stream ends in a line feed.
pub open spec fn spec_lines(s: Seq<u8>) -> Seq<Seq<u8>>
    decreases s.len(),
    via spec_lines_decreases
{
    if s.len() == 0 {
        Seq::empty()
    } else {
        let i = first_nl(s);
        if i == s.len() {
            seq![s]
        } else {
            seq![s.subrange(0, i)] + spec_lines(s.subrange(i + 1, s.len() as int))
        }
    }
}

#[via_fn]
proof fn spec_lines_decreases(s: Seq<u8>) {
    lemma_first_nl_bounds(s);
}

/// A cursor over a fully decoded byte stream that hands out one line at a
/// time, the way a buffered line iterator would.
pub struct LineScanner {
    pub data: Vec<u8>,
    pub pos: usize,
}

impl LineScanner {
    pub open spec fn wf(self) -> bool {
        self.pos <= self.data@.len()
    }

    /// The bytes not yet consumed.
    pub open spec fn rest(self) -> Seq<u8> {
        self.data@.subrange(self.pos as int, self.data@.len() as int)
    }

    /// The lines not yet consumed.
    pub open spec fn lines(self) -> Seq<Seq<u8>> {
        spec_lines(self.rest())
    }

    pub fn new(data: Vec<u8>) -> (r: Self)
        ensures
            r.wf(),
            r.rest() == data@,
    {
        let r = LineScanner { data, pos: 0 };
        proof {
            assert(r.rest() =~= r.data@);
        }
        r
    }

    /// Consumes and returns the next raw line, or nothing at the end of the
    /// stream.
    pub fn next_line(&mut self) -> (r: Option<Vec<u8>>)
        requires
            old(self).wf(),
        ensures
            final(self).wf(),
            old(self).lines().len() == 0 ==> r is None && *final(self) == *old(self),
            old(self).lines().len() > 0 ==> {
                &&& r matches Some(l)
                &&& l@ == old(self).lines()[0]
                &&& final(self).lines() == old(self).lines().drop_first()
            },
    {
        let len = self.data.len();
        if self.pos >= len {
            proof {
                assert(self.rest() =~= Seq::<u8>::empty());
            }
            return None;
        }
        let ghost r0 = self.rest();
        proof {
            assert(r0.len() > 0);
        }
        let start = self.pos;
        let mut j = self.pos;
        while j < len && self.data[j] != 10
            invariant
                start <= j <= len,
                len == self.data@.len(),
                forall|k: int| start <= k < j ==> self.data@[k] != 10,
            decreases len - j,
        {
            j += 1;
        }
        let line = copy_range(&self.data, start, j);
        proof {
            assert(forall|k: int| 0 <= k < j - start ==> r0[k] == self.data@[k + start]);
            lemma_first_nl_is(r0, j - start);
            assert(line@ =~= r0.subrange(0, j - start));
        }
        if j < len {
            self.pos = j + 1;
            proof {
                assert(self.rest() =~= r0.subrange(j - start + 1, r0.len() as int));
                assert(spec_lines(r0) == seq![r0.subrange(0, j - start)] + spec_lines(self.rest()));
                assert(spec_lines(r0).drop_first() =~= spec_lines(self.rest()));
            }
        } else {
            self.pos = len;
            proof {
                assert(first_nl(r0) == r0.len());
                assert(line@ =~= r0);
                assert(spec_lines(r0) == seq![r0]);
                assert(self.rest() =~= Seq::<u8>::empty());
                assert(spec_lines(r0).drop_first() =~= spec_lines(self.rest()));
            }
        }
        Some(line)
    }
}

} // verus!
