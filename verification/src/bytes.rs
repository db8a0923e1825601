//! Little-endian integers, terminated byte runs, and a cursor over a byte
//! slice that the archive reader consumes front to back.

use vstd::prelude::*;
use vstd::slice::slice_subrange;

verus! {

/// The 16-bit little-endian integer at offset `at` of `b`.
pub open spec fn le_u16(b: Seq<u8>, at: int) -> u16 {
    (b[at] as int + 256 * (b[at + 1] as int)) as u16
}

/// The 32-bit little-endian integer at offset `at` of `b`.
pub open spec fn le_u32(b: Seq<u8>, at: int) -> u32 {
    (b[at] as int + 256 * (b[at + 1] as int) + 65536 * (b[at + 2] as int) + 16777216 * (b[at
        + 3] as int)) as u32
}

/// The two bytes that hold `v` in little-endian order.
pub open spec fn u16_le_bytes(v: u16) -> Seq<u8> {
    seq![(v % 256) as u8, (v / 256) as u8]
}

/// The four bytes that hold `v` in little-endian order.
pub open spec fn u32_le_bytes(v: u32) -> Seq<u8> {
    seq![
        (v % 256) as u8,
        ((v / 256) % 256) as u8,
        ((v / 65536) % 256) as u8,
        (v / 16777216) as u8,
    ]
}

/// Number of bytes from offset `at` up to, and not counting, the first
/// `delim`; up to the end of `b` where there is none.
pub open spec fn run_len(b: Seq<u8>, at: int, delim: u8) -> nat
    decreases b.len() - at,
{
    if at < 0 || at >= b.len() || b[at] == delim {
        0
    } else {
        1 + run_len(b, at + 1, delim)
    }
}

/// Whether a `delim` follows the run that starts at `at`.
pub open spec fn run_delimited(b: Seq<u8>, at: int, delim: u8) -> bool {
    at + run_len(b, at, delim) < b.len()
}

/// Offset just behind the run that starts at `at`, its delimiter included
/// where there is one.
pub open spec fn run_end(b: Seq<u8>, at: int, delim: u8) -> int {
    if run_delimited(b, at, delim) {
        at + run_len(b, at, delim) + 1
    } else {
        at + run_len(b, at, delim)
    }
}

/// A run holds no delimiter, stays inside the data, and stops at the first
/// delimiter or at the end.
pub proof fn lemma_run_len(b: Seq<u8>, at: int, delim: u8)
    requires
        0 <= at <= b.len(),
    ensures
        at + run_len(b, at, delim) <= b.len(),
        forall|k: int| at <= k < at + run_len(b, at, delim) ==> b[k] != delim,
        run_delimited(b, at, delim) ==> b[at + run_len(b, at, delim)] == delim,
    decreases b.len() - at,
{
    if at < b.len() && b[at] != delim {
        lemma_run_len(b, at + 1, delim);
    }
}

/// A run is fixed by where its first delimiter stands.
pub proof fn lemma_run_len_unique(b: Seq<u8>, at: int, delim: u8, n: int)
    requires
        0 <= at,
        0 <= n,
        at + n <= b.len(),
        forall|k: int| at <= k < at + n ==> b[k] != delim,
        at + n < b.len() ==> b[at + n] == delim,
    ensures
        run_len(b, at, delim) == n,
    decreases n,
{
    if n > 0 {
        lemma_run_len_unique(b, at + 1, delim, n - 1);
    }
}

/// Splitting off the lowest byte of a number.
proof fn lemma_low_byte(x: int, high: int, low: int)
    requires
        x == 256 * high + low,
        0 <= low < 256,
    ensures
        x % 256 == low,
        x / 256 == high,
{
    vstd::arithmetic::div_mod::lemma_fundamental_div_mod_converse(x, 256, high, low);
}

/// Reading back the bytes of a 16-bit integer gives the integer.
pub proof fn lemma_le_u16_roundtrip(v: u16)
    ensures
        u16_le_bytes(v).len() == 2,
        le_u16(u16_le_bytes(v), 0) == v,
{
    vstd::arithmetic::div_mod::lemma_fundamental_div_mod(v as int, 256);
}

/// Reading back the bytes of a 32-bit integer gives the integer.
pub proof fn lemma_le_u32_roundtrip(v: u32)
    ensures
        u32_le_bytes(v).len() == 4,
        le_u32(u32_le_bytes(v), 0) == v,
{
    let x = v as int;
    let q1 = x / 256;
    let q2 = q1 / 256;
    let q3 = q2 / 256;
    vstd::arithmetic::div_mod::lemma_fundamental_div_mod(x, 256);
    vstd::arithmetic::div_mod::lemma_fundamental_div_mod(q1, 256);
    vstd::arithmetic::div_mod::lemma_fundamental_div_mod(q2, 256);
    assert(q2 == x / 65536) by {
        vstd::arithmetic::div_mod::lemma_div_denominator(x, 256, 256);
    }
    assert(q3 == x / 16777216) by {
        vstd::arithmetic::div_mod::lemma_div_denominator(x, 65536, 256);
    }
    assert(x == (x % 256) + 256 * (q1 % 256) + 65536 * (q2 % 256) + 16777216 * q3);
    assert(0 <= q3 < 256);
}

/// Writing out the 16-bit integer read at `at` gives the bytes at `at`.
pub proof fn lemma_le_u16_bytes(b: Seq<u8>, at: int)
    requires
        0 <= at,
        at + 2 <= b.len(),
    ensures
        u16_le_bytes(le_u16(b, at)) == b.subrange(at, at + 2),
{
    let x = b[at] as int + 256 * (b[at + 1] as int);
    lemma_low_byte(x, b[at + 1] as int, b[at] as int);
    assert(u16_le_bytes(le_u16(b, at)) =~= b.subrange(at, at + 2));
}

/// Writing out the 32-bit integer read at `at` gives the bytes at `at`.
pub proof fn lemma_le_u32_bytes(b: Seq<u8>, at: int)
    requires
        0 <= at,
        at + 4 <= b.len(),
    ensures
        u32_le_bytes(le_u32(b, at)) == b.subrange(at, at + 4),
{
    let b0 = b[at] as int;
    let b1 = b[at + 1] as int;
    let b2 = b[at + 2] as int;
    let b3 = b[at + 3] as int;
    let x = b0 + 256 * b1 + 65536 * b2 + 16777216 * b3;
    let q1 = b1 + 256 * b2 + 65536 * b3;
    let q2 = b2 + 256 * b3;
    lemma_low_byte(x, q1, b0);
    lemma_low_byte(q1, q2, b1);
    lemma_low_byte(q2, b3, b2);
    assert(q2 == x / 65536) by {
        vstd::arithmetic::div_mod::lemma_div_denominator(x, 256, 256);
    }
    assert(b3 == x / 16777216) by {
        vstd::arithmetic::div_mod::lemma_div_denominator(x, 65536, 256);
    }
    let v = le_u32(b, at);
    assert(v as int == x);
    assert(u32_le_bytes(v)[0] == b[at]);
    assert(u32_le_bytes(v)[1] == b[at + 1]);
    assert(u32_le_bytes(v)[2] == b[at + 2]);
    assert(u32_le_bytes(v)[3] == b[at + 3]);
    assert(u32_le_bytes(v) =~= b.subrange(at, at + 4));
}

/// Appends `v` to `out` in little-endian order.
pub fn put_u16(out: &mut Vec<u8>, v: u16)
    ensures
        final(out)@ == old(out)@ + u16_le_bytes(v),
{
    out.push((v % 256) as u8);
    out.push((v / 256) as u8);
    assert(out@ =~= old(out)@ + u16_le_bytes(v));
}

/// Appends `v` to `out` in little-endian order.
pub fn put_u32(out: &mut Vec<u8>, v: u32)
    ensures
        final(out)@ == old(out)@ + u32_le_bytes(v),
{
    out.push((v % 256) as u8);
    out.push(((v / 256) % 256) as u8);
    out.push(((v / 65536) % 256) as u8);
    out.push((v / 16777216) as u8);
    assert(out@ =~= old(out)@ + u32_le_bytes(v));
}

/// Appends all of `bytes` to `out`.
pub fn put_bytes(out: &mut Vec<u8>, bytes: &[u8])
    ensures
        final(out)@ == old(out)@ + bytes@,
{
    let mut i: usize = 0;
    while i < bytes.len()
        invariant
            i <= bytes.len(),
            out@ == old(out)@ + bytes@.take(i as int),
        decreases bytes.len() - i,
    {
        out.push(bytes[i]);
        i += 1;
        assert(out@ =~= old(out)@ + bytes@.take(i as int));
    }
    assert(bytes@.take(bytes.len() as int) =~= bytes@);
}

/// Compares two byte slices.
pub fn bytes_eq(a: &[u8], b: &[u8]) -> (same: bool)
    ensures
        same == (a@ == b@),
{
    if a.len() != b.len() {
        return false;
    }
    let mut i: usize = 0;
    while i < a.len()
        invariant
            i <= a@.len(),
            a@.len() == b@.len(),
            forall|k: int| 0 <= k < i ==> a@[k] == b@[k],
        decreases a@.len() - i,
    {
        if a[i] != b[i] {
            return false;
        }
        i += 1;
    }
    assert(a@ =~= b@);
    true
}

/// A read position in a byte slice.
pub struct ByteReader<'a> {
    data: &'a [u8],
    pos: usize,
}

impl<'a> ByteReader<'a> {
    /// All the bytes under the cursor, read or not.
    pub closed spec fn data(&self) -> Seq<u8> {
        self.data@
    }

    /// Number of bytes consumed so far.
    pub closed spec fn pos(&self) -> int {
        self.pos as int
    }

    /// The position lies inside the data.
    pub open spec fn wf(&self) -> bool {
        0 <= self.pos() <= self.data().len()
    }

    /// A cursor at the start of `data`.
    pub fn new(data: &'a [u8]) -> (reader: Self)
        ensures
            reader.wf(),
            reader.data() == data@,
            reader.pos() == 0,
    {
        ByteReader { data, pos: 0 }
    }

    /// Number of bytes consumed so far.
    pub fn position(&self) -> (p: usize)
        requires
            self.wf(),
        ensures
            p == self.pos(),
            p <= self.data().len(),
    {
        self.pos
    }

    /// Number of bytes not yet consumed.
    pub fn remaining(&self) -> (n: usize)
        requires
            self.wf(),
        ensures
            n == self.data().len() - self.pos(),
    {
        self.data.len() - self.pos
    }

    /// Whether the byte consumed last was `delim` and was consumed after
    /// position `since`.
    pub fn ended_on(&self, since: usize, delim: u8) -> (r: bool)
        requires
            self.wf(),
        ensures
            r == (since < self.pos() && self.data()[self.pos() - 1] == delim),
    {
        since < self.pos && self.data[self.pos - 1] == delim
    }

    /// Reads a 16-bit little-endian integer; `None`, with nothing consumed,
    /// where fewer than two bytes are left.
    pub fn read_u16(&mut self) -> (r: Option<u16>)
        requires
            old(self).wf(),
        ensures
            final(self).wf(),
            final(self).data() == old(self).data(),
            match r {
                Some(v) => {
                    &&& old(self).pos() + 2 <= old(self).data().len()
                    &&& v == le_u16(old(self).data(), old(self).pos())
                    &&& final(self).pos() == old(self).pos() + 2
                },
                None => {
                    &&& old(self).pos() + 2 > old(self).data().len()
                    &&& final(self).pos() == old(self).pos()
                },
            },
    {
        if self.data.len() - self.pos < 2 {
            return None;
        }
        let b0 = self.data[self.pos] as u16;
        let b1 = self.data[self.pos + 1] as u16;
        self.pos = self.pos + 2;
        Some(b0 + 256 * b1)
    }

    /// Reads a 32-bit little-endian integer; `None`, with nothing consumed,
    /// where fewer than four bytes are left.
    pub fn read_u32(&mut self) -> (r: Option<u32>)
        requires
            old(self).wf(),
        ensures
            final(self).wf(),
            final(self).data() == old(self).data(),
            match r {
                Some(v) => {
                    &&& old(self).pos() + 4 <= old(self).data().len()
                    &&& v == le_u32(old(self).data(), old(self).pos())
                    &&& final(self).pos() == old(self).pos() + 4
                },
                None => {
                    &&& old(self).pos() + 4 > old(self).data().len()
                    &&& final(self).pos() == old(self).pos()
                },
            },
    {
        if self.data.len() - self.pos < 4 {
            return None;
        }
        let b0 = self.data[self.pos] as u32;
        let b1 = self.data[self.pos + 1] as u32;
        let b2 = self.data[self.pos + 2] as u32;
        let b3 = self.data[self.pos + 3] as u32;
        self.pos = self.pos + 4;
        Some(b0 + 256 * b1 + 65536 * b2 + 16777216 * b3)
    }

    /// Reads up to and including the next `delim`, or to the end of the data
    /// where there is none, and returns what was read.
    pub fn read_until(&mut self, delim: u8) -> (run: &'a [u8])
        requires
            old(self).wf(),
        ensures
            final(self).wf(),
            final(self).data() == old(self).data(),
            final(self).pos() == run_end(old(self).data(), old(self).pos(), delim),
            run@ == old(self).data().subrange(old(self).pos(), final(self).pos()),
    {
        let start = self.pos;
        let mut end = self.pos;
        proof {
            lemma_run_len(self.data@, start as int, delim);
        }
        while end < self.data.len() && self.data[end] != delim
            invariant
                start <= end <= self.data@.len(),
                forall|k: int| start <= k < end ==> self.data@[k] != delim,
            decreases self.data@.len() - end,
        {
            end += 1;
        }
        proof {
            lemma_run_len_unique(self.data@, start as int, delim, end - start);
        }
        if end < self.data.len() {
            end += 1;
        }
        self.pos = end;
        slice_subrange(self.data, start, end)
    }
}

} // verus!
