//! Little-endian numbers in runs of bytes.
use crate::text::{decimal, joined, with_number};
use vstd::prelude::*;
use vstd::string::StringExecFns;

verus! {

/// Why a snapshot could not be read or written.
#[derive(Clone, Debug, PartialEq, Eq)]
pub enum SnapshotError {
    /// Reading or writing failed.
    Io(String),
    /// The bytes do not begin as a snapshot does.
    BadMagic,
    /// The snapshot has a format version that this library does not read.
    UnsupportedVersion(u32),
    /// The snapshot contradicts itself or the format.
    Corrupt(String),
}

/// A snapshot error as mathematics.
#[verifier::ext_equal]
pub enum Fault {
    Io(Seq<char>),
    BadMagic,
    UnsupportedVersion(u32),
    Corrupt(Seq<char>),
}

impl View for SnapshotError {
    type V = Fault;

    open spec fn view(&self) -> Fault {
        match self {
            SnapshotError::Io(message) => Fault::Io(message@),
            SnapshotError::BadMagic => Fault::BadMagic,
            SnapshotError::UnsupportedVersion(version) => Fault::UnsupportedVersion(*version),
            SnapshotError::Corrupt(message) => Fault::Corrupt(message@),
        }
    }
}

/// The message of a fault.
pub open spec fn fault_text(fault: Fault) -> Seq<char> {
    match fault {
        Fault::Io(message) => "io error: "@ + message,
        Fault::BadMagic => "not a vex snapshot (bad magic bytes)"@,
        Fault::UnsupportedVersion(version) => "unsupported snapshot format version "@ + decimal(
            version as nat,
        ) + " (this build reads 1)"@,
        Fault::Corrupt(message) => "corrupt snapshot: "@ + message,
    }
}

impl SnapshotError {
    /// The message of the error.
    pub open spec fn text(&self) -> Seq<char> {
        fault_text(self@)
    }

    /// The message of the error, for people to read.
    pub fn message(&self) -> (r: String)
        ensures
            r@ == self.text(),
    {
        match self {
            SnapshotError::Io(message) => joined("io error: ", message.as_str()),
            SnapshotError::BadMagic => String::from_str("not a vex snapshot (bad magic bytes)"),
            SnapshotError::UnsupportedVersion(version) => {
                let head = with_number("unsupported snapshot format version ", *version as u64);
                joined(head.as_str(), " (this build reads 1)")
            },
            SnapshotError::Corrupt(message) => joined("corrupt snapshot: ", message.as_str()),
        }
    }
}

/// The fault of a snapshot that ends too early.
pub open spec fn cut_short() -> Fault {
    Fault::Corrupt("failed to fill whole buffer"@)
}

/// The error of a snapshot that ends too early.
pub fn end_of_data() -> (r: SnapshotError)
    ensures
        r@ == cut_short(),
{
    SnapshotError::Corrupt(String::from_str("failed to fill whole buffer"))
}

/// The error of a snapshot that contradicts the format.
pub fn corrupt(message: &str) -> (r: SnapshotError)
    ensures
        r@ == Fault::Corrupt(message@),
{
    SnapshotError::Corrupt(String::from_str(message))
}

/// The same, with a number at the end of the message.
pub fn corrupt_number(head: &str, n: u64) -> (r: SnapshotError)
    ensures
        r@ == Fault::Corrupt(head@ + decimal(n as nat)),
{
    SnapshotError::Corrupt(with_number(head, n))
}

// ---------------------------------------------------------------------------
// Numbers
// ---------------------------------------------------------------------------

/// A number in `width` bytes, the lowest byte first.
pub open spec fn le_bytes(x: nat, width: nat) -> Seq<u8>
    decreases width,
{
    if width == 0 {
        seq![]
    } else {
        seq![(x % 256) as u8] + le_bytes(x / 256, (width - 1) as nat)
    }
}

/// The number that bytes stand for, the lowest byte first.
pub open spec fn le_value(bytes: Seq<u8>) -> nat
    decreases bytes.len(),
{
    if bytes.len() == 0 {
        0
    } else {
        bytes[0] as nat + 256 * le_value(bytes.drop_first())
    }
}

/// The number of values that `width` bytes tell apart.
pub open spec fn le_bound(width: nat) -> nat
    decreases width,
{
    if width == 0 {
        1
    } else {
        256 * le_bound((width - 1) as nat)
    }
}

/// The bounds of the widths in use.
pub proof fn lemma_le_bounds()
    ensures
        le_bound(0) == 1,
        le_bound(1) == 0x100,
        le_bound(2) == 0x1_0000,
        le_bound(4) == 0x1_0000_0000,
        le_bound(8) == 0x1_0000_0000_0000_0000,
{
    reveal_with_fuel(le_bound, 9);
}

/// A number takes its width.
pub proof fn lemma_le_bytes_len(x: nat, width: nat)
    ensures
        le_bytes(x, width).len() == width,
    decreases width,
{
    if width > 0 {
        lemma_le_bytes_len(x / 256, (width - 1) as nat);
    }
}

/// A number that fits its width reads back.
pub proof fn lemma_le_reads_back(x: nat, width: nat)
    requires
        x < le_bound(width),
    ensures
        le_value(le_bytes(x, width)) == x,
        le_bytes(x, width).len() == width,
    decreases width,
{
    lemma_le_bytes_len(x, width);
    if width > 0 {
        let rest = le_bytes(x / 256, (width - 1) as nat);
        lemma_le_reads_back(x / 256, (width - 1) as nat);
        assert(le_bytes(x, width).drop_first() =~= rest);
    }
}

/// What bytes stand for fits their number.
pub proof fn lemma_le_value_bound(bytes: Seq<u8>)
    ensures
        le_value(bytes) < le_bound(bytes.len()),
    decreases bytes.len(),
{
    if bytes.len() > 0 {
        lemma_le_value_bound(bytes.drop_first());
    }
}

/// Whether `width` bytes stand at a place.
pub open spec fn fits(data: Seq<u8>, pos: int, width: int) -> bool {
    pos + width <= data.len()
}

/// The number in `width` bytes at a place.
pub open spec fn number_at(data: Seq<u8>, pos: int, width: int) -> nat {
    le_value(data.subrange(pos, pos + width))
}

/// Whether a run of bytes stands at a place.
pub open spec fn stands_at(data: Seq<u8>, pos: int, bytes: Seq<u8>) -> bool {
    &&& 0 <= pos
    &&& pos + bytes.len() <= data.len()
    &&& data.subrange(pos, pos + bytes.len()) == bytes
}

/// A run that stands at a place stands there part by part.
pub proof fn lemma_stands_split(data: Seq<u8>, pos: int, a: Seq<u8>, b: Seq<u8>)
    requires
        stands_at(data, pos, a + b),
    ensures
        stands_at(data, pos, a),
        stands_at(data, pos + a.len(), b),
{
    let whole = data.subrange(pos, pos + a.len() + b.len());
    assert(data.subrange(pos, pos + a.len()) =~= a) by {
        assert forall|i: int| 0 <= i < a.len() implies data[pos + i] == a[i] by {
            assert(whole[i] == (a + b)[i]);
        }
    }
    assert(data.subrange(pos + a.len(), pos + a.len() + b.len()) =~= b) by {
        assert forall|i: int| 0 <= i < b.len() implies data[pos + a.len() + i] == b[i] by {
            assert(whole[a.len() + i] == (a + b)[a.len() + i]);
        }
    }
}

/// A number that stands at a place is read there.
pub proof fn lemma_number_stands(data: Seq<u8>, pos: int, x: nat, width: nat)
    requires
        stands_at(data, pos, le_bytes(x, width)),
        x < le_bound(width),
    ensures
        fits(data, pos, width as int),
        number_at(data, pos, width as int) == x,
{
    lemma_le_reads_back(x, width);
}

/// Writes a number in `width` bytes.
pub fn put_number(w: &mut Vec<u8>, x: u64, width: usize)
    requires
        width <= 8,
    ensures
        final(w)@ == old(w)@ + le_bytes(x as nat, width as nat),
{
    let ghost goal = w@ + le_bytes(x as nat, width as nat);
    let mut rest: u64 = x;
    let mut left: usize = width;
    while left > 0
        invariant
            w@ + le_bytes(rest as nat, left as nat) == goal,
        decreases left,
    {
        let ghost was = w@;
        let ghost tail = le_bytes(rest as nat / 256, (left - 1) as nat);
        w.push((rest % 256) as u8);
        assert(w@ + tail =~= was + (seq![(rest % 256) as u8] + tail));
        rest = rest / 256;
        left = left - 1;
    }
    assert(w@ + Seq::<u8>::empty() =~= w@);
}

/// Writes a byte.
pub fn put_byte(w: &mut Vec<u8>, x: u8)
    ensures
        final(w)@ == old(w)@ + seq![x],
{
    w.push(x);
}

/// Writes bytes.
pub fn put_bytes(w: &mut Vec<u8>, bytes: &[u8])
    ensures
        final(w)@ == old(w)@ + bytes@,
{
    let ghost was = w@;
    w.extend_from_slice(bytes);
    assert(w@ =~= was + bytes@);
}

/// A place in bytes that are being read.
pub struct Cursor<'a> {
    pub data: &'a [u8],
    pub pos: usize,
}

impl<'a> Cursor<'a> {
    /// Whether the place is in the bytes or at their end.
    pub open spec fn wf(self) -> bool {
        self.pos <= self.data@.len()
    }

    /// The bytes still to be read, at their beginning.
    pub fn new(data: &'a [u8]) -> (r: Self)
        ensures
            r.wf(),
            r.data@ == data@,
            r.pos == 0,
    {
        Cursor { data, pos: 0 }
    }

    /// Reads a number in `width` bytes.
    pub fn number(&mut self, width: usize) -> (r: Result<u64, SnapshotError>)
        requires
            old(self).wf(),
            width <= 8,
        ensures
            final(self).wf(),
            final(self).data@ == old(self).data@,
            match r {
                Ok(x) => {
                    &&& fits(old(self).data@, old(self).pos as int, width as int)
                    &&& x == number_at(old(self).data@, old(self).pos as int, width as int)
                    &&& x < le_bound(width as nat)
                    &&& final(self).pos == old(self).pos + width
                },
                Err(e) => {
                    &&& !fits(old(self).data@, old(self).pos as int, width as int)
                    &&& e@ == cut_short()
                },
            },
    {
        if self.data.len() - self.pos < width {
            return Err(end_of_data());
        }
        let start: usize = self.pos;
        let end: usize = start + width;
        let ghost bytes = self.data@.subrange(start as int, end as int);
        let mut x: u64 = 0;
        let mut i: usize = end;
        assert(self.data@.subrange(i as int, end as int) =~= seq![]);
        while i > start
            invariant
                start <= i <= end,
                end - start == width,
                width <= 8,
                end <= self.data@.len(),
                x == le_value(self.data@.subrange(i as int, end as int)),
            decreases i,
        {
            let ghost tail = self.data@.subrange(i as int, end as int);
            let ghost more = self.data@.subrange(i - 1, end as int);
            assert(more.drop_first() =~= tail);
            proof {
                lemma_le_value_bound(more);
                lemma_le_bound_grows(more.len(), 8);
                lemma_le_bounds();
            }
            x = x * 256 + self.data[i - 1] as u64;
            i = i - 1;
        }
        proof {
            lemma_le_value_bound(bytes);
        }
        self.pos = end;
        Ok(x)
    }

    /// Reads `len` bytes.
    pub fn bytes(&mut self, len: usize) -> (r: Result<&'a [u8], SnapshotError>)
        requires
            old(self).wf(),
        ensures
            final(self).wf(),
            final(self).data@ == old(self).data@,
            match r {
                Ok(bytes) => {
                    &&& fits(old(self).data@, old(self).pos as int, len as int)
                    &&& bytes@ == old(self).data@.subrange(
                        old(self).pos as int,
                        old(self).pos + len,
                    )
                    &&& final(self).pos == old(self).pos + len
                },
                Err(e) => {
                    &&& !fits(old(self).data@, old(self).pos as int, len as int)
                    &&& e@ == cut_short()
                },
            },
    {
        if self.data.len() - self.pos < len {
            return Err(end_of_data());
        }
        let start: usize = self.pos;
        self.pos = start + len;
        Ok(vstd::slice::slice_subrange(self.data, start, start + len))
    }
}

proof fn lemma_le_bound_grows(a: nat, b: nat)
    requires
        a <= b,
    ensures
        le_bound(a) <= le_bound(b),
        le_bound(a) >= 1,
    decreases b,
{
    if a < b {
        lemma_le_bound_grows(a, (b - 1) as nat);
    } else if a > 0 {
        lemma_le_bound_grows((a - 1) as nat, (b - 1) as nat);
    }
}

} // verus!
