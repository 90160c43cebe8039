//! A write sink that only counts, and a byte-level comparison helper.
use vstd::prelude::*;

verus! {

/// Where a seek moves the position, as in `std::io::SeekFrom`.
#[derive(Clone, Copy, Debug, PartialEq, Eq, Structural)]
pub enum SeekFrom {
    Start(u64),
    End(i64),
    Current(i64),
}

/// Why a seek failed.
#[derive(Clone, Copy, Debug, PartialEq, Eq, Structural)]
pub enum SeekError {
    /// The target lies before the start, or past what a signed offset holds.
    InvalidInput,
}

/// A sink that discards what is written and keeps only its position and
/// the furthest offset it has reached.
pub struct ByteCounter {
    position: usize,
    reached: usize,
}

/// The position that a seek aims at: `End` counts from the furthest offset
/// reached, `Current` from the position.
pub open spec fn seek_target(position: int, reached: int, pos: SeekFrom) -> int {
    match pos {
        SeekFrom::Start(off) => off as int,
        SeekFrom::End(delta) => reached + delta,
        SeekFrom::Current(delta) => position + delta,
    }
}

/// The larger of two offsets.
pub open spec fn max_of(a: int, b: int) -> int {
    if a < b {
        b
    } else {
        a
    }
}

impl ByteCounter {
    /// Where the next write lands.
    pub closed spec fn position(&self) -> nat {
        self.position as nat
    }

    /// The furthest offset that a write or seek has reached.
    pub closed spec fn reached(&self) -> nat {
        self.reached as nat
    }

    /// A counter at position 0 that has reached nothing.
    pub fn new() -> (c: Self)
        ensures
            c.position() == 0,
            c.reached() == 0,
    {
        ByteCounter { position: 0, reached: 0 }
    }

    /// The furthest offset reached, cut to 32 bits as a record length word
    /// holds it.
    pub fn bytes(&self) -> (r: u32)
        ensures
            r == self.reached() as u32,
    {
        self.reached as u32
    }

    /// Counts `buf` as written at the position; returns how many bytes were
    /// taken.
    pub fn write(&mut self, buf: &[u8]) -> (n: usize)
        requires
            old(self).position() + buf@.len() <= usize::MAX,
        ensures
            n == buf@.len(),
            final(self).position() == old(self).position() + buf@.len(),
            final(self).reached() == max_of(
                old(self).reached() as int,
                (old(self).position() + buf@.len()) as int,
            ),
    {
        let n = buf.len();
        self.position = self.position + n;
        if self.position > self.reached {
            self.reached = self.position;
        }
        n
    }

    /// Nothing is buffered, so flushing does nothing.
    pub fn flush(&mut self)
        ensures
            final(self).position() == old(self).position(),
            final(self).reached() == old(self).reached(),
    {
    }

    /// Moves the position, raising the furthest offset reached when the
    /// target lies past it. A target before the start, or past the signed
    /// 64-bit range, is refused and changes nothing.
    pub fn seek(&mut self, pos: SeekFrom) -> (r: Result<u64, SeekError>)
        ensures
            ({
                let t = seek_target(old(self).position() as int, old(self).reached() as int, pos);
                if 0 <= t <= i64::MAX && t <= usize::MAX {
                    &&& r == Ok::<u64, SeekError>(t as u64)
                    &&& final(self).position() == t
                    &&& final(self).reached() == max_of(old(self).reached() as int, t)
                } else {
                    &&& r == Err::<u64, SeekError>(SeekError::InvalidInput)
                    &&& final(self).position() == old(self).position()
                    &&& final(self).reached() == old(self).reached()
                }
            }),
    {
        let target: i128 = match pos {
            SeekFrom::Start(off) => off as i128,
            SeekFrom::End(delta) => self.reached as i128 + delta as i128,
            SeekFrom::Current(delta) => self.position as i128 + delta as i128,
        };
        if target < 0 || target > i64::MAX as i128 || target > usize::MAX as i128 {
            Err(SeekError::InvalidInput)
        } else {
            self.position = target as usize;
            if self.position > self.reached {
                self.reached = self.position;
            }
            Ok(target as u64)
        }
    }
}

/// One differing position: offset, byte of the first input, byte of the second.
pub type ByteDiff = (usize, u8, u8);

/// The differences between the first `n` bytes of `a` and `b`, in order.
pub open spec fn diffs_upto(a: Seq<u8>, b: Seq<u8>, n: int) -> Seq<ByteDiff>
    decreases n,
{
    if n <= 0 {
        Seq::empty()
    } else if a[n - 1] != b[n - 1] {
        diffs_upto(a, b, n - 1).push(((n - 1) as usize, a[n - 1], b[n - 1]))
    } else {
        diffs_upto(a, b, n - 1)
    }
}

/// Every offset below the shorter length where `a` and `b` differ, with both
/// bytes, in increasing order. A difference in length is the caller's to see.
pub fn byte_diffs(a: &[u8], b: &[u8]) -> (r: Vec<ByteDiff>)
    ensures
        r@ == diffs_upto(a@, b@, if a@.len() < b@.len() { a@.len() as int } else { b@.len() as int }),
{
    let n = if a.len() < b.len() {
        a.len()
    } else {
        b.len()
    };
    let mut r: Vec<ByteDiff> = Vec::new();
    let mut i: usize = 0;
    while i < n
        invariant
            n <= a@.len(),
            n <= b@.len(),
            i <= n,
            r@ == diffs_upto(a@, b@, i as int),
        decreases n - i,
    {
        if a[i] != b[i] {
            r.push((i, a[i], b[i]));
        }
        i = i + 1;
    }
    r
}

} // verus!
