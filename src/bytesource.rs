//! Random-access byte storage: an in-memory buffer and a window onto a
//! shared parent source.
use std::sync::Arc;
use vstd::prelude::*;

verus! {

/// Why a byte source refused a read or a write.
#[derive(Debug, Clone, Copy, PartialEq, Eq, Structural)]
pub enum SourceError {
    /// The source cannot be written.
    ReadOnly,
    /// The range lies outside the source's window.
    OutOfWindow,
    /// The range does not fit in the address space.
    TooLarge,
}

/// The bytes of `s` from `offset`, at most `size` of them: fewer where the
/// source ends first, none where `offset` lies at or past its end.
pub open spec fn window(s: Seq<u8>, offset: int, size: int) -> Seq<u8> {
    if offset >= s.len() {
        Seq::empty()
    } else if offset + size > s.len() {
        s.subrange(offset, s.len() as int)
    } else {
        s.subrange(offset, offset + size)
    }
}

/// `s` after writing `data` at `offset`, grown with zeros as needed.
pub open spec fn overwrite(s: Seq<u8>, offset: int, data: Seq<u8>) -> Seq<u8> {
    let end = offset + data.len();
    let new_len = if end > s.len() { end } else { s.len() as int };
    Seq::new(
        new_len as nat,
        |i: int|
            if offset <= i < end {
                data[i - offset]
            } else if i < s.len() {
                s[i]
            } else {
                0u8
            },
    )
}

/// Uniform random access to a run of bytes.
pub trait ByteSource: Sized {
    /// The bytes the source holds.
    spec fn spec_bytes(&self) -> Seq<u8>;

    /// Number of bytes held.
    fn len(&self) -> (r: u64)
        ensures
            r as int == self.spec_bytes().len(),
    ;

    /// Reads up to `size` bytes from `offset`; short at the end of the source.
    fn read_range(&self, offset: u64, size: usize) -> (r: Vec<u8>)
        ensures
            r@ == window(self.spec_bytes(), offset as int, size as int),
    ;

    /// Whether a write of `len` bytes at `offset` is accepted.
    spec fn spec_accepts_write(&self, offset: int, len: int) -> bool;

    /// Writes `data` at `offset`.
    fn write_range(&mut self, offset: u64, data: &[u8]) -> (r: Result<(), SourceError>)
        ensures
            r is Ok <==> old(self).spec_accepts_write(offset as int, data@.len() as int),
            r is Ok ==> final(self).spec_bytes() == overwrite(
                old(self).spec_bytes(),
                offset as int,
                data@,
            ),
            r is Err ==> final(self).spec_bytes() == old(self).spec_bytes(),
    ;
}

/// A growable source held in memory.
pub struct MemoryByteSource {
    data: Vec<u8>,
}

impl MemoryByteSource {
    /// An empty source.
    pub fn new() -> (r: Self)
        ensures
            r.spec_bytes() == Seq::<u8>::empty(),
    {
        MemoryByteSource { data: Vec::new() }
    }

    /// An empty source with room reserved for `capacity` bytes.
    pub fn with_capacity(capacity: usize) -> (r: Self)
        ensures
            r.spec_bytes() == Seq::<u8>::empty(),
    {
        MemoryByteSource { data: Vec::with_capacity(capacity) }
    }

    /// A source holding `data`.
    pub fn from_vec(data: Vec<u8>) -> (r: Self)
        ensures
            r.spec_bytes() == data@,
    {
        MemoryByteSource { data }
    }

    /// The bytes held, as a slice.
    pub fn as_slice(&self) -> (r: &[u8])
        ensures
            r@ == self.spec_bytes(),
    {
        self.data.as_slice()
    }
}

impl ByteSource for MemoryByteSource {
    closed spec fn spec_bytes(&self) -> Seq<u8> {
        self.data@
    }

    /// Any write whose end fits in the address space.
    open spec fn spec_accepts_write(&self, offset: int, len: int) -> bool {
        offset + len <= usize::MAX
    }

    fn len(&self) -> (r: u64) {
        self.data.len() as u64
    }

    fn read_range(&self, offset: u64, size: usize) -> (r: Vec<u8>) {
        let n = self.data.len();
        if offset >= n as u64 {
            return Vec::new();
        }
        let start = offset as usize;
        let end = if size > n - start {
            n
        } else {
            start + size
        };
        let mut out: Vec<u8> = Vec::with_capacity(end - start);
        let mut i = start;
        while i < end
            invariant
                start <= i <= end <= n == self.data@.len(),
                out@ == self.data@.subrange(start as int, i as int),
            decreases end - i,
        {
            out.push(self.data[i]);
            i = i + 1;
            proof {
                assert(out@ =~= self.data@.subrange(start as int, i as int));
            }
        }
        out
    }

    fn write_range(&mut self, offset: u64, bytes: &[u8]) -> (r: Result<(), SourceError>) {
        if offset > usize::MAX as u64 || bytes.len() > usize::MAX - offset as usize {
            return Err(SourceError::TooLarge);
        }
        let start = offset as usize;
        let end = start + bytes.len();
        let ghost before = self.data@;
        while self.data.len() < end
            invariant
                before.len() <= self.data@.len() <= end || self.data@.len() == before.len(),
                forall|i: int| 0 <= i < self.data@.len() ==> #[trigger] self.data@[i] == (if i
                    < before.len() {
                    before[i]
                } else {
                    0u8
                }),
            decreases end - self.data@.len(),
        {
            self.data.push(0);
        }
        let ghost grown = self.data@;
        let mut i: usize = 0;
        while i < bytes.len()
            invariant
                end == start + bytes@.len(),
                grown.len() >= end,
                self.data@.len() == grown.len(),
                i <= bytes@.len(),
                forall|j: int|
                    0 <= j < grown.len() ==> #[trigger] self.data@[j] == (if start <= j < start + i {
                        bytes@[j - start]
                    } else {
                        grown[j]
                    }),
            decreases bytes@.len() - i,
        {
            self.data.set(start + i, bytes[i]);
            i = i + 1;
        }
        proof {
            assert(self.data@ =~= overwrite(before, offset as int, bytes@));
        }
        Ok(())
    }
}

/// A read-only window `[base, base + length)` onto a shared parent source.
pub struct SubrangeSource<S: ByteSource> {
    parent: Arc<S>,
    base: u64,
    length: u64,
}

impl<S: ByteSource> SubrangeSource<S> {
    /// The parent's bytes.
    pub closed spec fn spec_parent(&self) -> Seq<u8> {
        self.parent.spec_bytes()
    }

    /// Where the window starts in the parent.
    pub closed spec fn spec_base(&self) -> u64 {
        self.base
    }

    /// How many bytes the window spans.
    pub closed spec fn spec_length(&self) -> u64 {
        self.length
    }

    /// A window of `length` bytes from `base` onto `parent`.
    pub fn new(parent: Arc<S>, base: u64, length: u64) -> (r: Self)
        ensures
            r.spec_parent() == parent.spec_bytes(),
            r.spec_base() == base,
            r.spec_length() == length,
    {
        SubrangeSource { parent, base, length }
    }
}

impl<S: ByteSource> ByteSource for SubrangeSource<S> {
    /// The part of the window that the parent holds.
    closed spec fn spec_bytes(&self) -> Seq<u8> {
        window(self.parent.spec_bytes(), self.base as int, self.length as int)
    }

    /// None: the parent is shared.
    open spec fn spec_accepts_write(&self, offset: int, len: int) -> bool {
        false
    }

    fn len(&self) -> (r: u64) {
        let total = self.parent.len();
        if self.base >= total {
            0
        } else if self.length > total - self.base {
            total - self.base
        } else {
            self.length
        }
    }

    fn read_range(&self, offset: u64, size: usize) -> (r: Vec<u8>) {
        let total = self.parent.len();
        let avail = self.len();
        if offset >= avail {
            return Vec::new();
        }
        let want: u64 = if size as u64 > avail - offset {
            avail - offset
        } else {
            size as u64
        };
        proof {
            let p = self.parent.spec_bytes();
            assert(avail as int == window(p, self.base as int, self.length as int).len());
            assert(avail as int <= p.len() - self.base);
        }
        let got = self.parent.read_range(self.base + offset, want as usize);
        proof {
            let p = self.parent.spec_bytes();
            let w = window(p, self.base as int, self.length as int);
            assert(window(w, offset as int, size as int) =~= window(
                p,
                self.base + offset,
                want as int,
            ));
        }
        got
    }

    fn write_range(&mut self, offset: u64, bytes: &[u8]) -> (r: Result<(), SourceError>) {
        if offset > self.length || bytes.len() as u64 > self.length - offset {
            Err(SourceError::OutOfWindow)
        } else {
            Err(SourceError::ReadOnly)
        }
    }
}

/// Two reads of the same range of one source, with no write between them,
/// give the same bytes.
pub proof fn lemma_reads_agree<S: ByteSource>(s: &S, offset: u64, size: usize, a: Seq<u8>, b: Seq<u8>)
    requires
        a == window(s.spec_bytes(), offset as int, size as int),
        b == window(s.spec_bytes(), offset as int, size as int),
    ensures
        a == b,
{
}

/// A read that starts inside a source but runs past its end returns the
/// bytes up to the end, fewer than asked; one that starts past the end
/// returns none.
pub proof fn lemma_short_read(s: Seq<u8>, offset: int, size: int)
    requires
        0 <= offset,
        0 < size,
        offset + size > s.len(),
    ensures
        window(s, offset, size).len() < size,
        offset < s.len() ==> window(s, offset, size) == s.subrange(offset, s.len() as int),
        offset >= s.len() ==> window(s, offset, size).len() == 0,
{
}

} // verus!
