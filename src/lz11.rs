//! Decompressor for the LZ11 variant of LZSS.
//!
//! A stream is a one-byte tag (`0x11`), a 24-bit little-endian decompressed
//! size (extended to 32 bits when the 24-bit field is zero), then groups of
//! one flag byte followed by up to eight tokens, most significant flag bit
//! first. A clear bit is a literal byte, a set bit a back-reference.
use vstd::prelude::*;

verus! {

/// Tag byte that opens an LZ11 stream.
pub const LZ11_TAG: u8 = 0x11;

/// Largest decompressed size accepted (8 MiB).
pub const MAX_DECOMPRESSED_SIZE: usize = 0x800000;

/// Why a stream could not be decompressed.
#[derive(Debug, Clone, Copy, PartialEq, Eq, Structural)]
pub enum Lz11Error {
    /// The stream is empty or its tag is not `0x11`.
    Unsupported,
    /// The size field is cut short.
    TruncatedHeader,
    /// The declared size is zero or above the 8 MiB ceiling.
    InvalidSize,
    /// The token stream ends before the declared size is produced.
    UnexpectedEnd,
    /// A back-reference points at or before the start of the output.
    InvalidDisplacement,
}

/// Little-endian value of `n` bytes of `s` starting at `at`.
pub open spec fn le_value(s: Seq<u8>, at: int, n: nat) -> nat
    decreases n,
{
    if n == 0 {
        0
    } else {
        s[at] as nat + 256 * le_value(s, at + 1, (n - 1) as nat)
    }
}

/// The header of a stream: the declared size and where the tokens begin.
pub open spec fn spec_header(s: Seq<u8>) -> Result<(nat, int), Lz11Error> {
    if s.len() == 0 || s[0] != LZ11_TAG {
        Err(Lz11Error::Unsupported)
    } else if s.len() < 4 {
        Err(Lz11Error::TruncatedHeader)
    } else if le_value(s, 1, 3) != 0 {
        Ok((le_value(s, 1, 3), 4))
    } else if s.len() < 8 {
        Err(Lz11Error::TruncatedHeader)
    } else {
        Ok((le_value(s, 4, 4), 8))
    }
}

/// The `k` bytes that a back-reference appends to `out`: each byte repeats
/// the one `disp + 1` places before it, so a copy may read bytes it wrote.
pub open spec fn back_copy(out: Seq<u8>, disp: int, k: int) -> Seq<u8> {
    Seq::new(k as nat, |j: int| out[out.len() - disp - 1 + j % (disp + 1)])
}

/// Number of bytes a back-reference token with this first byte occupies.
pub open spec fn token_width(t: u8) -> int {
    if t / 16 == 0 {
        3
    } else if t / 16 == 1 {
        4
    } else {
        2
    }
}

/// Length and displacement of the back-reference whose bytes start at `p`.
pub open spec fn token_fields(s: Seq<u8>, p: int) -> (int, int) {
    let t = s[p];
    if t / 16 == 0 {
        (t * 16 + s[p + 1] / 16 + 0x11, (s[p + 1] % 16) * 256 + s[p + 2])
    } else if t / 16 == 1 {
        ((t % 16) * 4096 + s[p + 1] * 16 + s[p + 2] / 16 + 0x111, (s[p + 2] % 16) * 256 + s[p + 3])
    } else {
        (t / 16 + 1, (t % 16) * 256 + s[p + 1])
    }
}

/// Decoding from input position `p` with `bits` unread bits left in `flags`
/// (the next one in the top bit), given the output so far.
pub open spec fn decode_from(s: Seq<u8>, p: int, flags: u8, bits: nat, out: Seq<u8>, size: nat)
    -> Result<Seq<u8>, Lz11Error>
    decreases size - out.len(), if bits == 0 { 1int } else { 0int },
{
    if out.len() >= size {
        Ok(out)
    } else if p < 0 || p >= s.len() {
        Err(Lz11Error::UnexpectedEnd)
    } else if bits == 0 {
        decode_from(s, p + 1, s[p], 8, out, size)
    } else {
        let next_flags = ((flags as int * 2) % 256) as u8;
        if flags < 0x80 {
            decode_from(s, p + 1, next_flags, (bits - 1) as nat, out.push(s[p]), size)
        } else if p + token_width(s[p]) > s.len() {
            Err(Lz11Error::UnexpectedEnd)
        } else {
            let (length, disp) = token_fields(s, p);
            if disp >= out.len() {
                Err(Lz11Error::InvalidDisplacement)
            } else {
                let k = if out.len() + length > size { size - out.len() } else { length };
                decode_from(
                    s,
                    p + token_width(s[p]),
                    next_flags,
                    (bits - 1) as nat,
                    out + back_copy(out, disp, k),
                    size,
                )
            }
        }
    }
}

/// What decompressing the whole stream `s` yields.
pub open spec fn spec_decompress(s: Seq<u8>) -> Result<Seq<u8>, Lz11Error> {
    match spec_header(s) {
        Err(e) => Err(e),
        Ok((size, start)) => if size == 0 || size > MAX_DECOMPRESSED_SIZE {
            Err(Lz11Error::InvalidSize)
        } else {
            decode_from(s, start, 0, 0, Seq::empty(), size)
        },
    }
}

/// Every successful decompression has exactly the declared size.
pub proof fn lemma_output_has_declared_size(s: Seq<u8>)
    ensures
        spec_decompress(s) is Ok ==> spec_header(s) is Ok && spec_decompress(s)->Ok_0.len()
            == spec_header(s)->Ok_0.0,
{
    if let Ok((size, start)) = spec_header(s) {
        if size != 0 && size <= MAX_DECOMPRESSED_SIZE {
            lemma_decode_len(s, start, 0, 0, Seq::empty(), size);
        }
    }
}

proof fn lemma_decode_len(s: Seq<u8>, p: int, flags: u8, bits: nat, out: Seq<u8>, size: nat)
    requires
        out.len() <= size,
    ensures
        decode_from(s, p, flags, bits, out, size) is Ok ==> decode_from(
            s,
            p,
            flags,
            bits,
            out,
            size,
        )->Ok_0.len() == size,
    decreases size - out.len(), if bits == 0 { 1int } else { 0int },
{
    if out.len() >= size {
    } else if p < 0 || p >= s.len() {
    } else if bits == 0 {
        lemma_decode_len(s, p + 1, s[p], 8, out, size);
    } else {
        let next_flags = ((flags as int * 2) % 256) as u8;
        if flags < 0x80 {
            lemma_decode_len(s, p + 1, next_flags, (bits - 1) as nat, out.push(s[p]), size);
        } else if p + token_width(s[p]) > s.len() {
        } else {
            let (length, disp) = token_fields(s, p);
            if disp < out.len() {
                let k = if out.len() + length > size { size - out.len() } else { length };
                lemma_decode_len(
                    s,
                    p + token_width(s[p]),
                    next_flags,
                    (bits - 1) as nat,
                    out + back_copy(out, disp, k),
                    size,
                );
            }
        }
    }
}

fn read_le24(s: &[u8], at: usize) -> (r: u32)
    requires
        at + 3 <= s@.len(),
    ensures
        r as nat == le_value(s@, at as int, 3),
{
    proof {
        reveal_with_fuel(le_value, 4);
    }
    s[at] as u32 + 256 * s[at + 1] as u32 + 65536 * s[at + 2] as u32
}

fn read_le32(s: &[u8], at: usize) -> (r: u32)
    requires
        at + 4 <= s@.len(),
    ensures
        r as nat == le_value(s@, at as int, 4),
{
    proof {
        reveal_with_fuel(le_value, 5);
    }
    s[at] as u32 + 256 * s[at + 1] as u32 + 65536 * s[at + 2] as u32 + 16777216 * s[at + 3] as u32
}

/// Appends `k` bytes to `out`, each copied from `disp + 1` places back,
/// one byte at a time so that an overlapping copy re-reads fresh output.
fn copy_back(out: &mut Vec<u8>, disp: usize, k: usize)
    requires
        disp < old(out)@.len(),
        old(out)@.len() + k <= MAX_DECOMPRESSED_SIZE,
    ensures
        final(out)@ == old(out)@ + back_copy(old(out)@, disp as int, k as int),
{
    let ghost orig = out@;
    let start = out.len() - disp - 1;
    let mut j: usize = 0;
    while j < k
        invariant
            j <= k,
            start == orig.len() - disp - 1,
            disp < orig.len(),
            orig.len() + k <= MAX_DECOMPRESSED_SIZE,
            out@ == orig + back_copy(orig, disp as int, j as int),
        decreases k - j,
    {
        let b = out[start + j];
        proof {
            let m = disp as int + 1;
            if j as int >= m {
                vstd::arithmetic::div_mod::lemma_mod_add_multiples_vanish(j as int - m, m);
                assert(out@[start + j] == back_copy(orig, disp as int, j as int)[j - m]);
            } else {
                vstd::arithmetic::div_mod::lemma_small_mod(j as nat, m as nat);
            }
            assert(b == orig[orig.len() - disp - 1 + (j as int) % m]);
        }
        out.push(b);
        j = j + 1;
        proof {
            assert(out@ =~= orig + back_copy(orig, disp as int, j as int));
        }
    }
}

/// Reads the back-reference token at `p`: its length, displacement and
/// width, or `None` where the input ends inside it.
fn read_token(s: &[u8], p: usize) -> (r: Option<(usize, usize, usize)>)
    requires
        p < s@.len(),
    ensures
        match r {
            Some((length, disp, width)) => {
                &&& width as int == token_width(s@[p as int])
                &&& p + width <= s@.len()
                &&& (length as int, disp as int) == token_fields(s@, p as int)
                &&& length <= 0x10110
            },
            None => p + token_width(s@[p as int]) > s@.len(),
        },
{
    let t = s[p];
    let width: usize = if t / 16 == 0 {
        3
    } else if t / 16 == 1 {
        4
    } else {
        2
    };
    if width > s.len() - p {
        return None;
    }
    if t / 16 == 0 {
        Some(
            (
                t as usize * 16 + s[p + 1] as usize / 16 + 0x11,
                (s[p + 1] % 16) as usize * 256 + s[p + 2] as usize,
                width,
            ),
        )
    } else if t / 16 == 1 {
        Some(
            (
                (t % 16) as usize * 4096 + s[p + 1] as usize * 16 + s[p + 2] as usize / 16 + 0x111,
                (s[p + 2] % 16) as usize * 256 + s[p + 3] as usize,
                width,
            ),
        )
    } else {
        Some((t as usize / 16 + 1, (t % 16) as usize * 256 + s[p + 1] as usize, width))
    }
}

/// Decompresses an LZ11 stream. Fails, producing nothing, on any header or
/// token stream that breaks the format.
pub fn decompress(s: &[u8]) -> (r: Result<Vec<u8>, Lz11Error>)
    ensures
        match r {
            Ok(v) => spec_decompress(s@) == Ok::<Seq<u8>, Lz11Error>(v@),
            Err(e) => spec_decompress(s@) == Err::<Seq<u8>, Lz11Error>(e),
        },
{
    if s.len() == 0 || s[0] != LZ11_TAG {
        return Err(Lz11Error::Unsupported);
    }
    if s.len() < 4 {
        return Err(Lz11Error::TruncatedHeader);
    }
    let mut size = read_le24(s, 1) as usize;
    let mut p: usize = 4;
    if size == 0 {
        if s.len() < 8 {
            return Err(Lz11Error::TruncatedHeader);
        }
        size = read_le32(s, 4) as usize;
        p = 8;
    }
    if size == 0 || size > MAX_DECOMPRESSED_SIZE {
        return Err(Lz11Error::InvalidSize);
    }
    let ghost total = spec_decompress(s@);
    let mut out: Vec<u8> = Vec::new();
    let mut flags: u8 = 0;
    let mut bits: u8 = 0;
    while out.len() < size
        invariant
            size <= MAX_DECOMPRESSED_SIZE,
            bits <= 8,
            out@.len() <= size,
            total == spec_decompress(s@),
            decode_from(s@, p as int, flags, bits as nat, out@, size as nat) == total,
        decreases size - out@.len(), if bits == 0 { 1int } else { 0int },
    {
        if p >= s.len() {
            return Err(Lz11Error::UnexpectedEnd);
        }
        if bits == 0 {
            flags = s[p];
            bits = 8;
            p = p + 1;
        } else {
            let next_flags = ((flags as u16 * 2) % 256) as u8;
            if flags < 0x80 {
                out.push(s[p]);
                p = p + 1;
            } else {
                let (length, disp, width) = match read_token(s, p) {
                    Some(f) => f,
                    None => return Err(Lz11Error::UnexpectedEnd),
                };
                if disp >= out.len() {
                    return Err(Lz11Error::InvalidDisplacement);
                }
                let k = if out.len() + length > size {
                    size - out.len()
                } else {
                    length
                };
                copy_back(&mut out, disp, k);
                p = p + width;
            }
            flags = next_flags;
            bits = bits - 1;
        }
    }
    Ok(out)
}

/// A compressed blob: its first byte, which names the compression type,
/// and the whole stream.
pub struct LZFile {
    header: u8,
    data: Vec<u8>,
}

impl LZFile {
    /// The compression type byte.
    pub closed spec fn spec_header(&self) -> u8 {
        self.header
    }

    /// The whole stream, type byte included.
    pub closed spec fn spec_data(&self) -> Seq<u8> {
        self.data@
    }

    /// Wraps a stream; `None` when it is empty.
    pub fn from_bytes(data: Vec<u8>) -> (r: Option<LZFile>)
        ensures
            match r {
                Some(f) => data@.len() > 0 && f.spec_header() == data@[0] && f.spec_data() == data@,
                None => data@.len() == 0,
            },
    {
        if data.len() == 0 {
            return None;
        }
        let header = data[0];
        Some(LZFile { header, data })
    }

    /// Decompresses the stream; `None` for an unknown type or a broken stream.
    pub fn decompress(&self) -> (r: Option<Vec<u8>>)
        ensures
            match r {
                Some(v) => self.spec_header() == LZ11_TAG && spec_decompress(self.spec_data())
                    == Ok::<Seq<u8>, Lz11Error>(v@),
                None => self.spec_header() != LZ11_TAG || spec_decompress(self.spec_data()) is Err,
            },
    {
        if self.header != LZ11_TAG {
            return None;
        }
        match decompress(self.data.as_slice()) {
            Ok(v) => Some(v),
            Err(_) => None,
        }
    }
}

/// Decompresses a whole stream held in memory; `None` where it is empty, of
/// an unknown type, or broken.
pub fn decompress_raw(data: Vec<u8>) -> (r: Option<Vec<u8>>)
    ensures
        match r {
            Some(v) => spec_decompress(data@) == Ok::<Seq<u8>, Lz11Error>(v@),
            None => spec_decompress(data@) is Err,
        },
{
    match LZFile::from_bytes(data) {
        Some(f) => f.decompress(),
        None => None,
    }
}

} // verus!
