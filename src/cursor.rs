//! A seekable reader and writer over a byte source, with typed integer
//! access in either byte order and a small format language for records.
use crate::bytesource::{overwrite, window, ByteSource, MemoryByteSource, SourceError};
use vstd::prelude::*;
use vstd::string::StringSliceAdditionalSpecFns;

verus! {

/// Byte `k` (0 = least significant) of `v`.
pub open spec fn byte_of(v: u64, k: int) -> u8 {
    ((v >> ((8 * k) as u64)) & 0xff) as u8
}

/// The `w` low bytes of `v` in the given order.
pub open spec fn encode_uint(v: u64, w: nat, big: bool) -> Seq<u8> {
    Seq::new(w, |i: int| if big { byte_of(v, w - 1 - i) } else { byte_of(v, i) })
}

/// The unsigned integer that `s` (one, two, four or eight bytes) spells in
/// the given order.
pub open spec fn decode_uint(s: Seq<u8>, big: bool) -> u64 {
    let b = |i: int| if big { s[s.len() - 1 - i] as u64 } else { s[i] as u64 };
    if s.len() == 1 {
        b(0)
    } else if s.len() == 2 {
        b(0) | b(1) << 8
    } else if s.len() == 4 {
        b(0) | b(1) << 8 | b(2) << 16 | b(3) << 24
    } else {
        b(0) | b(1) << 8 | b(2) << 16 | b(3) << 24 | b(4) << 32 | b(5) << 40 | b(6) << 48 | b(7)
            << 56
    }
}

/// `s` cut or padded with zeros to exactly `n` bytes.
pub open spec fn zero_pad(s: Seq<u8>, n: nat) -> Seq<u8> {
    Seq::new(n, |i: int| if i < s.len() { s[i] } else { 0u8 })
}

/// Values of `w` bytes fit in `u64`: `0` for widths other than 1, 2, 4, 8.
pub open spec fn width_mask(w: nat) -> u64 {
    if w == 1 {
        0xff
    } else if w == 2 {
        0xffff
    } else if w == 4 {
        0xffff_ffff
    } else if w == 8 {
        0xffff_ffff_ffff_ffff
    } else {
        0
    }
}

/// Decoding the encoding of `v` gives back its `w` low bytes.
pub proof fn lemma_decode_encode(v: u64, w: nat, big: bool)
    requires
        w == 1 || w == 2 || w == 4 || w == 8,
    ensures
        decode_uint(encode_uint(v, w, big), big) == v & width_mask(w),
{
    let s = encode_uint(v, w, big);
    assert forall|sh: u64| #![auto] (((v >> sh) & 0xff) as u8) as u64 == (v >> sh) & 0xff by {
        assert((((v >> sh) & 0xff) as u8) as u64 == (v >> sh) & 0xff) by (bit_vector);
    }
    assert(byte_of(v, 0) as u64 == v & 0xff) by {
        assert(v >> 0u64 == v) by (bit_vector);
    }
    assert(byte_of(v, 1) as u64 == (v >> 8u64) & 0xff);
    assert(byte_of(v, 2) as u64 == (v >> 16u64) & 0xff);
    assert(byte_of(v, 3) as u64 == (v >> 24u64) & 0xff);
    assert(byte_of(v, 4) as u64 == (v >> 32u64) & 0xff);
    assert(byte_of(v, 5) as u64 == (v >> 40u64) & 0xff);
    assert(byte_of(v, 6) as u64 == (v >> 48u64) & 0xff);
    assert(byte_of(v, 7) as u64 == (v >> 56u64) & 0xff);
    if w == 1 {
        assert(v & 0xff == v & 0xff) by (bit_vector);
    } else if w == 2 {
        assert(v & 0xff | ((v >> 8u64) & 0xff) << 8u64 == v & 0xffff) by (bit_vector);
    } else if w == 4 {
        assert(v & 0xff | ((v >> 8u64) & 0xff) << 8u64 | ((v >> 16u64) & 0xff) << 16u64 | ((v
            >> 24u64) & 0xff) << 24u64 == v & 0xffff_ffff) by (bit_vector);
    } else {
        assert(v & 0xff | ((v >> 8u64) & 0xff) << 8u64 | ((v >> 16u64) & 0xff) << 16u64 | ((v
            >> 24u64) & 0xff) << 24u64 | ((v >> 32u64) & 0xff) << 32u64 | ((v >> 40u64) & 0xff)
            << 40u64 | ((v >> 48u64) & 0xff) << 48u64 | ((v >> 56u64) & 0xff) << 56u64 == v)
            by (bit_vector);
        assert(v & 0xffff_ffff_ffff_ffff == v) by (bit_vector);
    }
}

/// A value that the format language reads or writes. Floating-point
/// values are carried as their IEEE-754 bit patterns.
#[derive(Debug, Clone, Copy, PartialEq, Eq, Structural)]
pub enum Value {
    I8(i8),
    U8(u8),
    I16(i16),
    U16(u16),
    I32(i32),
    U32(u32),
    I64(i64),
    U64(u64),
    F32Bits(u32),
    F64Bits(u64),
}

/// Width in bytes of the value a type code stands for, the pad code `x`
/// included; `0` for a byte that is no type code.
pub open spec fn code_width(c: u8) -> nat {
    if c == 0x62 || c == 0x42 || c == 0x78 {
        1
    } else if c == 0x68 || c == 0x48 {
        2
    } else if c == 0x69 || c == 0x49 || c == 0x66 {
        4
    } else if c == 0x71 || c == 0x51 || c == 0x64 {
        8
    } else {
        0
    }
}

/// The pad code `x`.
pub const PAD: u8 = 0x78;

/// The value that type code `c` reads from the unsigned integer `u`.
pub open spec fn spec_value_of(c: u8, u: u64) -> Value {
    if c == 0x62 {
        Value::I8(u as u8 as i8)
    } else if c == 0x42 {
        Value::U8(u as u8)
    } else if c == 0x68 {
        Value::I16(u as u16 as i16)
    } else if c == 0x48 {
        Value::U16(u as u16)
    } else if c == 0x69 {
        Value::I32(u as u32 as i32)
    } else if c == 0x49 {
        Value::U32(u as u32)
    } else if c == 0x71 {
        Value::I64(u as i64)
    } else if c == 0x51 {
        Value::U64(u)
    } else if c == 0x66 {
        Value::F32Bits(u as u32)
    } else {
        Value::F64Bits(u)
    }
}

/// The unsigned integer whose low bytes encode `v`.
pub open spec fn spec_bits_of(v: Value) -> u64 {
    match v {
        Value::I8(x) => x as u8 as u64,
        Value::U8(x) => x as u64,
        Value::I16(x) => x as u16 as u64,
        Value::U16(x) => x as u64,
        Value::I32(x) => x as u32 as u64,
        Value::U32(x) => x as u64,
        Value::I64(x) => x as u64,
        Value::U64(x) => x,
        Value::F32Bits(x) => x as u64,
        Value::F64Bits(x) => x,
    }
}

/// Whether `v` is of the type that code `c` names.
pub open spec fn value_matches(c: u8, v: Value) -> bool {
    match v {
        Value::I8(_) => c == 0x62,
        Value::U8(_) => c == 0x42,
        Value::I16(_) => c == 0x68,
        Value::U16(_) => c == 0x48,
        Value::I32(_) => c == 0x69,
        Value::U32(_) => c == 0x49,
        Value::I64(_) => c == 0x71,
        Value::U64(_) => c == 0x51,
        Value::F32Bits(_) => c == 0x66,
        Value::F64Bits(_) => c == 0x64,
    }
}

/// Cap on a repeat count; a count this large runs to the end of any data.
pub const REPEAT_CAP: u64 = 0xffff_ffff_ffff;

/// The repeat count after reading digit `d`.
pub open spec fn next_repeat(r: u64, d: u8) -> u64 {
    if r >= REPEAT_CAP / 10 {
        REPEAT_CAP
    } else {
        (r * 10 + (d - 0x30)) as u64
    }
}

pub open spec fn is_digit(c: u8) -> bool {
    0x30 <= c <= 0x39
}

/// `a + b`, held at `u64::MAX`.
pub open spec fn sat_add(a: int, b: int) -> int {
    if a + b > u64::MAX {
        u64::MAX as int
    } else {
        a + b
    }
}

/// Reading `count` values of type code `c` from `data` at `pos`: the values
/// read, the new position, and whether the data ran out first.
pub open spec fn unpack_run(c: u8, count: nat, data: Seq<u8>, pos: nat, big: bool, acc: Seq<Value>)
    -> (Seq<Value>, nat, bool)
    decreases count,
{
    let w = code_width(c);
    if count == 0 {
        (acc, pos, false)
    } else if pos + w > data.len() {
        (acc, pos, true)
    } else {
        let u = decode_uint(data.subrange(pos as int, (pos + w) as int), big);
        unpack_run(c, (count - 1) as nat, data, pos + w, big, acc.push(spec_value_of(c, u)))
    }
}

/// The repeat count that applies to a code read with `rep` pending.
pub open spec fn run_count(rep: u64) -> nat {
    if rep == 0 {
        1
    } else {
        rep as nat
    }
}

/// Unpacking from format byte `i` on, with repeat count `rep` pending.
pub open spec fn unpack_from(
    fmt: Seq<u8>,
    i: nat,
    rep: u64,
    data: Seq<u8>,
    pos: nat,
    big: bool,
    acc: Seq<Value>,
) -> (Seq<Value>, nat)
    decreases fmt.len() - i,
{
    if i >= fmt.len() {
        (acc, pos)
    } else if is_digit(fmt[i as int]) {
        unpack_from(fmt, i + 1, next_repeat(rep, fmt[i as int]), data, pos, big, acc)
    } else if code_width(fmt[i as int]) == 0 {
        (acc, pos)
    } else if fmt[i as int] == PAD {
        unpack_from(fmt, i + 1, 0, data, sat_add(pos as int, run_count(rep) as int) as nat, big, acc)
    } else {
        let (acc2, pos2, stopped) = unpack_run(fmt[i as int], run_count(rep), data, pos, big, acc);
        if stopped {
            (acc2, pos2)
        } else {
            unpack_from(fmt, i + 1, 0, data, pos2, big, acc2)
        }
    }
}

/// Where the format's codes begin, and which byte order applies: a leading
/// `<` selects little-endian, `>` big-endian.
pub open spec fn format_order(fmt: Seq<u8>, default_big: bool) -> (nat, bool) {
    if fmt.len() > 0 && fmt[0] == 0x3c {
        (1, false)
    } else if fmt.len() > 0 && fmt[0] == 0x3e {
        (1, true)
    } else {
        (0, default_big)
    }
}

/// What `unpack` yields on format `fmt`, over `data` from `pos`: the values
/// and the final position.
pub open spec fn spec_unpack(fmt: Seq<u8>, data: Seq<u8>, pos: nat, default_big: bool) -> (
    Seq<Value>,
    nat,
) {
    let (start, big) = format_order(fmt, default_big);
    unpack_from(fmt, start, 0, data, pos, big, Seq::empty())
}

/// Writing `count` values of type code `c` from `vals[k..]` at `pos` into
/// `data`: the new data, position and value index, and whether it stopped
/// early (values ran out, or the write would leave the address space).
pub open spec fn pack_run(
    c: u8,
    count: nat,
    vals: Seq<Value>,
    k: nat,
    data: Seq<u8>,
    pos: nat,
    big: bool,
) -> (Seq<u8>, nat, nat, bool)
    decreases count,
{
    let w = code_width(c);
    if count == 0 {
        (data, pos, k, false)
    } else if k >= vals.len() || pos + w > usize::MAX {
        (data, pos, k, true)
    } else {
        let bytes = encode_uint(spec_bits_of(vals[k as int]), w, big);
        pack_run(c, (count - 1) as nat, vals, k + 1, overwrite(data, pos as int, bytes), pos + w, big)
    }
}

/// Packing from format byte `i` on.
pub open spec fn pack_from(
    fmt: Seq<u8>,
    i: nat,
    rep: u64,
    vals: Seq<Value>,
    k: nat,
    data: Seq<u8>,
    pos: nat,
    big: bool,
) -> (Seq<u8>, nat)
    decreases fmt.len() - i,
{
    if i >= fmt.len() {
        (data, pos)
    } else if is_digit(fmt[i as int]) {
        pack_from(fmt, i + 1, next_repeat(rep, fmt[i as int]), vals, k, data, pos, big)
    } else if code_width(fmt[i as int]) == 0 {
        (data, pos)
    } else if fmt[i as int] == PAD {
        pack_from(fmt, i + 1, 0, vals, k, data, sat_add(pos as int, run_count(rep) as int) as nat, big)
    } else {
        let (data2, pos2, k2, stopped) = pack_run(fmt[i as int], run_count(rep), vals, k, data, pos, big);
        if stopped {
            (data2, pos2)
        } else {
            pack_from(fmt, i + 1, 0, vals, k2, data2, pos2, big)
        }
    }
}

/// What `pack` leaves: the new bytes of the source and the final position.
pub open spec fn spec_pack(
    fmt: Seq<u8>,
    vals: Seq<Value>,
    data: Seq<u8>,
    pos: nat,
    default_big: bool,
) -> (Seq<u8>, nat) {
    let (start, big) = format_order(fmt, default_big);
    pack_from(fmt, start, 0, vals, 0, data, pos, big)
}

/// A position in a byte source with a current byte order.
pub struct Cursor<S: ByteSource> {
    source: S,
    position: u64,
    big_endian: bool,
}

impl<S: ByteSource> Cursor<S> {
    /// The source's bytes.
    pub closed spec fn spec_bytes(&self) -> Seq<u8> {
        self.source.spec_bytes()
    }

    /// The current position.
    pub closed spec fn spec_position(&self) -> u64 {
        self.position
    }

    /// Whether multi-byte values are big-endian.
    pub closed spec fn spec_big_endian(&self) -> bool {
        self.big_endian
    }

    /// A cursor at the start of `source`, little-endian.
    pub fn new(source: S) -> (r: Self)
        ensures
            r.spec_bytes() == source.spec_bytes(),
            r.spec_position() == 0,
            !r.spec_big_endian(),
    {
        Cursor { source, position: 0, big_endian: false }
    }

    /// Binds the cursor to another source, back at its start.
    pub fn set_source(&mut self, source: S)
        ensures
            final(self).spec_bytes() == source.spec_bytes(),
            final(self).spec_position() == 0,
            final(self).spec_big_endian() == old(self).spec_big_endian(),
    {
        self.source = source;
        self.position = 0;
    }

    /// The source the cursor reads.
    pub fn source(&self) -> (r: &S)
        ensures
            r.spec_bytes() == self.spec_bytes(),
    {
        &self.source
    }

    /// The current position.
    pub fn get_offset(&self) -> (r: u64)
        ensures
            r == self.spec_position(),
    {
        self.position
    }

    /// Whether the byte order is big-endian.
    pub fn is_big_endian(&self) -> (r: bool)
        ensures
            r == self.spec_big_endian(),
    {
        self.big_endian
    }

    /// Sets the byte order.
    pub fn set_big_endian(&mut self, big: bool)
        ensures
            final(self).spec_big_endian() == big,
            final(self).spec_position() == old(self).spec_position(),
            final(self).spec_bytes() == old(self).spec_bytes(),
    {
        self.big_endian = big;
    }

    /// Whether the position is at or past the end of the data.
    pub fn at_end(&self) -> (r: bool)
        ensures
            r == (self.spec_position() >= self.spec_bytes().len()),
    {
        self.position >= self.source.len()
    }

    /// Moves the position by `amount`, stopping at zero (and at the top of
    /// the `u64` range).
    pub fn seek(&mut self, amount: i64)
        ensures
            final(self).spec_position() == (if old(self).spec_position() + amount < 0 {
                0
            } else if old(self).spec_position() + amount > u64::MAX {
                u64::MAX as int
            } else {
                old(self).spec_position() + amount
            }),
            final(self).spec_big_endian() == old(self).spec_big_endian(),
            final(self).spec_bytes() == old(self).spec_bytes(),
    {
        if amount >= 0 {
            let a = amount as u64;
            if a > u64::MAX - self.position {
                self.position = u64::MAX;
            } else {
                self.position = self.position + a;
            }
        } else {
            let back: u64 = if amount == i64::MIN {
                0x8000_0000_0000_0000
            } else {
                (-amount) as u64
            };
            if back > self.position {
                self.position = 0;
            } else {
                self.position = self.position - back;
            }
        }
    }

    /// Moves to an absolute position, negative ones meaning zero.
    pub fn goto(&mut self, position: i64)
        ensures
            final(self).spec_position() == (if position < 0 {
                0
            } else {
                position as int
            }),
            final(self).spec_big_endian() == old(self).spec_big_endian(),
            final(self).spec_bytes() == old(self).spec_bytes(),
    {
        self.position = if position < 0 {
            0
        } else {
            position as u64
        };
    }

    /// Reads `n` bytes at the position without moving it, zero-filled where
    /// the data ends.
    fn read_padded(&self, n: usize) -> (r: Vec<u8>)
        ensures
            r@ == zero_pad(window(self.spec_bytes(), self.spec_position() as int, n as int), n as nat),
    {
        let mut got = self.source.read_range(self.position, n);
        let ghost w = got@;
        while got.len() < n
            invariant
                w.len() <= n,
                w.len() <= got@.len() <= n,
                forall|i: int| 0 <= i < got@.len() ==> #[trigger] got@[i] == (if i < w.len() {
                    w[i]
                } else {
                    0u8
                }),
            decreases n - got@.len(),
        {
            got.push(0);
        }
        proof {
            assert(got@ =~= zero_pad(w, n as nat));
        }
        got
    }

    /// Reads an unsigned integer of `w` bytes in the current order, zero
    /// where the data ends; moves past it when `advance` is set.
    fn read_uint(&mut self, w: usize, advance: bool) -> (r: u64)
        requires
            w == 1 || w == 2 || w == 4 || w == 8,
        ensures
            r == decode_uint(
                zero_pad(
                    window(old(self).spec_bytes(), old(self).spec_position() as int, w as int),
                    w as nat,
                ),
                old(self).spec_big_endian(),
            ),
            final(self).spec_position() as int == (if advance {
                sat_add(old(self).spec_position() as int, w as int)
            } else {
                old(self).spec_position() as int
            }),
            final(self).spec_big_endian() == old(self).spec_big_endian(),
            final(self).spec_bytes() == old(self).spec_bytes(),
    {
        let b = self.read_padded(w);
        let r = decode_bytes(&b, self.big_endian);
        if advance {
            self.position = sat_add_exec(self.position, w as u64);
        }
        r
    }

    /// Reads an unsigned byte and moves past it.
    pub fn read_u8(&mut self) -> (r: u8)
        ensures
            r == decode_uint(
                zero_pad(window(old(self).spec_bytes(), old(self).spec_position() as int, 1), 1),
                false,
            ) as u8,
            final(self).spec_position() as int == sat_add(old(self).spec_position() as int, 1),
            final(self).spec_big_endian() == old(self).spec_big_endian(),
            final(self).spec_bytes() == old(self).spec_bytes(),
    {
        let v = self.read_uint(1, true);
        proof {
            lemma_single_byte_order(
                zero_pad(window(old(self).spec_bytes(), old(self).spec_position() as int, 1), 1),
            );
        }
        v as u8
    }

    /// Reads an unsigned byte without moving.
    pub fn peek_u8(&mut self) -> (r: u8)
        ensures
            r == decode_uint(
                zero_pad(window(old(self).spec_bytes(), old(self).spec_position() as int, 1), 1),
                false,
            ) as u8,
            final(self).spec_position() == old(self).spec_position(),
            final(self).spec_big_endian() == old(self).spec_big_endian(),
            final(self).spec_bytes() == old(self).spec_bytes(),
    {
        let v = self.read_uint(1, false);
        proof {
            lemma_single_byte_order(
                zero_pad(window(old(self).spec_bytes(), old(self).spec_position() as int, 1), 1),
            );
        }
        v as u8
    }

    /// Reads a 16-bit unsigned integer in the current order and moves past it.
    pub fn read_u16(&mut self) -> (r: u16)
        ensures
            r == decode_uint(
                zero_pad(window(old(self).spec_bytes(), old(self).spec_position() as int, 2), 2),
                old(self).spec_big_endian(),
            ) as u16,
            final(self).spec_position() as int == sat_add(old(self).spec_position() as int, 2),
            final(self).spec_big_endian() == old(self).spec_big_endian(),
            final(self).spec_bytes() == old(self).spec_bytes(),
    {
        self.read_uint(2, true) as u16
    }

    /// Reads a 32-bit unsigned integer in the current order and moves past it.
    pub fn read_u32(&mut self) -> (r: u32)
        ensures
            r == decode_uint(
                zero_pad(window(old(self).spec_bytes(), old(self).spec_position() as int, 4), 4),
                old(self).spec_big_endian(),
            ) as u32,
            final(self).spec_position() as int == sat_add(old(self).spec_position() as int, 4),
            final(self).spec_big_endian() == old(self).spec_big_endian(),
            final(self).spec_bytes() == old(self).spec_bytes(),
    {
        self.read_uint(4, true) as u32
    }

    /// Reads a 64-bit unsigned integer in the current order and moves past it.
    pub fn read_u64(&mut self) -> (r: u64)
        ensures
            r == decode_uint(
                zero_pad(window(old(self).spec_bytes(), old(self).spec_position() as int, 8), 8),
                old(self).spec_big_endian(),
            ),
            final(self).spec_position() as int == sat_add(old(self).spec_position() as int, 8),
            final(self).spec_big_endian() == old(self).spec_big_endian(),
            final(self).spec_bytes() == old(self).spec_bytes(),
    {
        self.read_uint(8, true)
    }

    /// Reads a signed byte and moves past it.
    pub fn read_i8(&mut self) -> (r: i8)
        ensures
            r == decode_uint(
                zero_pad(window(old(self).spec_bytes(), old(self).spec_position() as int, 1), 1),
                false,
            ) as u8 as i8,
            final(self).spec_position() as int == sat_add(old(self).spec_position() as int, 1),
            final(self).spec_big_endian() == old(self).spec_big_endian(),
            final(self).spec_bytes() == old(self).spec_bytes(),
    {
        self.read_u8() as i8
    }

    /// Reads a 16-bit signed integer in the current order and moves past it.
    pub fn read_i16(&mut self) -> (r: i16)
        ensures
            r == decode_uint(
                zero_pad(window(old(self).spec_bytes(), old(self).spec_position() as int, 2), 2),
                old(self).spec_big_endian(),
            ) as u16 as i16,
            final(self).spec_position() as int == sat_add(old(self).spec_position() as int, 2),
            final(self).spec_big_endian() == old(self).spec_big_endian(),
            final(self).spec_bytes() == old(self).spec_bytes(),
    {
        self.read_u16() as i16
    }

    /// Reads a 32-bit signed integer in the current order and moves past it.
    pub fn read_i32(&mut self) -> (r: i32)
        ensures
            r == decode_uint(
                zero_pad(window(old(self).spec_bytes(), old(self).spec_position() as int, 4), 4),
                old(self).spec_big_endian(),
            ) as u32 as i32,
            final(self).spec_position() as int == sat_add(old(self).spec_position() as int, 4),
            final(self).spec_big_endian() == old(self).spec_big_endian(),
            final(self).spec_bytes() == old(self).spec_bytes(),
    {
        self.read_u32() as i32
    }

    /// Reads a 64-bit signed integer in the current order and moves past it.
    pub fn read_i64(&mut self) -> (r: i64)
        ensures
            r == decode_uint(
                zero_pad(window(old(self).spec_bytes(), old(self).spec_position() as int, 8), 8),
                old(self).spec_big_endian(),
            ) as i64,
            final(self).spec_position() as int == sat_add(old(self).spec_position() as int, 8),
            final(self).spec_big_endian() == old(self).spec_big_endian(),
            final(self).spec_bytes() == old(self).spec_bytes(),
    {
        self.read_u64() as i64
    }

    /// Reads `size` bytes at `offset`, fewer where the data ends; the
    /// position does not move.
    pub fn read_bytes(&self, offset: u64, size: usize) -> (r: Vec<u8>)
        ensures
            r@ == window(self.spec_bytes(), offset as int, size as int),
    {
        self.source.read_range(offset, size)
    }

    /// Writes the `w` low bytes of `v` in the current order and moves past
    /// them, whether or not the source took the write.
    fn store_uint(&mut self, v: u64, w: usize) -> (r: Result<(), SourceError>)
        requires
            w == 1 || w == 2 || w == 4 || w == 8,
        ensures
            r is Ok <==> old(self).source.spec_accepts_write(old(self).spec_position() as int, w as int),
            final(self).spec_bytes() == (if r is Ok {
                overwrite(
                    old(self).spec_bytes(),
                    old(self).spec_position() as int,
                    encode_uint(v, w as nat, old(self).spec_big_endian()),
                )
            } else {
                old(self).spec_bytes()
            }),
            final(self).spec_position() as int == sat_add(old(self).spec_position() as int, w as int),
            final(self).spec_big_endian() == old(self).spec_big_endian(),
    {
        let bytes = encode_bytes(v, w, self.big_endian);
        let r = self.source.write_range(self.position, bytes.as_slice());
        self.position = sat_add_exec(self.position, w as u64);
        r
    }

    /// Whether the source takes a write of `len` bytes at `offset`.
    pub closed spec fn spec_accepts(&self, offset: int, len: int) -> bool {
        self.source.spec_accepts_write(offset, len)
    }

    /// Writes an unsigned byte and moves past it.
    pub fn store_u8(&mut self, v: u8) -> (r: Result<(), SourceError>)
        ensures
            r is Ok <==> old(self).spec_accepts(old(self).spec_position() as int, 1),
            final(self).spec_bytes() == (if r is Ok {
                overwrite(old(self).spec_bytes(), old(self).spec_position() as int, seq![v])
            } else {
                old(self).spec_bytes()
            }),
            final(self).spec_position() as int == sat_add(old(self).spec_position() as int, 1),
            final(self).spec_big_endian() == old(self).spec_big_endian(),
    {
        let r = self.store_uint(v as u64, 1);
        proof {
            let e = encode_uint(v as u64, 1, old(self).spec_big_endian());
            assert((v as u64 >> 0u64) & 0xff == v as u64) by (bit_vector);
            assert(e =~= seq![v]);
        }
        r
    }

    /// Writes a 16-bit unsigned integer in the current order and moves past it.
    pub fn store_u16(&mut self, v: u16) -> (r: Result<(), SourceError>)
        ensures
            r is Ok <==> old(self).spec_accepts(old(self).spec_position() as int, 2),
            final(self).spec_bytes() == (if r is Ok {
                overwrite(
                    old(self).spec_bytes(),
                    old(self).spec_position() as int,
                    encode_uint(v as u64, 2, old(self).spec_big_endian()),
                )
            } else {
                old(self).spec_bytes()
            }),
            final(self).spec_position() as int == sat_add(old(self).spec_position() as int, 2),
            final(self).spec_big_endian() == old(self).spec_big_endian(),
    {
        self.store_uint(v as u64, 2)
    }

    /// Writes a 32-bit unsigned integer in the current order and moves past it.
    pub fn store_u32(&mut self, v: u32) -> (r: Result<(), SourceError>)
        ensures
            r is Ok <==> old(self).spec_accepts(old(self).spec_position() as int, 4),
            final(self).spec_bytes() == (if r is Ok {
                overwrite(
                    old(self).spec_bytes(),
                    old(self).spec_position() as int,
                    encode_uint(v as u64, 4, old(self).spec_big_endian()),
                )
            } else {
                old(self).spec_bytes()
            }),
            final(self).spec_position() as int == sat_add(old(self).spec_position() as int, 4),
            final(self).spec_big_endian() == old(self).spec_big_endian(),
    {
        self.store_uint(v as u64, 4)
    }

    /// Writes a 64-bit unsigned integer in the current order and moves past it.
    pub fn store_u64(&mut self, v: u64) -> (r: Result<(), SourceError>)
        ensures
            r is Ok <==> old(self).spec_accepts(old(self).spec_position() as int, 8),
            final(self).spec_bytes() == (if r is Ok {
                overwrite(
                    old(self).spec_bytes(),
                    old(self).spec_position() as int,
                    encode_uint(v, 8, old(self).spec_big_endian()),
                )
            } else {
                old(self).spec_bytes()
            }),
            final(self).spec_position() as int == sat_add(old(self).spec_position() as int, 8),
            final(self).spec_big_endian() == old(self).spec_big_endian(),
    {
        self.store_uint(v, 8)
    }

    /// Reads `count` values of type code `c` (of width `w`) from `pos`.
    fn unpack_run_exec(&self, c: u8, w: usize, count: u64, pos: u64, big: bool, out: &mut Vec<Value>) -> (r: (u64, bool))
        requires
            w as nat == code_width(c),
            w == 1 || w == 2 || w == 4 || w == 8,
        ensures
            (final(out)@, r.0 as nat, r.1) == unpack_run(c, count as nat, self.spec_bytes(), pos as nat, big, old(out)@),
    {
        let ghost data = self.spec_bytes();
        let ghost total = unpack_run(c, count as nat, data, pos as nat, big, out@);
        let len = self.source.len();
        let mut left = count;
        let mut p = pos;
        while left > 0
            invariant
                w as nat == code_width(c),
                w == 1 || w == 2 || w == 4 || w == 8,
                data == self.spec_bytes(),
                len as int == data.len(),
                total == unpack_run(c, count as nat, data, pos as nat, big, old(out)@),
                unpack_run(c, left as nat, data, p as nat, big, out@) == total,
            decreases left,
        {
            if p > len || w as u64 > len - p {
                return (p, true);
            }
            let b = self.source.read_range(p, w);
            proof {
                assert(b@ == data.subrange(p as int, p + w));
            }
            let u = decode_bytes(&b, big);
            out.push(value_of(c, u));
            p = p + w as u64;
            left = left - 1;
        }
        (p, false)
    }

    /// Reads values as a format string lays them out, from the position on.
    ///
    /// An optional leading `<` or `>` sets little- or big-endian order for
    /// this call only. Each code may be preceded by a decimal repeat count:
    /// `b`/`B` signed/unsigned 8-bit, `h`/`H` 16-bit, `i`/`I` 32-bit,
    /// `q`/`Q` 64-bit integers, `f`/`d` 32/64-bit floats (as bit patterns),
    /// `x` a pad byte that is skipped. An unknown code ends the call; so does
    /// a value that the data cannot hold in full. What was read until then,
    /// and the movement of the position, is kept.
    pub fn unpack(&mut self, format: &str) -> (r: Vec<Value>)
        ensures
            (r@, final(self).spec_position() as nat) == spec_unpack(
                format.spec_bytes(),
                old(self).spec_bytes(),
                old(self).spec_position() as nat,
                old(self).spec_big_endian(),
            ),
            final(self).spec_big_endian() == old(self).spec_big_endian(),
            final(self).spec_bytes() == old(self).spec_bytes(),
    {
        let fmt = format.as_bytes();
        let ghost data = self.spec_bytes();
        let ghost total = spec_unpack(fmt@, data, self.position as nat, self.big_endian);
        let (mut i, big): (usize, bool) = if fmt.len() > 0 && fmt[0] == 0x3c {
            (1, false)
        } else if fmt.len() > 0 && fmt[0] == 0x3e {
            (1, true)
        } else {
            (0, self.big_endian)
        };
        let mut out: Vec<Value> = Vec::new();
        let mut pos = self.position;
        let mut rep: u64 = 0;
        loop
            invariant
                data == self.spec_bytes(),
                data == old(self).spec_bytes(),
                self.big_endian == old(self).spec_big_endian(),
                total == spec_unpack(format.spec_bytes(), old(self).spec_bytes(), old(self).spec_position() as nat, old(self).spec_big_endian()),
                fmt@ == format.spec_bytes(),
                i <= fmt@.len(),
                unpack_from(fmt@, i as nat, rep, data, pos as nat, big, out@) == total,
            decreases fmt@.len() - i,
        {
            if i >= fmt.len() {
                self.position = pos;
                return out;
            }
            let c = fmt[i];
            if 0x30 <= c && c <= 0x39 {
                rep = next_repeat_exec(rep, c);
                i = i + 1;
            } else {
                let w = code_width_exec(c);
                if w == 0 {
                    self.position = pos;
                    return out;
                }
                let count = if rep == 0 {
                    1
                } else {
                    rep
                };
                if c == PAD {
                    pos = sat_add_exec(pos, count);
                } else {
                    let (p2, stopped) = self.unpack_run_exec(c, w, count, pos, big, &mut out);
                    pos = p2;
                    if stopped {
                        self.position = pos;
                        return out;
                    }
                }
                rep = 0;
                i = i + 1;
            }
        }
    }
}

impl Cursor<MemoryByteSource> {
    /// Writes `count` values of type code `c` (width `w`) from `vals[k..]`.
    fn pack_run_exec(&mut self, c: u8, w: usize, count: u64, vals: &[Value], k: usize, pos: u64, big: bool) -> (r: (u64, usize, bool))
        requires
            w as nat == code_width(c),
            w == 1 || w == 2 || w == 4 || w == 8,
            k <= vals@.len(),
        ensures
            (final(self).spec_bytes(), r.0 as nat, r.1 as nat, r.2) == pack_run(c, count as nat, vals@, k as nat, old(self).spec_bytes(), pos as nat, big),
            r.1 <= vals@.len(),
            final(self).spec_position() == old(self).spec_position(),
            final(self).spec_big_endian() == old(self).spec_big_endian(),
    {
        let ghost total = pack_run(c, count as nat, vals@, k as nat, self.spec_bytes(), pos as nat, big);
        let mut left = count;
        let mut p = pos;
        let mut j = k;
        while left > 0
            invariant
                w as nat == code_width(c),
                w == 1 || w == 2 || w == 4 || w == 8,
                j <= vals@.len(),
                self.position == old(self).position,
                self.big_endian == old(self).big_endian,
                total == pack_run(c, count as nat, vals@, k as nat, old(self).spec_bytes(), pos as nat, big),
                pack_run(c, left as nat, vals@, j as nat, self.spec_bytes(), p as nat, big) == total,
            decreases left,
        {
            if j >= vals.len() || p > usize::MAX as u64 || w > usize::MAX - p as usize {
                return (p, j, true);
            }
            let bytes = encode_bytes(bits_of(vals[j]), w, big);
            let _ = self.source.write_range(p, bytes.as_slice());
            p = p + w as u64;
            j = j + 1;
            left = left - 1;
        }
        (p, j, false)
    }

    /// Writes values as a format string lays them out (see `unpack`), from
    /// the position on. Pad codes move the position without writing. The
    /// call ends at an unknown code, when the values run out, or where a
    /// write would leave the address space; what was written is kept.
    pub fn pack(&mut self, format: &str, vals: &[Value])
        ensures
            (final(self).spec_bytes(), final(self).spec_position() as nat) == spec_pack(
                format.spec_bytes(),
                vals@,
                old(self).spec_bytes(),
                old(self).spec_position() as nat,
                old(self).spec_big_endian(),
            ),
            final(self).spec_big_endian() == old(self).spec_big_endian(),
    {
        let fmt = format.as_bytes();
        let ghost total = spec_pack(fmt@, vals@, self.spec_bytes(), self.position as nat, self.big_endian);
        let (mut i, big): (usize, bool) = if fmt.len() > 0 && fmt[0] == 0x3c {
            (1, false)
        } else if fmt.len() > 0 && fmt[0] == 0x3e {
            (1, true)
        } else {
            (0, self.big_endian)
        };
        let mut pos = self.position;
        let mut rep: u64 = 0;
        let mut k: usize = 0;
        loop
            invariant
                self.big_endian == old(self).spec_big_endian(),
                total == spec_pack(format.spec_bytes(), vals@, old(self).spec_bytes(), old(self).spec_position() as nat, old(self).spec_big_endian()),
                fmt@ == format.spec_bytes(),
                i <= fmt@.len(),
                k <= vals@.len(),
                pack_from(fmt@, i as nat, rep, vals@, k as nat, self.spec_bytes(), pos as nat, big) == total,
            decreases fmt@.len() - i,
        {
            if i >= fmt.len() {
                self.position = pos;
                return;
            }
            let c = fmt[i];
            if 0x30 <= c && c <= 0x39 {
                rep = next_repeat_exec(rep, c);
                i = i + 1;
            } else {
                let w = code_width_exec(c);
                if w == 0 {
                    self.position = pos;
                    return;
                }
                let count = if rep == 0 {
                    1
                } else {
                    rep
                };
                if c == PAD {
                    pos = sat_add_exec(pos, count);
                } else {
                    let (p2, k2, stopped) = self.pack_run_exec(c, w, count, vals, k, pos, big);
                    pos = p2;
                    k = k2;
                    if stopped {
                        self.position = pos;
                        return;
                    }
                }
                rep = 0;
                i = i + 1;
            }
        }
    }
}

fn sat_add_exec(a: u64, b: u64) -> (r: u64)
    ensures
        r as int == sat_add(a as int, b as int),
{
    if b > u64::MAX - a {
        u64::MAX
    } else {
        a + b
    }
}

proof fn lemma_single_byte_order(s: Seq<u8>)
    requires
        s.len() == 1,
    ensures
        decode_uint(s, true) == decode_uint(s, false),
{
}

/// Width of a type code, as `code_width`.
fn code_width_exec(c: u8) -> (r: usize)
    ensures
        r as nat == code_width(c),
{
    if c == 0x62 || c == 0x42 || c == 0x78 {
        1
    } else if c == 0x68 || c == 0x48 {
        2
    } else if c == 0x69 || c == 0x49 || c == 0x66 {
        4
    } else if c == 0x71 || c == 0x51 || c == 0x64 {
        8
    } else {
        0
    }
}

fn value_of(c: u8, u: u64) -> (r: Value)
    ensures
        r == spec_value_of(c, u),
{
    if c == 0x62 {
        Value::I8(u as u8 as i8)
    } else if c == 0x42 {
        Value::U8(u as u8)
    } else if c == 0x68 {
        Value::I16(u as u16 as i16)
    } else if c == 0x48 {
        Value::U16(u as u16)
    } else if c == 0x69 {
        Value::I32(u as u32 as i32)
    } else if c == 0x49 {
        Value::U32(u as u32)
    } else if c == 0x71 {
        Value::I64(u as i64)
    } else if c == 0x51 {
        Value::U64(u)
    } else if c == 0x66 {
        Value::F32Bits(u as u32)
    } else {
        Value::F64Bits(u)
    }
}

fn bits_of(v: Value) -> (r: u64)
    ensures
        r == spec_bits_of(v),
{
    match v {
        Value::I8(x) => x as u8 as u64,
        Value::U8(x) => x as u64,
        Value::I16(x) => x as u16 as u64,
        Value::U16(x) => x as u64,
        Value::I32(x) => x as u32 as u64,
        Value::U32(x) => x as u64,
        Value::I64(x) => x as u64,
        Value::U64(x) => x,
        Value::F32Bits(x) => x as u64,
        Value::F64Bits(x) => x,
    }
}

fn next_repeat_exec(r: u64, d: u8) -> (n: u64)
    requires
        is_digit(d),
    ensures
        n == next_repeat(r, d),
{
    if r >= REPEAT_CAP / 10 {
        REPEAT_CAP
    } else {
        r * 10 + (d - 0x30) as u64
    }
}

/// The `w` low bytes of `v` in the given order.
pub(crate) fn encode_bytes(v: u64, w: usize, big: bool) -> (r: Vec<u8>)
    requires
        w <= 8,
    ensures
        r@ == encode_uint(v, w as nat, big),
{
    let mut out: Vec<u8> = Vec::new();
    let mut i: usize = 0;
    while i < w
        invariant
            w <= 8,
            i <= w,
            out@.len() == i,
            forall|j: int| 0 <= j < i ==> #[trigger] out@[j] == encode_uint(v, w as nat, big)[j],
        decreases w - i,
    {
        let k: u64 = if big {
            (w - 1 - i) as u64
        } else {
            i as u64
        };
        let b = ((v >> (8 * k)) & 0xff) as u8;
        out.push(b);
        i = i + 1;
    }
    proof {
        assert(out@ =~= encode_uint(v, w as nat, big));
    }
    out
}

/// The unsigned integer that `b` spells.
fn decode_bytes(b: &Vec<u8>, big: bool) -> (r: u64)
    requires
        b@.len() == 1 || b@.len() == 2 || b@.len() == 4 || b@.len() == 8,
    ensures
        r == decode_uint(b@, big),
{
    let n = b.len();
    let mut v: [u64; 8] = [0; 8];
    let mut i: usize = 0;
    while i < n
        invariant
            n == b@.len() <= 8,
            i <= n,
            forall|j: int|
                0 <= j < i ==> #[trigger] v@[j] == (if big {
                    b@[n - 1 - j] as u64
                } else {
                    b@[j] as u64
                }),
        decreases n - i,
    {
        let x = if big {
            b[n - 1 - i]
        } else {
            b[i]
        };
        v[i] = x as u64;
        i = i + 1;
    }
    if n == 1 {
        v[0]
    } else if n == 2 {
        v[0] | v[1] << 8
    } else if n == 4 {
        v[0] | v[1] << 8 | v[2] << 16 | v[3] << 24
    } else {
        v[0] | v[1] << 8 | v[2] << 16 | v[3] << 24 | v[4] << 32 | v[5] << 40 | v[6] << 48 | v[7]
            << 56
    }
}

} // verus!

verus! {

/// Whether `vals[k..]` are exactly the values that the format from byte
/// `i` on describes: as many, each of its code's type.
pub open spec fn values_fit(fmt: Seq<u8>, i: nat, rep: u64, vals: Seq<Value>, k: nat) -> bool
    decreases fmt.len() - i,
{
    if i >= fmt.len() {
        k == vals.len()
    } else if is_digit(fmt[i as int]) {
        values_fit(fmt, i + 1, next_repeat(rep, fmt[i as int]), vals, k)
    } else if code_width(fmt[i as int]) == 0 {
        k == vals.len()
    } else if fmt[i as int] == PAD {
        values_fit(fmt, i + 1, 0, vals, k)
    } else {
        let n = run_count(rep);
        &&& k + n <= vals.len()
        &&& forall|j: int| 0 <= j < n ==> value_matches(fmt[i as int], #[trigger] vals[k + j])
        &&& values_fit(fmt, i + 1, 0, vals, k + n)
    }
}

/// Total width in bytes of the layout the format from byte `i` on describes.
pub open spec fn format_width(fmt: Seq<u8>, i: nat, rep: u64) -> nat
    decreases fmt.len() - i,
{
    if i >= fmt.len() {
        0
    } else if is_digit(fmt[i as int]) {
        format_width(fmt, i + 1, next_repeat(rep, fmt[i as int]))
    } else if code_width(fmt[i as int]) == 0 {
        0
    } else {
        run_count(rep) * code_width(fmt[i as int]) + format_width(fmt, i + 1, 0)
    }
}

/// `d2` keeps the bytes of `d` below `pos` and is at least as long.
pub open spec fn keeps_below(d2: Seq<u8>, d: Seq<u8>, pos: int) -> bool {
    &&& d2.len() >= d.len()
    &&& forall|j: int| 0 <= j < pos && j < d.len() ==> #[trigger] d2[j] == d[j]
}

proof fn lemma_value_round_trip(c: u8, v: Value)
    requires
        value_matches(c, v),
    ensures
        spec_value_of(c, spec_bits_of(v) & width_mask(code_width(c))) == v,
{
    match v {
        Value::I8(x) => {
            assert(((((x as u8) as u64) & 0xff) as u8) as i8 == x) by (bit_vector);
        },
        Value::U8(x) => {
            assert((((x as u64) & 0xff) as u8) == x) by (bit_vector);
        },
        Value::I16(x) => {
            assert(((((x as u16) as u64) & 0xffff) as u16) as i16 == x) by (bit_vector);
        },
        Value::U16(x) => {
            assert((((x as u64) & 0xffff) as u16) == x) by (bit_vector);
        },
        Value::I32(x) => {
            assert(((((x as u32) as u64) & 0xffff_ffff) as u32) as i32 == x) by (bit_vector);
        },
        Value::U32(x) => {
            assert((((x as u64) & 0xffff_ffff) as u32) == x) by (bit_vector);
        },
        Value::I64(x) => {
            assert((((x as u64) & 0xffff_ffff_ffff_ffff) as i64) == x) by (bit_vector);
        },
        Value::U64(x) => {
            assert((x & 0xffff_ffff_ffff_ffff) == x) by (bit_vector);
        },
        Value::F32Bits(x) => {
            assert((((x as u64) & 0xffff_ffff) as u32) == x) by (bit_vector);
        },
        Value::F64Bits(x) => {
            assert((x & 0xffff_ffff_ffff_ffff) == x) by (bit_vector);
        },
    }
}

proof fn lemma_pack_run_keeps(c: u8, n: nat, vals: Seq<Value>, k: nat, data: Seq<u8>, pos: nat, big: bool)
    requires
        code_width(c) > 0,
    ensures
        keeps_below(pack_run(c, n, vals, k, data, pos, big).0, data, pos as int),
        pack_run(c, n, vals, k, data, pos, big).1 >= pos,
        pack_run(c, n, vals, k, data, pos, big).1 > pos ==> pack_run(c, n, vals, k, data, pos, big).0.len()
            >= pack_run(c, n, vals, k, data, pos, big).1,
        pack_run(c, n, vals, k, data, pos, big).1 <= pos || pack_run(c, n, vals, k, data, pos, big).1
            <= usize::MAX,
    decreases n,
{
    let w = code_width(c);
    if n > 0 && !(k >= vals.len() || pos + w > usize::MAX) {
        let d1 = overwrite(data, pos as int, encode_uint(spec_bits_of(vals[k as int]), w, big));
        lemma_pack_run_keeps(c, (n - 1) as nat, vals, k + 1, d1, pos + w, big);
    }
}

proof fn lemma_pack_from_keeps(
    fmt: Seq<u8>,
    i: nat,
    rep: u64,
    vals: Seq<Value>,
    k: nat,
    data: Seq<u8>,
    pos: nat,
    big: bool,
)
    requires
        pos <= u64::MAX,
    ensures
        keeps_below(pack_from(fmt, i, rep, vals, k, data, pos, big).0, data, pos as int),
    decreases fmt.len() - i,
{
    if i >= fmt.len() {
    } else if is_digit(fmt[i as int]) {
        lemma_pack_from_keeps(fmt, i + 1, next_repeat(rep, fmt[i as int]), vals, k, data, pos, big);
    } else if code_width(fmt[i as int]) == 0 {
    } else if fmt[i as int] == PAD {
        let p2 = sat_add(pos as int, run_count(rep) as int) as nat;
        lemma_pack_from_keeps(fmt, i + 1, 0, vals, k, data, p2, big);
        let fin = pack_from(fmt, i + 1, 0, vals, k, data, p2, big).0;
        assert forall|j: int| 0 <= j < pos && j < data.len() implies #[trigger] fin[j] == data[j] by {
            assert(j < p2);
        }
    } else {
        let c = fmt[i as int];
        let (d2, p2, k2, stopped) = pack_run(c, run_count(rep), vals, k, data, pos, big);
        lemma_pack_run_keeps(c, run_count(rep), vals, k, data, pos, big);
        if !stopped {
            lemma_pack_from_keeps(fmt, i + 1, 0, vals, k2, d2, p2, big);
            let fin = pack_from(fmt, i + 1, 0, vals, k2, d2, p2, big).0;
            assert forall|j: int| 0 <= j < pos && j < data.len() implies #[trigger] fin[j] == data[j] by {
                assert(j < p2);
                assert(fin[j] == d2[j]);
            }
        }
    }
}

proof fn lemma_run_shape(c: u8, n: nat, vals: Seq<Value>, k: nat, data: Seq<u8>, pos: nat, big: bool)
    requires
        code_width(c) > 0,
        k + n <= vals.len(),
        pos + n * code_width(c) <= usize::MAX,
    ensures
        pack_run(c, n, vals, k, data, pos, big).1 == pos + n * code_width(c),
        pack_run(c, n, vals, k, data, pos, big).2 == k + n,
        !pack_run(c, n, vals, k, data, pos, big).3,
    decreases n,
{
    let w = code_width(c);
    if n > 0 {
        assert(n * w == (n - 1) * w + w) by (nonlinear_arith);
        assert((n - 1) * w >= 0) by (nonlinear_arith)
            requires
                n >= 1,
        ;
        let d1 = overwrite(data, pos as int, encode_uint(spec_bits_of(vals[k as int]), w, big));
        lemma_run_shape(c, (n - 1) as nat, vals, k + 1, d1, pos + w, big);
    }
}

proof fn lemma_run_round_trip(
    c: u8,
    n: nat,
    vals: Seq<Value>,
    k: nat,
    data: Seq<u8>,
    pos: nat,
    big: bool,
    fin: Seq<u8>,
    acc: Seq<Value>,
)
    requires
        code_width(c) > 0,
        c != PAD,
        k + n <= vals.len(),
        forall|j: int| 0 <= j < n ==> value_matches(c, #[trigger] vals[k + j]),
        pos + n * code_width(c) <= usize::MAX,
        fin.len() >= pos + n * code_width(c),
        forall|j: int|
            pos <= j < pos + n * code_width(c) ==> #[trigger] fin[j] == pack_run(
                c,
                n,
                vals,
                k,
                data,
                pos,
                big,
            ).0[j],
    ensures
        pack_run(c, n, vals, k, data, pos, big).1 == pos + n * code_width(c),
        pack_run(c, n, vals, k, data, pos, big).2 == k + n,
        !pack_run(c, n, vals, k, data, pos, big).3,
        n > 0 ==> pack_run(c, n, vals, k, data, pos, big).0.len() >= pos + n * code_width(c),
        unpack_run(c, n, fin, pos, big, acc) == (
            acc + vals.subrange(k as int, (k + n) as int),
            pos + n * code_width(c),
            false,
        ),
    decreases n,
{
    let w = code_width(c);
    if n == 0 {
        assert(acc + vals.subrange(k as int, k as int) =~= acc);
    } else {
        assert(n * w == (n - 1) * w + w) by (nonlinear_arith);
        assert((n - 1) * w >= 0) by (nonlinear_arith)
            requires
                n >= 1,
        ;
        let v = vals[k as int];
        assert(value_matches(c, vals[(k + 0) as int]));
        let bytes = encode_uint(spec_bits_of(v), w, big);
        let d1 = overwrite(data, pos as int, bytes);
        let (dfin, pfin, kfin, st) = pack_run(c, (n - 1) as nat, vals, k + 1, d1, pos + w, big);
        lemma_pack_run_keeps(c, (n - 1) as nat, vals, k + 1, d1, pos + w, big);
        assert forall|j: int| 0 <= j < n - 1 implies value_matches(c, #[trigger] vals[(k + 1) + j]) by {
            assert(vals[(k + 1) + j] == vals[k + (j + 1)]);
        }
        lemma_run_round_trip(c, (n - 1) as nat, vals, k + 1, d1, pos + w, big, fin, acc.push(v));
        assert(fin.subrange(pos as int, (pos + w) as int) =~= bytes) by {
            assert forall|j: int| 0 <= j < w implies fin[pos + j] == bytes[j] by {
                assert(fin[pos + j] == dfin[pos + j]);
                assert(dfin[pos + j] == d1[pos + j]);
            }
        }
        lemma_decode_encode(spec_bits_of(v), w, big);
        lemma_value_round_trip(c, v);
        assert(acc.push(v) + vals.subrange((k + 1) as int, (k + 1 + (n - 1)) as int) =~= acc + vals.subrange(
            k as int,
            (k + n) as int,
        ));
    }
}

proof fn lemma_from_round_trip(
    fmt: Seq<u8>,
    i: nat,
    rep: u64,
    vals: Seq<Value>,
    k: nat,
    data: Seq<u8>,
    pos: nat,
    big: bool,
    acc: Seq<Value>,
)
    requires
        values_fit(fmt, i, rep, vals, k),
        pos + format_width(fmt, i, rep) <= usize::MAX,
    ensures
        pack_from(fmt, i, rep, vals, k, data, pos, big).1 == pos + format_width(fmt, i, rep),
        unpack_from(fmt, i, rep, pack_from(fmt, i, rep, vals, k, data, pos, big).0, pos, big, acc)
            == (acc + vals.subrange(k as int, vals.len() as int), pos + format_width(fmt, i, rep)),
    decreases fmt.len() - i,
{
    let fin = pack_from(fmt, i, rep, vals, k, data, pos, big).0;
    if i >= fmt.len() || (!is_digit(fmt[i as int]) && code_width(fmt[i as int]) == 0) {
        assert(acc + vals.subrange(k as int, vals.len() as int) =~= acc);
    } else if is_digit(fmt[i as int]) {
        lemma_from_round_trip(fmt, i + 1, next_repeat(rep, fmt[i as int]), vals, k, data, pos, big, acc);
    } else if fmt[i as int] == PAD {
        let n = run_count(rep);
        assert(n * 1 == n) by (nonlinear_arith);
        lemma_from_round_trip(fmt, i + 1, 0, vals, k, data, pos + n, big, acc);
    } else {
        let c = fmt[i as int];
        let n = run_count(rep);
        let w = code_width(c);
        let (d2, p2, k2, st) = pack_run(c, n, vals, k, data, pos, big);
        lemma_pack_run_keeps(c, n, vals, k, data, pos, big);
        assert(n * w >= 1) by (nonlinear_arith)
            requires
                n >= 1,
                w >= 1,
        ;
        lemma_run_shape(c, n, vals, k, data, pos, big);
        lemma_pack_from_keeps(fmt, i + 1, 0, vals, k2, d2, p2, big);
        lemma_run_round_trip(c, n, vals, k, data, pos, big, fin, acc);
        let acc2 = acc + vals.subrange(k as int, (k + n) as int);
        lemma_from_round_trip(fmt, i + 1, 0, vals, k + n, d2, p2, big, acc2);
        assert(acc2 + vals.subrange((k + n) as int, vals.len() as int) =~= acc + vals.subrange(
            k as int,
            vals.len() as int,
        ));
    }
}

/// Packing values with a format and unpacking the written bytes with the
/// same format, from the same position and in the same default byte order,
/// gives back the values; both end at the start plus the layout's width.
pub proof fn lemma_pack_then_unpack(
    fmt: Seq<u8>,
    vals: Seq<Value>,
    data: Seq<u8>,
    pos: nat,
    big: bool,
)
    requires
        values_fit(fmt, format_order(fmt, big).0, 0, vals, 0),
        pos + format_width(fmt, format_order(fmt, big).0, 0) <= usize::MAX,
    ensures
        spec_pack(fmt, vals, data, pos, big).1 == pos + format_width(fmt, format_order(fmt, big).0, 0),
        spec_unpack(fmt, spec_pack(fmt, vals, data, pos, big).0, pos, big) == (
            vals,
            pos + format_width(fmt, format_order(fmt, big).0, 0),
        ),
{
    let (start, b) = format_order(fmt, big);
    lemma_from_round_trip(fmt, start, 0, vals, 0, data, pos, b, Seq::empty());
    assert(Seq::<Value>::empty() + vals.subrange(0, vals.len() as int) =~= vals);
}

} // verus!

verus! {

/// Reading more values than the data holds stops at the last whole value:
/// the position never passes the end and only whole values are returned.
pub proof fn lemma_unpack_run_stops_short(
    c: u8,
    count: nat,
    data: Seq<u8>,
    pos: nat,
    big: bool,
    acc: Seq<Value>,
)
    requires
        code_width(c) > 0,
        pos <= data.len(),
        pos + count * code_width(c) > data.len(),
    ensures
        unpack_run(c, count, data, pos, big, acc).2,
        unpack_run(c, count, data, pos, big, acc).1 <= data.len(),
        unpack_run(c, count, data, pos, big, acc).0.len() == acc.len() + (data.len() - pos) / (
        code_width(c) as int),
    decreases count,
{
    let w = code_width(c);
    assert(count > 0) by {
        if count == 0 {
            assert(count * w == 0) by (nonlinear_arith)
                requires
                    count == 0,
            ;
        }
    }
    if pos + w > data.len() {
        assert((data.len() - pos) / (w as int) == 0) by (nonlinear_arith)
            requires
                0 <= data.len() - pos < w,
        ;
    } else {
        let u = decode_uint(data.subrange(pos as int, (pos + w) as int), big);
        assert((count - 1) * w + w == count * w) by (nonlinear_arith);
        lemma_unpack_run_stops_short(c, (count - 1) as nat, data, pos + w, big, acc.push(spec_value_of(c, u)));
        assert((data.len() - pos) / (w as int) == (data.len() - (pos + w)) / (w as int) + 1) by (nonlinear_arith)
            requires
                w > 0,
                data.len() - pos >= w,
        ;
    }
}

} // verus!

verus! {

/// The byte at `pos`, or 0 past the end.
pub open spec fn byte_at(data: Seq<u8>, pos: nat) -> u8 {
    if pos < data.len() {
        data[pos as int]
    } else {
        0
    }
}

/// Reading a NUL-terminated string of at most `left` more bytes from `pos`
/// after `acc`: the bytes, and the position past the last byte read (the
/// NUL included). Past the end bytes read as 0.
pub open spec fn scan_bytes(data: Seq<u8>, pos: nat, left: nat, acc: Seq<u8>) -> (Seq<u8>, nat)
    decreases left,
{
    if left == 0 {
        (acc, pos)
    } else {
        let b = byte_at(data, pos);
        let next = sat_add(pos as int, 1) as nat;
        if b == 0 {
            (acc, next)
        } else {
            scan_bytes(data, next, (left - 1) as nat, acc.push(b))
        }
    }
}

/// The 16-bit unit at `pos` in the given order, zero-filled past the end.
pub open spec fn unit_at(data: Seq<u8>, pos: nat, big: bool) -> u16 {
    decode_uint(zero_pad(window(data, pos as int, 2), 2), big) as u16
}

/// Reading a string of at most `left` more 16-bit units, ending at a zero
/// unit, as `scan_bytes` does for bytes.
pub open spec fn scan_units(data: Seq<u8>, pos: nat, left: nat, big: bool, acc: Seq<u16>) -> (Seq<u16>, nat)
    decreases left,
{
    if left == 0 {
        (acc, pos)
    } else {
        let u = unit_at(data, pos, big);
        let next = sat_add(pos as int, 2) as nat;
        if u == 0 {
            (acc, next)
        } else {
            scan_units(data, next, (left - 1) as nat, big, acc.push(u))
        }
    }
}

/// How many units a string read may take: `amount`, or, with none, enough
/// to reach a zero past the end of the data.
pub open spec fn string_limit(data: Seq<u8>, pos: nat, amount: Option<u64>) -> nat {
    match amount {
        Some(n) => n as nat,
        None => if pos >= data.len() {
            1
        } else if data.len() - pos + 1 > u64::MAX {
            u64::MAX as nat
        } else {
            (data.len() - pos + 1) as nat
        },
    }
}

/// The characters that lossy UTF-8 decoding gives for `b`.
pub uninterp spec fn utf8_lossy(b: Seq<u8>) -> Seq<char>;

/// The characters that lossy UTF-16 decoding gives for `u`.
pub uninterp spec fn utf16_lossy(u: Seq<u16>) -> Seq<char>;

/// The UTF-16 code units of `s`.
pub uninterp spec fn utf16_units(s: Seq<char>) -> Seq<u16>;

/// Relies on `String::from_utf8_lossy`: the text depends on the bytes alone,
/// and no bytes give no text.
#[verifier::external_body]
fn text_from_utf8(b: &[u8]) -> (r: String)
    ensures
        r@ == utf8_lossy(b@),
        b@.len() == 0 ==> r@.len() == 0,
{
    String::from_utf8_lossy(b).into_owned()
}

/// Relies on `String::from_utf16_lossy`: the text depends on the units
/// alone, and no units give no text.
#[verifier::external_body]
fn text_from_utf16(u: &[u16]) -> (r: String)
    ensures
        r@ == utf16_lossy(u@),
        u@.len() == 0 ==> r@.len() == 0,
{
    String::from_utf16_lossy(u)
}

/// Relies on `str::encode_utf16`: the units depend on the text alone, and
/// no text gives no units.
#[verifier::external_body]
fn units_of(s: &str) -> (r: Vec<u16>)
    ensures
        r@ == utf16_units(s@),
        s@.len() == 0 ==> r@.len() == 0,
{
    s.encode_utf16().collect()
}

proof fn lemma_byte_read(data: Seq<u8>, pos: nat)
    ensures
        decode_uint(zero_pad(window(data, pos as int, 1), 1), false) as u8 == byte_at(data, pos),
{
    let s = zero_pad(window(data, pos as int, 1), 1);
    let x = s[0];
    assert((x as u64) as u8 == x) by (bit_vector);
}

impl<S: ByteSource> Cursor<S> {
    /// The bytes of a NUL-terminated string of at most `amount` bytes (any
    /// length with `None`), moving past what was read.
    pub fn read_cstr_bytes(&mut self, amount: Option<u64>) -> (r: Vec<u8>)
        ensures
            (r@, final(self).spec_position() as nat) == scan_bytes(
                old(self).spec_bytes(),
                old(self).spec_position() as nat,
                string_limit(old(self).spec_bytes(), old(self).spec_position() as nat, amount),
                Seq::empty(),
            ),
            final(self).spec_big_endian() == old(self).spec_big_endian(),
            final(self).spec_bytes() == old(self).spec_bytes(),
    {
        let ghost data = self.spec_bytes();
        let len = self.source.len();
        let mut left: u64 = match amount {
            Some(n) => n,
            None => if self.position >= len {
                1
            } else if len - self.position == u64::MAX {
                u64::MAX
            } else {
                len - self.position + 1
            },
        };
        let ghost total = scan_bytes(data, self.position as nat, left as nat, Seq::empty());
        assert(left as nat == string_limit(data, self.position as nat, amount));
        let mut out: Vec<u8> = Vec::new();
        while left > 0
            invariant
                data == self.spec_bytes(),
                data == old(self).spec_bytes(),
                self.big_endian == old(self).big_endian,
                scan_bytes(data, self.position as nat, left as nat, out@) == total,
                total == scan_bytes(
                    old(self).spec_bytes(),
                    old(self).spec_position() as nat,
                    string_limit(old(self).spec_bytes(), old(self).spec_position() as nat, amount),
                    Seq::empty(),
                ),
            decreases left,
        {
            let ghost p0 = self.position;
            let b = self.read_u8();
            proof {
                lemma_byte_read(data, p0 as nat);
            }
            if b == 0 {
                return out;
            }
            out.push(b);
            left = left - 1;
        }
        out
    }
}

} // verus!

verus! {

/// The bytes of `units`, each in the given order.
pub open spec fn units_bytes(units: Seq<u16>, big: bool) -> Seq<u8>
    decreases units.len(),
{
    if units.len() == 0 {
        Seq::empty()
    } else {
        units_bytes(units.drop_last(), big) + encode_uint(units.last() as u64, 2, big)
    }
}

impl<S: ByteSource> Cursor<S> {
    /// The units of a string ending at a zero unit, of at most `amount`
    /// units (any length with `None`), moving past what was read.
    pub fn read_utf16_units(&mut self, amount: Option<u64>) -> (r: Vec<u16>)
        ensures
            (r@, final(self).spec_position() as nat) == scan_units(
                old(self).spec_bytes(),
                old(self).spec_position() as nat,
                string_limit(old(self).spec_bytes(), old(self).spec_position() as nat, amount),
                old(self).spec_big_endian(),
                Seq::empty(),
            ),
            final(self).spec_big_endian() == old(self).spec_big_endian(),
            final(self).spec_bytes() == old(self).spec_bytes(),
    {
        let ghost data = self.spec_bytes();
        let big = self.big_endian;
        let len = self.source.len();
        let mut left: u64 = match amount {
            Some(n) => n,
            None => if self.position >= len {
                1
            } else if len - self.position == u64::MAX {
                u64::MAX
            } else {
                len - self.position + 1
            },
        };
        let ghost total = scan_units(data, self.position as nat, left as nat, big, Seq::empty());
        let mut out: Vec<u16> = Vec::new();
        while left > 0
            invariant
                data == self.spec_bytes(),
                data == old(self).spec_bytes(),
                big == self.big_endian,
                self.big_endian == old(self).big_endian,
                scan_units(data, self.position as nat, left as nat, big, out@) == total,
                total == scan_units(
                    old(self).spec_bytes(),
                    old(self).spec_position() as nat,
                    string_limit(old(self).spec_bytes(), old(self).spec_position() as nat, amount),
                    old(self).spec_big_endian(),
                    Seq::empty(),
                ),
            decreases left,
        {
            let u = self.read_u16();
            if u == 0 {
                return out;
            }
            out.push(u);
            left = left - 1;
        }
        out
    }

    /// Reads a NUL-terminated ASCII string of at most `amount` bytes (any
    /// length with `None`) and moves past it.
    pub fn read_string_ascii(&mut self, amount: Option<u64>) -> (r: String)
        ensures
            r@ == utf8_lossy(
                scan_bytes(
                    old(self).spec_bytes(),
                    old(self).spec_position() as nat,
                    string_limit(old(self).spec_bytes(), old(self).spec_position() as nat, amount),
                    Seq::empty(),
                ).0,
            ),
            final(self).spec_position() as nat == scan_bytes(
                old(self).spec_bytes(),
                old(self).spec_position() as nat,
                string_limit(old(self).spec_bytes(), old(self).spec_position() as nat, amount),
                Seq::empty(),
            ).1,
            final(self).spec_big_endian() == old(self).spec_big_endian(),
            final(self).spec_bytes() == old(self).spec_bytes(),
    {
        let b = self.read_cstr_bytes(amount);
        text_from_utf8(b.as_slice())
    }

    /// Reads a NUL-terminated UTF-8 string of at most `amount` bytes (any
    /// length with `None`) and moves past it; invalid sequences become
    /// replacement characters.
    pub fn read_string_utf8(&mut self, amount: Option<u64>) -> (r: String)
        ensures
            r@ == utf8_lossy(
                scan_bytes(
                    old(self).spec_bytes(),
                    old(self).spec_position() as nat,
                    string_limit(old(self).spec_bytes(), old(self).spec_position() as nat, amount),
                    Seq::empty(),
                ).0,
            ),
            final(self).spec_position() as nat == scan_bytes(
                old(self).spec_bytes(),
                old(self).spec_position() as nat,
                string_limit(old(self).spec_bytes(), old(self).spec_position() as nat, amount),
                Seq::empty(),
            ).1,
            final(self).spec_big_endian() == old(self).spec_big_endian(),
            final(self).spec_bytes() == old(self).spec_bytes(),
    {
        let b = self.read_cstr_bytes(amount);
        text_from_utf8(b.as_slice())
    }

    /// Reads a UTF-16 string, in the current order, ending at a zero unit,
    /// of at most `amount` units (any length with `None`), and moves past it.
    pub fn read_string_utf16(&mut self, amount: Option<u64>) -> (r: String)
        ensures
            r@ == utf16_lossy(
                scan_units(
                    old(self).spec_bytes(),
                    old(self).spec_position() as nat,
                    string_limit(old(self).spec_bytes(), old(self).spec_position() as nat, amount),
                    old(self).spec_big_endian(),
                    Seq::empty(),
                ).0,
            ),
            final(self).spec_position() as nat == scan_units(
                old(self).spec_bytes(),
                old(self).spec_position() as nat,
                string_limit(old(self).spec_bytes(), old(self).spec_position() as nat, amount),
                old(self).spec_big_endian(),
                Seq::empty(),
            ).1,
            final(self).spec_big_endian() == old(self).spec_big_endian(),
            final(self).spec_bytes() == old(self).spec_bytes(),
    {
        let u = self.read_utf16_units(amount);
        text_from_utf16(u.as_slice())
    }

    /// Reads an ASCII string as `read_string_ascii` does, without moving.
    pub fn peek_string_ascii(&mut self, amount: Option<u64>) -> (r: String)
        ensures
            r@ == utf8_lossy(
                scan_bytes(
                    old(self).spec_bytes(),
                    old(self).spec_position() as nat,
                    string_limit(old(self).spec_bytes(), old(self).spec_position() as nat, amount),
                    Seq::empty(),
                ).0,
            ),
            final(self).spec_position() == old(self).spec_position(),
            final(self).spec_big_endian() == old(self).spec_big_endian(),
            final(self).spec_bytes() == old(self).spec_bytes(),
    {
        let saved = self.position;
        let s = self.read_string_ascii(amount);
        self.position = saved;
        s
    }

    /// Reads a 16-bit unsigned integer in the current order without moving.
    pub fn peek_u16(&mut self) -> (r: u16)
        ensures
            r == decode_uint(
                zero_pad(window(old(self).spec_bytes(), old(self).spec_position() as int, 2), 2),
                old(self).spec_big_endian(),
            ) as u16,
            final(self).spec_position() == old(self).spec_position(),
            final(self).spec_big_endian() == old(self).spec_big_endian(),
            final(self).spec_bytes() == old(self).spec_bytes(),
    {
        self.read_uint(2, false) as u16
    }

    /// Reads a 32-bit unsigned integer in the current order without moving.
    pub fn peek_u32(&mut self) -> (r: u32)
        ensures
            r == decode_uint(
                zero_pad(window(old(self).spec_bytes(), old(self).spec_position() as int, 4), 4),
                old(self).spec_big_endian(),
            ) as u32,
            final(self).spec_position() == old(self).spec_position(),
            final(self).spec_big_endian() == old(self).spec_big_endian(),
            final(self).spec_bytes() == old(self).spec_bytes(),
    {
        self.read_uint(4, false) as u32
    }

    /// Reads a 64-bit unsigned integer in the current order without moving.
    pub fn peek_u64(&mut self) -> (r: u64)
        ensures
            r == decode_uint(
                zero_pad(window(old(self).spec_bytes(), old(self).spec_position() as int, 8), 8),
                old(self).spec_big_endian(),
            ),
            final(self).spec_position() == old(self).spec_position(),
            final(self).spec_big_endian() == old(self).spec_big_endian(),
            final(self).spec_bytes() == old(self).spec_bytes(),
    {
        self.read_uint(8, false)
    }

    /// Reads a UTF-8 string as `read_string_utf8` does, without moving.
    pub fn peek_string_utf8(&mut self, amount: Option<u64>) -> (r: String)
        ensures
            r@ == utf8_lossy(
                scan_bytes(
                    old(self).spec_bytes(),
                    old(self).spec_position() as nat,
                    string_limit(old(self).spec_bytes(), old(self).spec_position() as nat, amount),
                    Seq::empty(),
                ).0,
            ),
            final(self).spec_position() == old(self).spec_position(),
            final(self).spec_big_endian() == old(self).spec_big_endian(),
            final(self).spec_bytes() == old(self).spec_bytes(),
    {
        let saved = self.position;
        let s = self.read_string_utf8(amount);
        self.position = saved;
        s
    }

    /// Reads a UTF-16 string as `read_string_utf16` does, without moving.
    pub fn peek_string_utf16(&mut self, amount: Option<u64>) -> (r: String)
        ensures
            r@ == utf16_lossy(
                scan_units(
                    old(self).spec_bytes(),
                    old(self).spec_position() as nat,
                    string_limit(old(self).spec_bytes(), old(self).spec_position() as nat, amount),
                    old(self).spec_big_endian(),
                    Seq::empty(),
                ).0,
            ),
            final(self).spec_position() == old(self).spec_position(),
            final(self).spec_big_endian() == old(self).spec_big_endian(),
            final(self).spec_bytes() == old(self).spec_bytes(),
    {
        let saved = self.position;
        let s = self.read_string_utf16(amount);
        self.position = saved;
        s
    }

    /// Writes `bytes` and moves past them.
    pub fn store_bytes(&mut self, bytes: &[u8]) -> (r: Result<(), SourceError>)
        ensures
            r is Ok <==> old(self).spec_accepts(old(self).spec_position() as int, bytes@.len() as int),
            final(self).spec_bytes() == (if r is Ok {
                overwrite(old(self).spec_bytes(), old(self).spec_position() as int, bytes@)
            } else {
                old(self).spec_bytes()
            }),
            final(self).spec_position() as int == sat_add(old(self).spec_position() as int, bytes@.len() as int),
            final(self).spec_big_endian() == old(self).spec_big_endian(),
    {
        let r = self.source.write_range(self.position, bytes);
        self.position = sat_add_exec(self.position, bytes.len() as u64);
        r
    }

    /// Writes the bytes of `s`, then a NUL when `escape` is set, and moves
    /// past them.
    pub fn store_string_utf8(&mut self, s: &str, escape: bool) -> (r: Result<(), SourceError>)
        ensures
            r is Ok <==> old(self).spec_accepts(
                old(self).spec_position() as int,
                s.spec_bytes().len() + if escape { 1int } else { 0int },
            ),
            final(self).spec_bytes() == (if r is Ok {
                overwrite(
                    old(self).spec_bytes(),
                    old(self).spec_position() as int,
                    if escape { s.spec_bytes().push(0) } else { s.spec_bytes() },
                )
            } else {
                old(self).spec_bytes()
            }),
            final(self).spec_position() as int == sat_add(
                old(self).spec_position() as int,
                s.spec_bytes().len() + if escape { 1int } else { 0int },
            ),
            final(self).spec_big_endian() == old(self).spec_big_endian(),
    {
        let mut b = vstd::slice::slice_to_vec(s.as_bytes());
        if escape {
            b.push(0);
        }
        self.store_bytes(b.as_slice())
    }

    /// Writes `s` as ASCII, as `store_string_utf8` does: its bytes exactly.
    pub fn store_string_ascii(&mut self, s: &str, escape: bool) -> (r: Result<(), SourceError>)
        ensures
            r is Ok <==> old(self).spec_accepts(
                old(self).spec_position() as int,
                s.spec_bytes().len() + if escape { 1int } else { 0int },
            ),
            final(self).spec_bytes() == (if r is Ok {
                overwrite(
                    old(self).spec_bytes(),
                    old(self).spec_position() as int,
                    if escape { s.spec_bytes().push(0) } else { s.spec_bytes() },
                )
            } else {
                old(self).spec_bytes()
            }),
            final(self).spec_position() as int == sat_add(
                old(self).spec_position() as int,
                s.spec_bytes().len() + if escape { 1int } else { 0int },
            ),
            final(self).spec_big_endian() == old(self).spec_big_endian(),
    {
        self.store_string_utf8(s, escape)
    }

    /// Writes `s` as UTF-16 units in the current order, then a zero unit
    /// when `escape` is set, and moves past them.
    pub fn store_string_utf16(&mut self, s: &str, escape: bool) -> (r: Result<(), SourceError>)
        ensures
            ({
                let units = if escape { utf16_units(s@).push(0) } else { utf16_units(s@) };
                let bytes = units_bytes(units, old(self).spec_big_endian());
                &&& r is Ok <==> old(self).spec_accepts(old(self).spec_position() as int, bytes.len() as int)
                &&& final(self).spec_bytes() == (if r is Ok {
                    overwrite(old(self).spec_bytes(), old(self).spec_position() as int, bytes)
                } else {
                    old(self).spec_bytes()
                })
                &&& final(self).spec_position() as int == sat_add(old(self).spec_position() as int, bytes.len() as int)
            }),
            final(self).spec_big_endian() == old(self).spec_big_endian(),
    {
        let mut units = units_of(s);
        if escape {
            units.push(0);
        }
        let big = self.big_endian;
        let mut b: Vec<u8> = Vec::new();
        let mut i: usize = 0;
        while i < units.len()
            invariant
                i <= units@.len(),
                b@ == units_bytes(units@.subrange(0, i as int), big),
            decreases units@.len() - i,
        {
            let e = encode_bytes(units[i] as u64, 2, big);
            proof {
                assert(units@.subrange(0, i + 1).drop_last() =~= units@.subrange(0, i as int));
            }
            let mut j: usize = 0;
            let ghost before = b@;
            while j < e.len()
                invariant
                    j <= e@.len(),
                    b@ == before + e@.subrange(0, j as int),
                decreases e@.len() - j,
            {
                b.push(e[j]);
                j = j + 1;
                proof {
                    assert(b@ =~= before + e@.subrange(0, j as int));
                }
            }
            proof {
                assert(e@.subrange(0, e@.len() as int) =~= e@);
            }
            i = i + 1;
        }
        proof {
            assert(units@.subrange(0, units@.len() as int) =~= units@);
        }
        self.store_bytes(b.as_slice())
    }
}

} // verus!
