//! WBFS disc backups: a sparse, block-remapped image of an encrypted disc.
//!
//! Reading goes through layers: the container header and its remap table
//! (WLBA) turn disc addresses into container addresses; the partition
//! table and ticket give the title key, unwrapped with the common key; each
//! 0x8000-byte cluster of the partition's data is decrypted with AES-128-CBC
//! under that key and the IV stored in the cluster's hash block; the file
//! system table (FST) then names the files in the decrypted data.
use crate::bytes::{be32, be32_at, copy_bytes, has_prefix, has_prefix_exec};
use crate::bytesource::{window, ByteSource, MemoryByteSource};
use cbc::cipher::{BlockDecryptMut, KeyIvInit};
use vstd::prelude::*;
use vstd::string::StringSliceAdditionalSpecFns;

verus! {

/// Why a WBFS image could not be opened or read.
#[derive(Debug, Clone, Copy, PartialEq, Eq, Structural)]
pub enum WbfsError {
    /// The source holds fewer than 0x200 bytes.
    TooSmall,
    /// The magic tag `WBFS` is missing.
    BadMagic,
    /// The container's sector size is below 0x8000 bytes.
    SectorTooSmall,
    /// A sector-size shift is too large to be meaningful.
    BadShift,
    /// The common key is not 32 hex digits.
    BadCommonKey,
    /// A structure is cut short by the end of the source.
    Truncated,
    /// The file system table is malformed.
    BadFst,
}

/// The magic tag `WBFS`.
pub open spec fn wbfs_magic(h: Seq<u8>) -> bool {
    h.len() >= 4 && h[0] == 0x57 && h[1] == 0x42 && h[2] == 0x46 && h[3] == 0x53
}

/// Number of 0x8000-byte sectors on a disc.
pub const DISC_SECTORS: u64 = 0x46090;

/// Size of a decrypted cluster's data.
pub const CLUSTER_DATA: u64 = 0x7c00;

/// Size of a cluster on disc: hash block plus encrypted data.
pub const CLUSTER_SIZE: u64 = 0x8000;

/// `2^n`.
pub open spec fn pow2(n: nat) -> nat
    decreases n,
{
    if n == 0 {
        1
    } else {
        2 * pow2((n - 1) as nat)
    }
}

fn pow2_exec(n: u8) -> (r: u64)
    requires
        n <= 31,
    ensures
        r as nat == pow2(n as nat),
        r <= 0x8000_0000,
{
    let mut r: u64 = 1;
    let mut i: u8 = 0;
    while i < n
        invariant
            i <= n <= 31,
            r as nat == pow2(i as nat),
        decreases n - i,
    {
        proof {
            lemma_pow2_bound(i as nat);
            lemma_pow2_monotone(i as nat, 30);
            lemma_pow2_31();
        }
        r = r * 2;
        i = i + 1;
    }
    proof {
        lemma_pow2_bound(n as nat);
    }
    r
}

proof fn lemma_pow2_bound(n: nat)
    requires
        n <= 31,
    ensures
        pow2(n) <= 0x8000_0000,
        pow2(n) >= 1,
{
    lemma_pow2_monotone(n, 31);
    lemma_pow2_31();
    lemma_pow2_pos(n);
}

proof fn lemma_pow2_31()
    ensures
        pow2(31) == 0x8000_0000,
        pow2(30) == 0x4000_0000,
{
    reveal_with_fuel(pow2, 32);
}

proof fn lemma_pow2_monotone(a: nat, b: nat)
    requires
        a <= b,
    ensures
        pow2(a) <= pow2(b),
    decreases b,
{
    if b > a {
        lemma_pow2_monotone(a, (b - 1) as nat);
        assert(pow2((b - 1) as nat) >= 1) by {
            lemma_pow2_pos((b - 1) as nat);
        }
    }
}

proof fn lemma_pow2_pos(n: nat)
    ensures
        pow2(n) >= 1,
    decreases n,
{
    if n > 0 {
        lemma_pow2_pos((n - 1) as nat);
    }
}

/// The container header: sector sizes as powers of two.
pub struct WbfsHeader {
    /// Shift of the host sector size; the disc header follows one host sector.
    pub hd_sector_shift: u8,
    /// Shift of the container's sector size.
    pub wbfs_sector_shift: u8,
}

/// The header that the first bytes `h` of a source give, or why they give none.
pub open spec fn spec_header(h: Seq<u8>) -> Result<(u8, u8), WbfsError> {
    if h.len() < 0x200 {
        Err(WbfsError::TooSmall)
    } else if !wbfs_magic(h) {
        Err(WbfsError::BadMagic)
    } else if h[9] < 15 {
        Err(WbfsError::SectorTooSmall)
    } else if h[8] > 31 || h[9] > 31 {
        Err(WbfsError::BadShift)
    } else {
        Ok((h[8], h[9]))
    }
}

/// Reads the container header from the first bytes of a source.
pub fn parse_header(h: &[u8]) -> (r: Result<WbfsHeader, WbfsError>)
    ensures
        match r {
            Ok(hd) => spec_header(h@) == Ok::<(u8, u8), WbfsError>(
                (hd.hd_sector_shift, hd.wbfs_sector_shift),
            ),
            Err(e) => spec_header(h@) == Err::<(u8, u8), WbfsError>(e),
        },
{
    if h.len() < 0x200 {
        return Err(WbfsError::TooSmall);
    }
    if !(h[0] == 0x57 && h[1] == 0x42 && h[2] == 0x46 && h[3] == 0x53) {
        return Err(WbfsError::BadMagic);
    }
    if h[9] < 15 {
        return Err(WbfsError::SectorTooSmall);
    }
    if h[8] > 31 || h[9] > 31 {
        return Err(WbfsError::BadShift);
    }
    Ok(WbfsHeader { hd_sector_shift: h[8], wbfs_sector_shift: h[9] })
}

/// Number of remap entries: one per container sector that a disc spans.
pub open spec fn blocks_per_disc(wbfs_shift: nat) -> nat {
    let per = pow2((wbfs_shift - 15) as nat);
    ((DISC_SECTORS as int + per - 1) / (per as int)) as nat
}

/// Where disc address `addr` lies in the container, or `None` where its
/// block is sparse (or past the table).
pub open spec fn container_address(wlba: Seq<u16>, sector_size: nat, addr: nat) -> Option<nat> {
    let sector = addr / sector_size;
    if sector >= wlba.len() || wlba[sector as int] == 0 {
        None
    } else {
        Some(wlba[sector as int] as nat * sector_size + addr % sector_size)
    }
}

/// The `n` bytes at disc address `addr`: zeros for a sparse block, else
/// what the container holds from the mapped address on (short at its end).
pub open spec fn disc_read(src: Seq<u8>, wlba: Seq<u16>, sector_size: nat, addr: nat, n: nat) -> Seq<u8> {
    match container_address(wlba, sector_size, addr) {
        None => Seq::new(n, |i: int| 0u8),
        Some(a) => window(src, a as int, n as int),
    }
}

/// Big-endian 16-bit values of consecutive byte pairs.
pub open spec fn be16_table(b: Seq<u8>, n: nat) -> Seq<u16> {
    Seq::new(n, |i: int| (b[2 * i] as nat * 256 + b[2 * i + 1] as nat) as u16)
}

fn zeros(n: usize) -> (r: Vec<u8>)
    ensures
        r@ == Seq::new(n as nat, |i: int| 0u8),
{
    let mut v: Vec<u8> = Vec::new();
    while v.len() < n
        invariant
            v@.len() <= n,
            forall|i: int| 0 <= i < v@.len() ==> v@[i] == 0u8,
        decreases n - v@.len(),
    {
        v.push(0);
    }
    proof {
        assert(v@ =~= Seq::new(n as nat, |i: int| 0u8));
    }
    v
}

/// Reads `n` disc bytes at `addr` through the remap table.
fn read_disc<S: ByteSource>(src: &S, wlba: &Vec<u16>, sector_size: u64, addr: u64, n: usize) -> (r: Vec<u8>)
    requires
        sector_size > 0,
        sector_size <= 0x8000_0000,
    ensures
        r@ == disc_read(src.spec_bytes(), wlba@, sector_size as nat, addr as nat, n as nat),
{
    let sector = addr / sector_size;
    if sector >= wlba.len() as u64 || wlba[sector as usize] == 0 {
        return zeros(n);
    }
    let block = wlba[sector as usize] as u64;
    proof {
        assert(block * sector_size <= 0xffff * 0x8000_0000) by (nonlinear_arith)
            requires
                block <= 0xffff,
                sector_size <= 0x8000_0000,
        ;
    }
    src.read_range(block * sector_size + addr % sector_size, n)
}

} // verus!

verus! {

/// The plaintext that AES-128-CBC decryption, without padding, gives for
/// `data` under `key` and `iv`.
pub uninterp spec fn aes128_cbc_plain(key: Seq<u8>, iv: Seq<u8>, data: Seq<u8>) -> Seq<u8>;

/// Relies on `cbc::Decryptor<aes::Aes128>` with `NoPadding`: a 16-byte key
/// and IV are accepted, whole blocks decrypt in place, and the plaintext
/// has the ciphertext's length and depends on key, IV and ciphertext alone.
#[verifier::external_body]
fn cbc_decrypt(key: &[u8], iv: &[u8], data: &[u8]) -> (r: Vec<u8>)
    requires
        key@.len() == 16,
        iv@.len() == 16,
        data@.len() % 16 == 0,
    ensures
        r@ == aes128_cbc_plain(key@, iv@, data@),
        r@.len() == data@.len(),
{
    let mut buf = data.to_vec();
    if let Ok(dec) = cbc::Decryptor::<aes::Aes128>::new_from_slices(key, iv) {
        let _ = dec.decrypt_padded_mut::<cbc::cipher::block_padding::NoPadding>(&mut buf);
    }
    buf
}

/// Value of a hex digit (either case).
pub open spec fn hex_digit(c: u8) -> Option<u8> {
    if 0x30 <= c <= 0x39 {
        Some((c - 0x30) as u8)
    } else if 0x41 <= c <= 0x46 {
        Some((c - 0x41 + 10) as u8)
    } else if 0x61 <= c <= 0x66 {
        Some((c - 0x61 + 10) as u8)
    } else {
        None
    }
}

/// The bytes that a string of hex digit pairs spells, or `None` where its
/// length is odd or a character is no hex digit.
pub open spec fn hex_decoded(s: Seq<u8>) -> Option<Seq<u8>> {
    if s.len() % 2 != 0 || exists|i: int| 0 <= i < s.len() && (#[trigger] hex_digit(s[i])) is None {
        None
    } else {
        Some(
            Seq::new(
                (s.len() / 2) as nat,
                |i: int| (hex_digit(s[2 * i])->Some_0 * 16 + hex_digit(s[2 * i + 1])->Some_0) as u8,
            ),
        )
    }
}

/// Relies on `hex::decode`: an even number of hex digits, of either case,
/// decodes pair by pair, high digit first; anything else is an error.
#[verifier::external_body]
fn decode_hex(s: &str) -> (r: Option<Vec<u8>>)
    ensures
        match r {
            Some(v) => hex_decoded(s.spec_bytes()) == Some(v@),
            None => hex_decoded(s.spec_bytes()) is None,
        },
{
    hex::decode(s).ok()
}

/// Where the partition's encrypted data lies and how to decrypt it.
pub struct Layout {
    /// Host sector size; the disc header lies one host sector in.
    pub hd_sector_size: nat,
    /// Container sector size.
    pub sector_size: nat,
    /// Remap table: container sector of each disc block, 0 for sparse.
    pub wlba: Seq<u16>,
    /// Disc offset of the first partition.
    pub partition_offset: nat,
    /// Offset of the partition's data from the partition's start.
    pub data_offset: nat,
    /// Size of the partition's data.
    pub data_size: nat,
    /// The title key that decrypts the partition's clusters.
    pub title_key: Seq<u8>,
}

/// The layout of the image `src`, with `common` the common key, or why it
/// cannot be read.
pub open spec fn spec_layout(src: Seq<u8>, common: Seq<u8>) -> Result<Layout, WbfsError> {
    let h = window(src, 0, 0x200);
    match spec_header(h) {
        Err(e) => Err(e),
        Ok((hd_shift, wbfs_shift)) => {
            let hd_size = pow2(hd_shift as nat);
            let ss = pow2(wbfs_shift as nat);
            let n = blocks_per_disc(wbfs_shift as nat);
            let wl = window(src, (hd_size + 0x100) as int, (2 * n) as int);
            if wl.len() < 2 * n {
                Err(WbfsError::Truncated)
            } else {
                let wlba = be16_table(wl, n);
                let pt = disc_read(src, wlba, ss, 0x40000, 8);
                if pt.len() < 8 {
                    Err(WbfsError::Truncated)
                } else {
                    let pe = disc_read(src, wlba, ss, be32(pt, 4) * 4, 8);
                    if pe.len() < 8 {
                        Err(WbfsError::Truncated)
                    } else {
                        let part = be32(pe, 0) * 4;
                        let ticket = disc_read(src, wlba, ss, part, 0x2a4);
                        let info = disc_read(src, wlba, ss, part + 0x2b8, 8);
                        if ticket.len() < 0x2a4 || info.len() < 8 {
                            Err(WbfsError::Truncated)
                        } else if common.len() != 16 {
                            Err(WbfsError::BadCommonKey)
                        } else {
                            let enc = ticket.subrange(0x1bf, 0x1cf);
                            let iv = ticket.subrange(0x1dc, 0x1e4) + Seq::new(8, |i: int| 0u8);
                            Ok(
                                Layout {
                                    hd_sector_size: hd_size,
                                    sector_size: ss,
                                    wlba,
                                    partition_offset: part,
                                    data_offset: be32(info, 0) * 4,
                                    data_size: be32(info, 4) * 4,
                                    title_key: aes128_cbc_plain(common, iv, enc),
                                },
                            )
                        }
                    }
                }
            }
        },
    }
}

/// The plaintext of cluster `c` of the partition's data, or `None` where
/// the image ends inside it (or it lies past the 64-bit address space).
pub open spec fn cluster_plain(src: Seq<u8>, l: Layout, c: nat) -> Option<Seq<u8>> {
    let base: nat = l.partition_offset + l.data_offset + c * (CLUSTER_SIZE as nat);
    let iv = disc_read(src, l.wlba, l.sector_size, (base + 0x3d0) as nat, 16);
    let enc = disc_read(src, l.wlba, l.sector_size, (base + 0x400) as nat, CLUSTER_DATA as nat);
    let plain = aes128_cbc_plain(l.title_key, iv, enc);
    if base + CLUSTER_SIZE > u64::MAX || iv.len() != 16 || enc.len() != CLUSTER_DATA || plain.len()
        != CLUSTER_DATA {
        None
    } else {
        Some(plain)
    }
}

/// `size` bytes of the partition's decrypted data from `offset`, or `None`
/// where a cluster they touch cannot be read.
pub open spec fn plain_range(src: Seq<u8>, l: Layout, offset: nat, size: nat) -> Option<Seq<u8>>
    decreases size,
{
    if size == 0 {
        Some(Seq::empty())
    } else {
        let c = offset / (CLUSTER_DATA as nat);
        let within = offset % (CLUSTER_DATA as nat);
        let room = (CLUSTER_DATA - within) as nat;
        let take: nat = if size < room { size } else { room };
        match cluster_plain(src, l, c) {
            None => None,
            Some(p) => match plain_range(src, l, offset + take, (size - take) as nat) {
                None => None,
                Some(rest) => Some(p.subrange(within as int, (within + take) as int) + rest),
            },
        }
    }
}

} // verus!

verus! {

/// The common key that a hex string gives; empty where it is no hex.
pub open spec fn key_of(hex: Seq<u8>) -> Seq<u8> {
    match hex_decoded(hex) {
        Some(k) => k,
        None => Seq::empty(),
    }
}

/// The layout, computed; see `spec_layout`.
struct LayoutExec {
    hd_sector_size: u64,
    sector_size: u64,
    wlba: Vec<u16>,
    partition_offset: u64,
    data_offset: u64,
    data_size: u64,
    title_key: Vec<u8>,
}

impl LayoutExec {
    spec fn view(&self) -> Layout {
        Layout {
            hd_sector_size: self.hd_sector_size as nat,
            sector_size: self.sector_size as nat,
            wlba: self.wlba@,
            partition_offset: self.partition_offset as nat,
            data_offset: self.data_offset as nat,
            data_size: self.data_size as nat,
            title_key: self.title_key@,
        }
    }
}

fn read_layout<S: ByteSource>(src: &S, common_hex: &str) -> (r: Result<LayoutExec, WbfsError>)
    ensures
        match r {
            Ok(l) => spec_layout(src.spec_bytes(), key_of(common_hex.spec_bytes())) == Ok::<
                Layout,
                WbfsError,
            >(l.view()) && l.sector_size >= 0x8000 && l.sector_size <= 0x8000_0000
                && l.hd_sector_size <= 0x8000_0000
                && l.title_key@.len() == 16 && l.partition_offset <= 4 * 0xffff_ffff
                && l.data_offset <= 4 * 0xffff_ffff,
            Err(e) => spec_layout(src.spec_bytes(), key_of(common_hex.spec_bytes())) == Err::<
                Layout,
                WbfsError,
            >(e),
        },
{
    let ghost s = src.spec_bytes();
    let h = src.read_range(0, 0x200);
    let hd = match parse_header(h.as_slice()) {
        Ok(hd) => hd,
        Err(e) => return Err(e),
    };
    let hd_size = pow2_exec(hd.hd_sector_shift);
    let ss = pow2_exec(hd.wbfs_sector_shift);
    let per = pow2_exec(hd.wbfs_sector_shift - 15);
    proof {
        lemma_pow2_pos((hd.wbfs_sector_shift - 15) as nat);
        lemma_pow2_monotone(15, hd.wbfs_sector_shift as nat);
        reveal_with_fuel(pow2, 16);
    }
    let n = (DISC_SECTORS + per - 1) / per;
    proof {
        let pi = per as int;
        let ni = n as int;
        assert(ni == (0x46090 + pi - 1) / pi);
        assert(ni <= 0x46090) by (nonlinear_arith)
            requires
                pi >= 1,
                ni == (0x46090 + pi - 1) / pi,
        ;
    }
    let wl = src.read_range(hd_size + 0x100, 2 * n as usize);
    if wl.len() < 2 * n as usize {
        return Err(WbfsError::Truncated);
    }
    let mut wlba: Vec<u16> = Vec::new();
    let mut i: usize = 0;
    while i < n as usize
        invariant
            n <= DISC_SECTORS,
            wl@.len() >= 2 * n,
            i <= n,
            wlba@ == be16_table(wl@, i as nat),
        decreases n - i,
    {
        wlba.push((wl[2 * i] as u16) * 256 + wl[2 * i + 1] as u16);
        i = i + 1;
        proof {
            assert(wlba@ =~= be16_table(wl@, i as nat));
        }
    }
    let pt = read_disc(src, &wlba, ss, 0x40000, 8);
    if pt.len() < 8 {
        return Err(WbfsError::Truncated);
    }
    let pe = read_disc(src, &wlba, ss, be32_at(pt.as_slice(), 4) * 4, 8);
    if pe.len() < 8 {
        return Err(WbfsError::Truncated);
    }
    let part = be32_at(pe.as_slice(), 0) * 4;
    let ticket = read_disc(src, &wlba, ss, part, 0x2a4);
    let info = read_disc(src, &wlba, ss, part + 0x2b8, 8);
    if ticket.len() < 0x2a4 || info.len() < 8 {
        return Err(WbfsError::Truncated);
    }
    let common = match decode_hex(common_hex) {
        Some(k) => k,
        None => Vec::new(),
    };
    if common.len() != 16 {
        return Err(WbfsError::BadCommonKey);
    }
    let enc = copy_bytes(ticket.as_slice(), 0x1bf, 0x1cf);
    let mut iv = copy_bytes(ticket.as_slice(), 0x1dc, 0x1e4);
    let mut z: usize = 0;
    while z < 8
        invariant
            z <= 8,
            iv@ == ticket@.subrange(0x1dc, 0x1e4) + Seq::new(z as nat, |i: int| 0u8),
        decreases 8 - z,
    {
        iv.push(0);
        z = z + 1;
        proof {
            assert(iv@ =~= ticket@.subrange(0x1dc, 0x1e4) + Seq::new(z as nat, |i: int| 0u8));
        }
    }
    let title_key = cbc_decrypt(common.as_slice(), iv.as_slice(), enc.as_slice());
    let l = LayoutExec {
        hd_sector_size: hd_size,
        sector_size: ss,
        wlba,
        partition_offset: part,
        data_offset: be32_at(info.as_slice(), 0) * 4,
        data_size: be32_at(info.as_slice(), 4) * 4,
        title_key,
    };
    proof {
        assert(h@ == window(s, 0, 0x200));
        assert(l.view() == spec_layout(s, key_of(common_hex.spec_bytes()))->Ok_0);
    }
    Ok(l)
}

} // verus!

verus! {

/// A file of the disc's file system: its path and where its bytes lie in
/// the partition's decrypted data.
pub struct FstView {
    pub path: Seq<u8>,
    pub offset: nat,
    pub size: nat,
}

/// Whether a name may hold byte `b`: printable ASCII or Latin-1.
pub open spec fn name_byte_ok(b: u8) -> bool {
    (32 <= b && b < 127) || b >= 160
}

/// Longest name accepted.
pub const MAX_NAME: usize = 255;

/// The name from `at` on, after `acc`: bytes up to a NUL. A byte that no
/// name holds, a name longer than 255 bytes, or no NUL before the end of
/// the table are errors.
pub open spec fn fst_name(s: Seq<u8>, at: nat, acc: Seq<u8>) -> Result<Seq<u8>, WbfsError>
    decreases s.len() - at,
{
    if at >= s.len() {
        Err(WbfsError::BadFst)
    } else if s[at as int] == 0 {
        Ok(acc)
    } else if !name_byte_ok(s[at as int]) || acc.len() >= MAX_NAME {
        Err(WbfsError::BadFst)
    } else {
        fst_name(s, at + 1, acc.push(s[at as int]))
    }
}

/// Drops the directories whose subtree ends at or before entry `i`.
pub open spec fn close_dirs(frames: Seq<(Seq<u8>, nat)>, i: nat) -> Seq<(Seq<u8>, nat)>
    decreases frames.len(),
{
    if frames.len() > 0 && i >= frames.last().1 {
        close_dirs(frames.drop_last(), i)
    } else {
        frames
    }
}

/// Largest FST read: more than 100000 records and names reached by 24-bit
/// offsets can use.
pub const MAX_FST_SIZE: u64 = 0x200_0000;

/// Most entries an FST may declare.
pub const MAX_FST_ENTRIES: u64 = 100000;

/// Reading FST records `i..total` of table `s` (records, then names from
/// `12 * total`) with the open directories `frames`, each a path prefix
/// ending in `/` and the index its subtree ends at.
pub open spec fn fst_from(
    s: Seq<u8>,
    total: nat,
    i: nat,
    frames: Seq<(Seq<u8>, nat)>,
    files: Seq<FstView>,
) -> Result<Seq<FstView>, WbfsError>
    decreases total - i,
{
    if i >= total {
        Ok(files)
    } else {
        let open = close_dirs(frames, i);
        let prefix = if open.len() == 0 { Seq::empty() } else { open.last().0 };
        let rec = (12 * i) as int;
        let tn = be32(s, rec as int);
        match fst_name(s, 12 * total + tn % 0x100_0000, Seq::empty()) {
            Err(e) => Err(e),
            Ok(name) => if tn / 0x100_0000 == 1 {
                fst_from(s, total, i + 1, open.push((prefix + name + seq![0x2fu8], be32(s, rec + 8))), files)
            } else {
                fst_from(
                    s,
                    total,
                    i + 1,
                    open,
                    files.push(FstView { path: prefix + name, offset: be32(s, rec + 4) * 4, size: be32(s, rec + 8) }),
                )
            },
        }
    }
}

/// The files of file system table `s`, or why it is malformed.
pub open spec fn spec_fst(s: Seq<u8>) -> Result<Seq<FstView>, WbfsError> {
    if s.len() < 12 {
        Err(WbfsError::BadFst)
    } else {
        let total = be32(s, 8);
        if total == 0 || total > MAX_FST_ENTRIES || s.len() < 12 * total {
            Err(WbfsError::BadFst)
        } else {
            fst_from(s, total, 1, seq![(Seq::<u8>::empty(), total)], Seq::empty())
        }
    }
}

/// A file of the disc's file system.
pub struct FstEntry {
    path: Vec<u8>,
    offset: u64,
    size: u64,
}

impl View for FstEntry {
    type V = FstView;

    closed spec fn view(&self) -> FstView {
        FstView { path: self.path@, offset: self.offset as nat, size: self.size as nat }
    }
}

/// The views of a list of files.
pub open spec fn fst_views(v: Seq<FstEntry>) -> Seq<FstView> {
    Seq::new(v.len(), |k: int| v[k]@)
}

impl FstEntry {
    /// The file's path.
    pub fn path(&self) -> (r: &Vec<u8>)
        ensures
            r@ == self@.path,
    {
        &self.path
    }

    /// Where the file starts in the partition's decrypted data.
    pub fn offset(&self) -> (r: u64)
        ensures
            r as nat == self@.offset,
    {
        self.offset
    }

    /// The file's size.
    pub fn size(&self) -> (r: u64)
        ensures
            r as nat == self@.size,
    {
        self.size
    }
}

struct DirFrame {
    prefix: Vec<u8>,
    end: u64,
}

spec fn dir_frames(v: Seq<DirFrame>) -> Seq<(Seq<u8>, nat)> {
    Seq::new(v.len(), |k: int| (v[k].prefix@, v[k].end as nat))
}

fn fst_name_exec(s: &[u8], at: usize) -> (r: Result<Vec<u8>, WbfsError>)
    ensures
        match r {
            Ok(n) => fst_name(s@, at as nat, Seq::empty()) == Ok::<Seq<u8>, WbfsError>(n@),
            Err(e) => fst_name(s@, at as nat, Seq::empty()) == Err::<Seq<u8>, WbfsError>(e),
        },
{
    let mut acc: Vec<u8> = Vec::new();
    let mut p = at;
    loop
        invariant
            p >= at,
            fst_name(s@, p as nat, acc@) == fst_name(s@, at as nat, Seq::empty()),
        decreases s@.len() - p,
    {
        if p >= s.len() {
            return Err(WbfsError::BadFst);
        }
        let b = s[p];
        if b == 0 {
            return Ok(acc);
        }
        if !((32 <= b && b < 127) || b >= 160) || acc.len() >= MAX_NAME {
            return Err(WbfsError::BadFst);
        }
        acc.push(b);
        p = p + 1;
    }
}

fn concat3(a: &Vec<u8>, b: &Vec<u8>, slash: bool) -> (r: Vec<u8>)
    ensures
        r@ == (if slash { a@ + b@ + seq![0x2fu8] } else { a@ + b@ }),
{
    let mut out = vstd::slice::slice_to_vec(a.as_slice());
    let mut i: usize = 0;
    while i < b.len()
        invariant
            i <= b@.len(),
            out@ == a@ + b@.subrange(0, i as int),
        decreases b@.len() - i,
    {
        out.push(b[i]);
        i = i + 1;
        proof {
            assert(out@ =~= a@ + b@.subrange(0, i as int));
        }
    }
    proof {
        assert(b@.subrange(0, b@.len() as int) =~= b@);
    }
    if slash {
        out.push(0x2f);
    }
    out
}

/// Reads a file system table: a header record giving the entry count in
/// its last field, 12-byte records (type and name offset, data offset or
/// parent, size or subtree end), then NUL-terminated names. Files are
/// listed in table order with paths joined by `/`.
pub fn parse_fst(s: &[u8]) -> (r: Result<Vec<FstEntry>, WbfsError>)
    ensures
        match r {
            Ok(v) => spec_fst(s@) == Ok::<Seq<FstView>, WbfsError>(fst_views(v@)),
            Err(e) => spec_fst(s@) == Err::<Seq<FstView>, WbfsError>(e),
        },
{
    if s.len() < 12 {
        return Err(WbfsError::BadFst);
    }
    let total = be32_at(s, 8);
    if total == 0 || total > MAX_FST_ENTRIES || (s.len() as u64) < 12 * total {
        return Err(WbfsError::BadFst);
    }
    let ghost whole = spec_fst(s@);
    let mut frames: Vec<DirFrame> = Vec::new();
    frames.push(DirFrame { prefix: Vec::new(), end: total });
    let mut files: Vec<FstEntry> = Vec::new();
    proof {
        assert(dir_frames(frames@) =~= seq![(Seq::<u8>::empty(), total as nat)]);
        assert(fst_views(files@) =~= Seq::<FstView>::empty());
    }
    let mut i: u64 = 1;
    while i < total
        invariant
            1 <= total <= MAX_FST_ENTRIES,
            12 * total <= s@.len(),
            whole == spec_fst(s@),
            1 <= i <= total,
            fst_from(s@, total as nat, i as nat, dir_frames(frames@), fst_views(files@)) == whole,
        decreases total - i,
    {
        let ghost fr = dir_frames(frames@);
        while frames.len() > 0 && i >= frames[frames.len() - 1].end
            invariant
                close_dirs(dir_frames(frames@), i as nat) == close_dirs(fr, i as nat),
            decreases frames@.len(),
        {
            proof {
                assert(dir_frames(frames@).drop_last() =~= dir_frames(frames@.drop_last()));
            }
            frames.pop();
        }
        let prefix = if frames.len() == 0 {
            Vec::new()
        } else {
            vstd::slice::slice_to_vec(frames[frames.len() - 1].prefix.as_slice())
        };
        let rec = 12 * i as usize;
        let tn = be32_at(s, rec);
        let name = match fst_name_exec(s, 12 * total as usize + (tn % 0x100_0000) as usize) {
            Ok(n) => n,
            Err(e) => return Err(e),
        };
        let ghost open = dir_frames(frames@);
        let ghost fv = fst_views(files@);
        if tn / 0x100_0000 == 1 {
            let end = be32_at(s, rec + 8);
            frames.push(DirFrame { prefix: concat3(&prefix, &name, true), end });
            proof {
                assert(dir_frames(frames@) =~= open.push(((if open.len() == 0 { Seq::empty() } else { open.last().0 }) + name@ + seq![0x2fu8], end as nat)));
            }
        } else {
            let offset = be32_at(s, rec + 4) * 4;
            let size = be32_at(s, rec + 8);
            files.push(FstEntry { path: concat3(&prefix, &name, false), offset, size });
            proof {
                assert(fst_views(files@) =~= fv.push(FstView { path: (if open.len() == 0 { Seq::empty() } else { open.last().0 }) + name@, offset: offset as nat, size: size as nat }));
            }
        }
        i = i + 1;
    }
    Ok(files)
}

} // verus!

verus! {

broadcast use vstd::std_specs::hash::group_hash_axioms;

/// An opened WBFS image: the source, the partition's layout, a cache of
/// decrypted clusters, and the files of the disc's file system.
pub struct WbfsFs<S: ByteSource> {
    source: S,
    layout: LayoutExec,
    cache: std::collections::HashMap<u64, Vec<u8>>,
    files: Vec<FstEntry>,
}

impl<S: ByteSource> WbfsFs<S> {
    /// The image's bytes.
    pub closed spec fn spec_source(&self) -> Seq<u8> {
        self.source.spec_bytes()
    }

    /// The partition's layout.
    pub closed spec fn spec_layout(&self) -> Layout {
        self.layout.view()
    }

    /// The disc's files.
    pub closed spec fn spec_files(&self) -> Seq<FstView> {
        fst_views(self.files@)
    }

    /// The cache holds only true plaintexts, and the layout's numbers are in
    /// range.
    pub closed spec fn wf(&self) -> bool {
        &&& self.layout.sector_size >= 0x8000
        &&& self.layout.sector_size <= 0x8000_0000
        &&& self.layout.hd_sector_size <= 0x8000_0000
        &&& self.layout.title_key@.len() == 16
        &&& forall|c: u64|
            #![trigger self.cache@[c]]
            self.cache@.contains_key(c) ==> cluster_plain(self.source.spec_bytes(), self.layout.view(), c as nat)
                == Some(self.cache@[c]@) && self.cache@[c]@.len() == CLUSTER_DATA
    }

    /// Decrypts cluster `c`, from the cache when it is there.
    fn cluster(&mut self, c: u64) -> (r: Option<Vec<u8>>)
        requires
            old(self).wf(),
        ensures
            final(self).wf(),
            final(self).spec_source() == old(self).spec_source(),
            final(self).spec_layout() == old(self).spec_layout(),
            final(self).spec_files() == old(self).spec_files(),
            match r {
                Some(p) => cluster_plain(old(self).spec_source(), old(self).spec_layout(), c as nat) == Some(p@)
                    && p@.len() == CLUSTER_DATA,
                None => cluster_plain(old(self).spec_source(), old(self).spec_layout(), c as nat) is None,
            },
    {
        match self.cache.get(&c) {
            Some(p) => {
                return Some(vstd::slice::slice_to_vec(p.as_slice()));
            },
            None => {},
        }
        let l = &self.layout;
        let part = l.partition_offset as u128 + l.data_offset as u128 + c as u128 * 0x8000;
        if part + 0x8000 > u64::MAX as u128 {
            return None;
        }
        let base = part as u64;
        let iv = read_disc(&self.source, &l.wlba, l.sector_size, base + 0x3d0, 16);
        let enc = read_disc(&self.source, &l.wlba, l.sector_size, base + 0x400, 0x7c00);
        if iv.len() != 16 || enc.len() != 0x7c00 {
            return None;
        }
        let plain = cbc_decrypt(l.title_key.as_slice(), iv.as_slice(), enc.as_slice());
        self.cache.insert(c, vstd::slice::slice_to_vec(plain.as_slice()));
        Some(plain)
    }

    /// `size` bytes of the partition's decrypted data from `offset`, or
    /// `None` where a cluster they touch cannot be read.
    pub fn read_plain(&mut self, offset: u64, size: usize) -> (r: Option<Vec<u8>>)
        requires
            old(self).wf(),
        ensures
            final(self).wf(),
            final(self).spec_source() == old(self).spec_source(),
            final(self).spec_layout() == old(self).spec_layout(),
            final(self).spec_files() == old(self).spec_files(),
            match r {
                Some(v) => plain_range(old(self).spec_source(), old(self).spec_layout(), offset as nat, size as nat) == Some(v@),
                None => plain_range(old(self).spec_source(), old(self).spec_layout(), offset as nat, size as nat) is None,
            },
    {
        let ghost src = self.spec_source();
        let ghost l = self.spec_layout();
        let ghost total = plain_range(src, l, offset as nat, size as nat);
        let mut out: Vec<u8> = Vec::new();
        let mut off = offset;
        let mut left = size;
        while left > 0
            invariant
                self.wf(),
                self.spec_source() == src,
                self.spec_layout() == l,
                self.spec_files() == old(self).spec_files(),
                src == old(self).spec_source(),
                l == old(self).spec_layout(),
                total == plain_range(old(self).spec_source(), old(self).spec_layout(), offset as nat, size as nat),
                total == match plain_range(src, l, off as nat, left as nat) {
                    None => None,
                    Some(rest) => Some(out@ + rest),
                },
            decreases left,
        {
            let c = off / 0x7c00;
            let within = (off % 0x7c00) as usize;
            let room = 0x7c00 - within;
            let take = if left < room {
                left
            } else {
                room
            };
            let p = match self.cluster(c) {
                Some(p) => p,
                None => return None,
            };
            proof {
                let ci = c as int;
                let wi = within as int;
                assert(off as int == ci * 0x7c00 + wi);
                assert(ci * 0x8000 + 0x8000 <= u64::MAX);
                assert(off + take <= u64::MAX) by (nonlinear_arith)
                    requires
                        off as int == ci * 0x7c00 + wi,
                        wi + take <= 0x7c00,
                        ci * 0x8000 + 0x8000 <= u64::MAX,
                        ci >= 0,
                ;
            }
            let ghost before = out@;
            let mut j = within;
            proof {
                assert(before + p@.subrange(within as int, within as int) =~= before);
            }
            while j < within + take
                invariant
                    within + take <= 0x7c00,
                    p@.len() == 0x7c00,
                    within <= j <= within + take,
                    out@ == before + p@.subrange(within as int, j as int),
                decreases within + take - j,
            {
                out.push(p[j]);
                j = j + 1;
                proof {
                    assert(out@ =~= before + p@.subrange(within as int, j as int));
                }
            }
            proof {
                let rest = plain_range(src, l, (off + take) as nat, (left - take) as nat);
                if let Some(r) = rest {
                    assert(before + (p@.subrange(within as int, (within + take) as int) + r) =~= out@ + r);
                }
            }
            off = off + take as u64;
            left = left - take;
        }
        proof {
            assert(out@ + Seq::<u8>::empty() =~= out@);
        }
        Some(out)
    }
}

} // verus!

verus! {

/// The layout and files of image `src` opened with the common key spelled
/// by `hex`, or why it cannot be opened.
pub open spec fn spec_open(src: Seq<u8>, hex: Seq<u8>) -> Result<(Layout, Seq<FstView>), WbfsError> {
    match spec_layout(src, key_of(hex)) {
        Err(e) => Err(e),
        Ok(l) => match plain_range(src, l, 0x424, 8) {
            None => Err(WbfsError::Truncated),
            Some(fi) => {
                let off = be32(fi, 0) * 4;
                let size = be32(fi, 4) * 4;
                if size > MAX_FST_SIZE {
                    Err(WbfsError::BadFst)
                } else {
                    match plain_range(src, l, off, size) {
                        None => Err(WbfsError::Truncated),
                        Some(fst) => match spec_fst(fst) {
                            Err(e) => Err(e),
                            Ok(files) => Ok((l, files)),
                        },
                    }
                }
            },
        },
    }
}

/// `p` without its trailing `/`s.
pub open spec fn trim_slashes(p: Seq<u8>) -> Seq<u8>
    decreases p.len(),
{
    if p.len() > 0 && p.last() == 0x2f {
        trim_slashes(p.drop_last())
    } else {
        p
    }
}

/// Whether `path` names a directory: the root, or a prefix of some file's
/// path followed by `/`.
pub open spec fn spec_dir_exists(files: Seq<FstView>, path: Seq<u8>) -> bool {
    let n = trim_slashes(path);
    n.len() == 0 || exists|k: int| 0 <= k < files.len() && has_prefix(files[k].path, n.push(0x2f))
}

/// Index of the first file at `path` from index `k` on.
pub open spec fn find_file(files: Seq<FstView>, path: Seq<u8>, k: nat) -> Option<nat>
    decreases files.len() - k,
{
    if k >= files.len() {
        None
    } else if files[k as int].path == path {
        Some(k)
    } else {
        find_file(files, path, k + 1)
    }
}

fn trim_slashes_exec(p: &[u8]) -> (r: usize)
    ensures
        r <= p@.len(),
        p@.subrange(0, r as int) == trim_slashes(p@),
{
    let mut n = p.len();
    proof {
        assert(p@.subrange(0, n as int) =~= p@);
    }
    while n > 0 && p[n - 1] == 0x2f
        invariant
            n <= p@.len(),
            trim_slashes(p@.subrange(0, n as int)) == trim_slashes(p@),
        decreases n,
    {
        proof {
            assert(p@.subrange(0, n as int).drop_last() =~= p@.subrange(0, n - 1));
        }
        n = n - 1;
    }
    n
}

impl<S: ByteSource> WbfsFs<S> {
    /// Opens the image that `source` holds; `common_key_hex` is the common
    /// key as 32 hex digits.
    pub fn new(source: S, common_key_hex: &str) -> (r: Result<WbfsFs<S>, WbfsError>)
        ensures
            match r {
                Ok(fs) => fs.wf() && fs.spec_source() == source.spec_bytes() && spec_open(
                    source.spec_bytes(),
                    common_key_hex.spec_bytes(),
                ) == Ok::<(Layout, Seq<FstView>), WbfsError>((fs.spec_layout(), fs.spec_files())),
                Err(e) => spec_open(source.spec_bytes(), common_key_hex.spec_bytes()) == Err::<
                    (Layout, Seq<FstView>),
                    WbfsError,
                >(e),
            },
    {
        let layout = match read_layout(&source, common_key_hex) {
            Ok(l) => l,
            Err(e) => return Err(e),
        };
        let mut fs = WbfsFs { source, layout, cache: std::collections::HashMap::new(), files: Vec::new() };
        let fi = match fs.read_plain(0x424, 8) {
            Some(v) => v,
            None => return Err(WbfsError::Truncated),
        };
        proof {
            lemma_plain_len(fs.spec_source(), fs.spec_layout(), 0x424, 8);
        }
        let off = be32_at(fi.as_slice(), 0) * 4;
        let size = be32_at(fi.as_slice(), 4) * 4;
        if size > MAX_FST_SIZE {
            return Err(WbfsError::BadFst);
        }
        let fst = match fs.read_plain(off, size as usize) {
            Some(v) => v,
            None => return Err(WbfsError::Truncated),
        };
        match parse_fst(fst.as_slice()) {
            Ok(files) => {
                fs.files = files;
                Ok(fs)
            },
            Err(e) => Err(e),
        }
    }

    /// Index of the first file at `path`.
    fn find(&self, path: &[u8]) -> (r: Option<usize>)
        ensures
            match r {
                Some(k) => find_file(self.spec_files(), path@, 0) == Some(k as nat) && k < self.files@.len(),
                None => find_file(self.spec_files(), path@, 0) is None,
            },
    {
        let mut k: usize = 0;
        while k < self.files.len()
            invariant
                k <= self.files@.len(),
                find_file(self.spec_files(), path@, k as nat) == find_file(self.spec_files(), path@, 0),
            decreases self.files@.len() - k,
        {
            let p = self.files[k].path.as_slice();
            if p.len() == path.len() && has_prefix_exec(p, path) {
                proof {
                    assert(p@.subrange(0, path@.len() as int) =~= p@);
                }
                return Some(k);
            }
            proof {
                if p@ == path@ {
                    assert(p@.subrange(0, path@.len() as int) =~= p@);
                }
            }
            k = k + 1;
        }
        None
    }

    /// Whether a file lies at `path`.
    pub fn file_exists(&self, path: &str) -> (r: bool)
        ensures
            r == find_file(self.spec_files(), path.spec_bytes(), 0) is Some,
    {
        self.find(path.as_bytes()).is_some()
    }

    /// The size of the file at `path`, or 0 when there is none.
    pub fn get_file_size(&self, path: &str) -> (r: u64)
        ensures
            r == match find_file(self.spec_files(), path.spec_bytes(), 0) {
                Some(k) => self.spec_files()[k as int].size,
                None => 0,
            },
    {
        match self.find(path.as_bytes()) {
            Some(k) => self.files[k].size,
            None => 0,
        }
    }

    /// Whether `path` names a directory (trailing `/`s ignored; "" is the root).
    pub fn dir_exists(&self, path: &str) -> (r: bool)
        ensures
            r == spec_dir_exists(self.spec_files(), path.spec_bytes()),
    {
        let p = path.as_bytes();
        let n = trim_slashes_exec(p);
        if n == 0 {
            return true;
        }
        let mut pre = copy_bytes(p, 0, n);
        pre.push(0x2f);
        let mut k: usize = 0;
        while k < self.files.len()
            invariant
                k <= self.files@.len(),
                pre@ == trim_slashes(path.spec_bytes()).push(0x2f),
                p@ == path.spec_bytes(),
                forall|j: int| 0 <= j < k ==> !has_prefix(self.spec_files()[j].path, pre@),
            decreases self.files@.len() - k,
        {
            if has_prefix_exec(self.files[k].path.as_slice(), pre.as_slice()) {
                proof {
                    assert(self.spec_files()[k as int].path == self.files@[k as int].path@);
                    assert(has_prefix(self.spec_files()[k as int].path, trim_slashes(path.spec_bytes()).push(0x2f)));
                }
                return true;
            }
            k = k + 1;
        }
        false
    }

    /// The whole of the file at `path`, decrypted into memory; `None` when
    /// there is no such file or its bytes cannot be read.
    pub fn get_file(&mut self, path: &str) -> (r: Option<MemoryByteSource>)
        requires
            old(self).wf(),
        ensures
            final(self).wf(),
            final(self).spec_source() == old(self).spec_source(),
            final(self).spec_layout() == old(self).spec_layout(),
            final(self).spec_files() == old(self).spec_files(),
            match find_file(old(self).spec_files(), path.spec_bytes(), 0) {
                None => r is None,
                Some(k) => if old(self).spec_files()[k as int].size > usize::MAX {
                    r is None
                } else { match plain_range(
                    old(self).spec_source(),
                    old(self).spec_layout(),
                    old(self).spec_files()[k as int].offset,
                    old(self).spec_files()[k as int].size,
                ) {
                    None => r is None,
                    Some(b) => r matches Some(m) && m.spec_bytes() == b,
                } },
            },
    {
        match self.find(path.as_bytes()) {
            None => None,
            Some(k) => {
                let offset = self.files[k].offset;
                let size = self.files[k].size;
                if size > usize::MAX as u64 {
                    return None;
                }
                match self.read_plain(offset, size as usize) {
                    Some(b) => Some(MemoryByteSource::from_vec(b)),
                    None => None,
                }
            },
        }
    }
}

proof fn lemma_plain_len(src: Seq<u8>, l: Layout, offset: nat, size: nat)
    ensures
        plain_range(src, l, offset, size) matches Some(v) ==> v.len() == size,
    decreases size,
{
    if size > 0 {
        let within = offset % (CLUSTER_DATA as nat);
        let room = (CLUSTER_DATA - within) as nat;
        let take: nat = if size < room { size } else { room };
        lemma_plain_len(src, l, offset + take, (size - take) as nat);
    }
}

} // verus!

verus! {

/// Index of the first `/` in `s`, or its length.
pub open spec fn first_slash(s: Seq<u8>) -> nat
    decreases s.len(),
{
    if s.len() == 0 || s[0] == 0x2f {
        0
    } else {
        1 + first_slash(s.drop_first())
    }
}

/// What a directory listing's paths must start with: "" for the root,
/// else the path without trailing `/`s, then `/`.
pub open spec fn list_prefix(path: Seq<u8>) -> Seq<u8> {
    if path.len() == 0 {
        Seq::empty()
    } else {
        trim_slashes(path).push(0x2f)
    }
}

/// The listing under prefix `pre` of `files`, in table order, with the
/// first components already listed: each first component once, with a
/// trailing `/` where the path goes on below it.
pub open spec fn wbfs_listing(files: Seq<FstView>, pre: Seq<u8>) -> (Seq<Seq<u8>>, Seq<Seq<u8>>)
    decreases files.len(),
{
    if files.len() == 0 {
        (Seq::empty(), Seq::empty())
    } else {
        let (names, firsts) = wbfs_listing(files.drop_last(), pre);
        let p = files.last().path;
        if has_prefix(p, pre) {
            let rest = p.subrange(pre.len() as int, p.len() as int);
            let f = rest.subrange(0, first_slash(rest) as int);
            if f.len() == 0 || firsts.contains(f) {
                (names, firsts)
            } else {
                (names.push(if f.len() < rest.len() { f.push(0x2f) } else { f }), firsts.push(f))
            }
        } else {
            (names, firsts)
        }
    }
}

proof fn lemma_first_slash(s: Seq<u8>, m: nat)
    requires
        m <= s.len(),
        forall|j: int| 0 <= j < m ==> s[j] != 0x2f,
        m == s.len() || s[m as int] == 0x2f,
    ensures
        first_slash(s) == m,
    decreases m,
{
    if m > 0 {
        lemma_first_slash(s.drop_first(), (m - 1) as nat);
    }
}

fn contains_bytes(v: &Vec<Vec<u8>>, x: &Vec<u8>) -> (r: bool)
    ensures
        r == byte_seqs(v@).contains(x@),
{
    let mut k: usize = 0;
    while k < v.len()
        invariant
            k <= v@.len(),
            forall|j: int| 0 <= j < k ==> v@[j]@ != x@,
        decreases v@.len() - k,
    {
        let a = v[k].as_slice();
        if a.len() == x.len() && has_prefix_exec(a, x.as_slice()) {
            proof {
                assert(a@.subrange(0, x@.len() as int) =~= a@);
                assert(byte_seqs(v@)[k as int] == x@);
            }
            return true;
        }
        proof {
            if v@[k as int]@ == x@ {
                assert(a@.subrange(0, x@.len() as int) =~= a@);
            }
        }
        k = k + 1;
    }
    proof {
        if byte_seqs(v@).contains(x@) {
            let j = choose|j: int| 0 <= j < byte_seqs(v@).len() && byte_seqs(v@)[j] == x@;
            assert(v@[j]@ == x@);
        }
    }
    false
}

/// The views of a list of byte strings.
pub open spec fn byte_seqs(v: Seq<Vec<u8>>) -> Seq<Seq<u8>> {
    Seq::new(v.len(), |k: int| v[k]@)
}

impl<S: ByteSource> WbfsFs<S> {
    /// Names directly under directory `path` ("" for the root), each once,
    /// in table order; a name with entries below it ends in `/`.
    pub fn get_entries(&self, path: &str) -> (r: Vec<Vec<u8>>)
        ensures
            byte_seqs(r@) == wbfs_listing(self.spec_files(), list_prefix(path.spec_bytes())).0,
    {
        self.entries_under(path.as_bytes())
    }

    /// The listing of directory `p`.
    fn entries_under(&self, p: &[u8]) -> (r: Vec<Vec<u8>>)
        ensures
            byte_seqs(r@) == wbfs_listing(self.spec_files(), list_prefix(p@)).0,
    {
        let pre = if p.len() == 0 {
            Vec::new()
        } else {
            let n = trim_slashes_exec(p);
            let mut v = copy_bytes(p, 0, n);
            v.push(0x2f);
            v
        };
        let mut names: Vec<Vec<u8>> = Vec::new();
        let mut firsts: Vec<Vec<u8>> = Vec::new();
        let mut k: usize = 0;
        while k < self.files.len()
            invariant
                k <= self.files@.len(),
                pre@ == list_prefix(p@),
                (byte_seqs(names@), byte_seqs(firsts@)) == wbfs_listing(
                    self.spec_files().subrange(0, k as int),
                    pre@,
                ),
            decreases self.files@.len() - k,
        {
            let ghost fs = self.spec_files().subrange(0, k + 1);
            proof {
                assert(fs.drop_last() =~= self.spec_files().subrange(0, k as int));
                assert(fs.last().path == self.files@[k as int].path@);
            }
            let q = self.files[k].path.as_slice();
            if has_prefix_exec(q, pre.as_slice()) {
                let pl = pre.len();
                let mut i = pl;
                while i < q.len() && q[i] != 0x2f
                    invariant
                        pl <= i <= q@.len(),
                        forall|j: int| pl <= j < i ==> q@[j] != 0x2f,
                    decreases q@.len() - i,
                {
                    i = i + 1;
                }
                proof {
                    let rest = q@.subrange(pl as int, q@.len() as int);
                    lemma_first_slash(rest, (i - pl) as nat);
                }
                if i > pl {
                    let f = copy_bytes(q, pl, i);
                    proof {
                        let rest = q@.subrange(pl as int, q@.len() as int);
                        assert(f@ =~= rest.subrange(0, (i - pl) as int));
                    }
                    if !contains_bytes(&firsts, &f) {
                        let mut name = copy_bytes(q, pl, i);
                        if i < q.len() {
                            name.push(0x2f);
                        }
                        names.push(name);
                        firsts.push(f);
                    }
                }
            }
            proof {
                assert(byte_seqs(names@) =~= wbfs_listing(fs, pre@).0);
                assert(byte_seqs(firsts@) =~= wbfs_listing(fs, pre@).1);
            }
            k = k + 1;
        }
        proof {
            assert(self.spec_files().subrange(0, self.files@.len() as int) =~= self.spec_files());
        }
        names
    }
}

/// A directory of an opened image: the image and the directory's path.
pub struct WbfsDir<'a, S: ByteSource> {
    fs: &'a WbfsFs<S>,
    path: Vec<u8>,
}

impl<'a, S: ByteSource> WbfsDir<'a, S> {
    /// The directory's path.
    pub closed spec fn spec_path(&self) -> Seq<u8> {
        self.path@
    }

    /// The image's files.
    pub closed spec fn spec_files(&self) -> Seq<FstView> {
        self.fs.spec_files()
    }

    /// The directory's path.
    pub fn path(&self) -> (r: &Vec<u8>)
        ensures
            r@ == self.spec_path(),
    {
        &self.path
    }

    /// Names directly under the directory, as `WbfsFs::get_entries` gives them.
    pub fn get_entries(&self) -> (r: Vec<Vec<u8>>)
        ensures
            byte_seqs(r@) == wbfs_listing(self.spec_files(), list_prefix(self.spec_path())).0,
    {
        self.fs.entries_under(self.path.as_slice())
    }
}

impl<S: ByteSource> WbfsFs<S> {
    /// A handle on directory `path`, when there is one.
    pub fn get_dir(&self, path: &str) -> (r: Option<WbfsDir<'_, S>>)
        ensures
            match r {
                Some(d) => spec_dir_exists(self.spec_files(), path.spec_bytes()) && d.spec_path()
                    == path.spec_bytes(),
                None => !spec_dir_exists(self.spec_files(), path.spec_bytes()),
            },
    {
        if self.dir_exists(path) {
            Some(WbfsDir { fs: self, path: vstd::slice::slice_to_vec(path.as_bytes()) })
        } else {
            None
        }
    }
}

/// `s` without its trailing NULs.
pub open spec fn trim_nuls(s: Seq<u8>) -> Seq<u8>
    decreases s.len(),
{
    if s.len() > 0 && s.last() == 0 {
        trim_nuls(s.drop_last())
    } else {
        s
    }
}

impl<S: ByteSource> WbfsFs<S> {
    /// The game's identifier: the first six bytes of the disc header.
    pub fn get_id(&self) -> (r: Vec<u8>)
        ensures
            r@ == window(self.spec_source(), self.spec_layout().hd_sector_size as int, 6),
    {
        self.source.read_range(self.layout.hd_sector_size, 6)
    }

    /// The game's title: bytes 0x20 to 0x60 of the disc header, without
    /// trailing NULs.
    pub fn get_name(&self) -> (r: Vec<u8>)
        requires
            self.wf(),
        ensures
            r@ == trim_nuls(
                window(self.spec_source(), (self.spec_layout().hd_sector_size + 0x20) as int, 0x40),
            ),
    {
        let mut b = self.source.read_range(self.layout.hd_sector_size + 0x20, 0x40);
        while b.len() > 0 && b[b.len() - 1] == 0
            invariant
                trim_nuls(b@) == trim_nuls(
                    window(self.spec_source(), (self.spec_layout().hd_sector_size + 0x20) as int, 0x40),
                ),
            decreases b@.len(),
        {
            b.pop();
        }
        b
    }
}

/// Whether the first bytes of a source are a WBFS header this reader takes.
pub fn is_valid_wbfs(header: &[u8]) -> (r: bool)
    ensures
        r == spec_header(header@) is Ok,
{
    parse_header(header).is_ok()
}

} // verus!

verus! {

proof fn lemma_trim_prefix(s: Seq<u8>)
    ensures
        trim_slashes(s).len() <= s.len(),
        trim_slashes(s) == s.subrange(0, trim_slashes(s).len() as int),
        trim_slashes(s).len() < s.len() ==> s[trim_slashes(s).len() as int] == 0x2f,
    decreases s.len(),
{
    if s.len() > 0 && s.last() == 0x2f {
        lemma_trim_prefix(s.drop_last());
        let t = trim_slashes(s.drop_last());
        assert(s.drop_last().subrange(0, t.len() as int) =~= s.subrange(0, t.len() as int));
        if t.len() < s.drop_last().len() {
            assert(s.drop_last()[t.len() as int] == s[t.len() as int]);
        }
    } else {
        assert(s.subrange(0, s.len() as int) =~= s);
    }
}

proof fn lemma_last_slash_is_slash(p: Seq<u8>)
    ensures
        -1 <= crate::arc::last_slash(p) < p.len(),
        p.contains(0x2f) ==> crate::arc::last_slash(p) >= 0 && p[crate::arc::last_slash(p)] == 0x2f,
    decreases p.len(),
{
    if p.len() > 0 && p.last() != 0x2f {
        lemma_last_slash_is_slash(p.drop_last());
        if p.contains(0x2f) {
            let k = choose|k: int| 0 <= k < p.len() && p[k] == 0x2f;
            assert(k < p.len() - 1);
            assert(p.drop_last()[k] == 0x2f);
            assert(p.drop_last()[crate::arc::last_slash(p.drop_last())] == p[crate::arc::last_slash(p.drop_last())]);
        }
    }
}

/// Every file of the disc whose path holds `/` lies in a directory: the
/// path with its last segment removed names one.
pub proof fn lemma_fst_parents_present(files: Seq<FstView>, k: int)
    requires
        0 <= k < files.len(),
        files[k].path.contains(0x2f),
    ensures
        spec_dir_exists(files, crate::arc::parent_path(files[k].path)),
{
    let p = files[k].path;
    lemma_last_slash_is_slash(p);
    let ls = crate::arc::last_slash(p);
    let par = p.subrange(0, ls);
    lemma_trim_prefix(par);
    let n = trim_slashes(par);
    if n.len() > 0 {
        let m = n.len() as int;
        assert(p[m] == 0x2f) by {
            if m < par.len() {
                assert(par[m] == 0x2f);
            }
        }
        assert(p.subrange(0, m + 1) =~= n.push(0x2f)) by {
            assert forall|j: int| 0 <= j < m implies p[j] == n[j] by {
                assert(n[j] == par[j]);
            }
        }
        assert(has_prefix(files[k].path, n.push(0x2f)));
    }
}

/// Two reads of the same range of a WBFS partition's decrypted data agree,
/// whatever the cluster cache held: each is what the image and layout give.
pub proof fn lemma_plain_reads_agree(src: Seq<u8>, l: Layout, offset: nat, size: nat, a: Seq<u8>, b: Seq<u8>)
    requires
        plain_range(src, l, offset, size) == Some(a),
        plain_range(src, l, offset, size) == Some(b),
    ensures
        a == b,
{
}

} // verus!

verus! {

/// A game identifier with its region character (the fourth) replaced by `x`.
pub open spec fn spec_universal_id(id: Seq<u8>) -> Seq<u8> {
    if id.len() >= 4 {
        id.update(3, 0x78)
    } else {
        id
    }
}

/// The identifier with its region character replaced by `x`.
pub fn universal_id(id: &[u8]) -> (r: Vec<u8>)
    ensures
        r@ == spec_universal_id(id@),
{
    let mut v = vstd::slice::slice_to_vec(id);
    if v.len() >= 4 {
        v.set(3, 0x78);
    }
    v
}

/// The region character of an identifier (its fourth), or `X` when it is
/// too short.
pub fn region_code(id: &[u8]) -> (r: u8)
    ensures
        r == (if id@.len() >= 4 { id@[3] } else { 0x58u8 }),
{
    if id.len() >= 4 {
        id[3]
    } else {
        0x58
    }
}

/// The name of a region character.
pub fn region_name(code: u8) -> (r: &'static str)
    ensures
        r@ == (if code == 0x44 {
            "German"@
        } else if code == 0x45 {
            "USA"@
        } else if code == 0x46 {
            "France"@
        } else if code == 0x49 {
            "Italy"@
        } else if code == 0x4a {
            "Japan"@
        } else if code == 0x4b {
            "Korea"@
        } else if code == 0x50 {
            "PAL"@
        } else if code == 0x52 {
            "Russia"@
        } else if code == 0x53 {
            "Spanish"@
        } else if code == 0x54 {
            "Taiwan"@
        } else if code == 0x55 {
            "Australia"@
        } else {
            "Unknown"@
        }),
{
    if code == 0x44 {
        "German"
    } else if code == 0x45 {
        "USA"
    } else if code == 0x46 {
        "France"
    } else if code == 0x49 {
        "Italy"
    } else if code == 0x4a {
        "Japan"
    } else if code == 0x4b {
        "Korea"
    } else if code == 0x50 {
        "PAL"
    } else if code == 0x52 {
        "Russia"
    } else if code == 0x53 {
        "Spanish"
    } else if code == 0x54 {
        "Taiwan"
    } else if code == 0x55 {
        "Australia"
    } else {
        "Unknown"
    }
}

/// The disc number of a multi-disc game: the sixth character of the
/// identifier as a digit, else 0.
pub fn disc_number(id: &[u8]) -> (r: u32)
    ensures
        r == (if id@.len() >= 6 && 0x30 <= id@[5] <= 0x39 { (id@[5] - 0x30) as u32 } else { 0 }),
{
    if id.len() >= 6 && 0x30 <= id[5] && id[5] <= 0x39 {
        (id[5] - 0x30) as u32
    } else {
        0
    }
}

/// The first two characters of the identifier, or nothing when it is
/// shorter.
pub fn publisher_code(id: &[u8]) -> (r: Vec<u8>)
    ensures
        r@ == (if id@.len() >= 2 { id@.subrange(0, 2) } else { Seq::empty() }),
{
    if id.len() >= 2 {
        copy_bytes(id, 0, 2)
    } else {
        Vec::new()
    }
}

/// Sum of the sizes of `files`.
pub open spec fn total_size(files: Seq<FstView>) -> nat
    decreases files.len(),
{
    if files.len() == 0 {
        0
    } else {
        total_size(files.drop_last()) + files.last().size
    }
}

impl<S: ByteSource> WbfsFs<S> {
    /// The total size of the disc's files, held at `u64::MAX`.
    pub fn get_used_size(&self) -> (r: u64)
        ensures
            r as int == (if total_size(self.spec_files()) > u64::MAX { u64::MAX as int } else { total_size(self.spec_files()) as int }),
    {
        let mut sum: u64 = 0;
        let mut saturated = false;
        let mut k: usize = 0;
        while k < self.files.len()
            invariant
                k <= self.files@.len(),
                saturated ==> total_size(self.spec_files().subrange(0, k as int)) > u64::MAX && sum == u64::MAX,
                !saturated ==> sum as nat == total_size(self.spec_files().subrange(0, k as int)),
            decreases self.files@.len() - k,
        {
            proof {
                assert(self.spec_files().subrange(0, k + 1).drop_last() =~= self.spec_files().subrange(0, k as int));
            }
            let s = self.files[k].size;
            if !saturated {
                if s > u64::MAX - sum {
                    saturated = true;
                    sum = u64::MAX;
                } else {
                    sum = sum + s;
                }
            }
            k = k + 1;
        }
        proof {
            assert(self.spec_files().subrange(0, self.files@.len() as int) =~= self.spec_files());
        }
        sum
    }
}

} // verus!
