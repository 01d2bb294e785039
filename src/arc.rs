//! The U8 archive format: a header, a flat depth-first list of 12-byte
//! nodes whose directories give the index one past their last descendant,
//! and a table of NUL-terminated names. Parsed into a path table.
use crate::bytes::{be16, be16_at, be32, be32_at, bytes_equal, copy_bytes, has_prefix, has_prefix_exec};
use crate::bytesource::{ByteSource, SubrangeSource};
use std::sync::Arc;
use vstd::prelude::*;
use vstd::string::StringSliceAdditionalSpecFns;

verus! {

/// Why an archive could not be read.
#[derive(Debug, Clone, Copy, PartialEq, Eq, Structural)]
pub enum ArcError {
    /// The source holds fewer than 32 bytes.
    TooSmall,
    /// No magic tag, or the header after it is cut short.
    BadHeader,
    /// The root node lies outside the data.
    BadNodeBase,
    /// The source is too large to read into memory.
    TooLarge,
}

/// The path separator `/`.
pub const SLASH: u8 = 0x2f;

/// Whether the magic tag `55 AA 38 2D` starts at `o`.
pub open spec fn magic_at(d: Seq<u8>, o: int) -> bool {
    o + 4 <= d.len() && d[o] == 0x55 && d[o + 1] == 0xaa && d[o + 2] == 0x38 && d[o + 3] == 0x2d
}

/// The first place at or after `o` where the magic tag starts.
pub open spec fn find_magic(d: Seq<u8>, o: nat) -> Option<nat>
    decreases d.len() - o,
{
    if o + 4 > d.len() {
        None
    } else if magic_at(d, o as int) {
        Some(o)
    } else {
        find_magic(d, o + 1)
    }
}

/// Where things lie in an archive.
pub struct Geometry {
    /// Where the magic tag starts; file offsets count from here.
    pub start: nat,
    /// Where the root node starts.
    pub node_base: nat,
    /// Number of nodes after the root that the data holds in full.
    pub n_nodes: nat,
    /// Where the name table starts and ends.
    pub table_start: nat,
    pub table_end: nat,
}

/// The archive's geometry, or why it has none.
pub open spec fn spec_geometry(d: Seq<u8>) -> Result<Geometry, ArcError> {
    if d.len() < 0x20 {
        Err(ArcError::TooSmall)
    } else {
        match find_magic(d, 0) {
            None => Err(ArcError::BadHeader),
            Some(o) => if o + 16 > d.len() {
                Err(ArcError::BadHeader)
            } else {
                let node_base = o + be32(d, (o + 4) as int);
                if node_base + 12 > d.len() {
                    Err(ArcError::BadNodeBase)
                } else {
                    let root_size = be32(d, (node_base + 8) as int);
                    let wanted: nat = if root_size == 0 { 0 } else { (root_size - 1) as nat };
                    let room: nat = ((d.len() - node_base - 12) / 12) as nat;
                    let n: nat = if wanted < room { wanted } else { room };
                    let table_start = node_base + 12 + 12 * n;
                    let data_offset = be32(d, (o + 12) as int);
                    let rel = table_start - o;
                    let size: nat = if data_offset > rel { (data_offset - rel) as nat } else { 0 };
                    let table_end: nat = if table_start + size > d.len() { d.len() } else { table_start + size };
                    Ok(Geometry { start: o, node_base, n_nodes: n, table_start, table_end })
                }
            },
        }
    }
}

/// The record of node `i` (the root is node 0): type, name offset, data
/// offset and size (or, for a directory, its end index).
pub open spec fn node_at(d: Seq<u8>, g: Geometry, i: nat) -> (nat, nat, nat, nat) {
    let at = g.node_base + 12 * i;
    (be16(d, at as int), be16(d, (at + 2) as int), be32(d, (at + 4) as int), be32(d, (at + 8) as int))
}

/// The name that starts at `at`: bytes up to a NUL or the end of the table.
pub open spec fn name_from(d: Seq<u8>, at: nat, end: nat) -> Seq<u8>
    decreases end - at,
{
    if at >= end || d[at as int] == 0 {
        Seq::empty()
    } else {
        seq![d[at as int]] + name_from(d, at + 1, end)
    }
}

/// One entry of the path table: its path, and for a file its byte range.
pub struct EntryView {
    pub path: Seq<u8>,
    pub offset: u64,
    pub size: u64,
    pub is_dir: bool,
}

/// An open directory during reconstruction: its path, the index one past
/// its last descendant, and whether its entries are kept.
pub struct FrameView {
    pub path: Seq<u8>,
    pub end: nat,
    pub ok: bool,
}

/// `parent/name`, or `name` under the root.
pub open spec fn join(parent: Seq<u8>, name: Seq<u8>) -> Seq<u8> {
    if parent.len() == 0 {
        name
    } else {
        parent + seq![SLASH] + name
    }
}

/// Closes the directories whose subtree ends after node `i`.
pub open spec fn close_frames(frames: Seq<FrameView>, i: nat) -> Seq<FrameView>
    decreases frames.len(),
{
    if frames.len() > 0 && i + 1 == frames.last().end {
        close_frames(frames.drop_last(), i)
    } else {
        frames
    }
}

/// The table after reading nodes `i..=n` with the given open directories.
/// A name holding `/` marks its node, and everything under it, as broken:
/// no entry is kept for them. A file whose range leaves the data is
/// dropped too.
pub open spec fn tree_from(d: Seq<u8>, g: Geometry, i: nat, frames: Seq<FrameView>, entries: Seq<EntryView>)
    -> Seq<EntryView>
    decreases g.n_nodes + 1 - i,
{
    if i > g.n_nodes || i == 0 {
        entries
    } else {
        let (kind, name_off, data_off, size) = node_at(d, g, i);
        let name = name_from(d, g.table_start + name_off, g.table_end);
        let parent = if frames.len() == 0 { Seq::empty() } else { frames.last().path };
        let parent_ok = frames.len() == 0 || frames.last().ok;
        let path = join(parent, name);
        let ok = parent_ok && !name.contains(SLASH);
        let (frames1, entries1) = if kind == 0x100 {
            (
                frames.push(FrameView { path, end: size, ok }),
                if ok {
                    entries.push(EntryView { path, offset: 0, size: 0, is_dir: true })
                } else {
                    entries
                },
            )
        } else if kind == 0 && ok && g.start + data_off + size <= d.len() {
            (
                frames,
                entries.push(
                    EntryView {
                        path,
                        offset: (g.start + data_off) as u64,
                        size: size as u64,
                        is_dir: false,
                    },
                ),
            )
        } else {
            (frames, entries)
        };
        tree_from(d, g, i + 1, close_frames(frames1, i), entries1)
    }
}

/// The root directory's entry.
pub open spec fn root_entry() -> EntryView {
    EntryView { path: Seq::empty(), offset: 0, size: 0, is_dir: true }
}

/// The path table of archive `d`, or why it has none.
pub open spec fn spec_parse(d: Seq<u8>) -> Result<Seq<EntryView>, ArcError> {
    match spec_geometry(d) {
        Err(e) => Err(e),
        Ok(g) => {
            let root_size = be32(d, (g.node_base + 8) as int);
            Ok(
                tree_from(
                    d,
                    g,
                    1,
                    seq![FrameView { path: Seq::empty(), end: root_size, ok: true }],
                    seq![root_entry()],
                ),
            )
        },
    }
}

/// Index of the last `/` in `p`, or -1.
pub open spec fn last_slash(p: Seq<u8>) -> int
    decreases p.len(),
{
    if p.len() == 0 {
        -1
    } else if p.last() == SLASH {
        p.len() - 1
    } else {
        last_slash(p.drop_last())
    }
}

/// `p` with its last segment removed.
pub open spec fn parent_path(p: Seq<u8>) -> Seq<u8> {
    p.subrange(0, last_slash(p))
}

/// Every entry whose path holds `/` has its parent directory in the table.
pub open spec fn parents_present(es: Seq<EntryView>) -> bool {
    forall|i: int|
        0 <= i < es.len() && (#[trigger] es[i]).path.contains(SLASH) ==> exists|j: int|
            0 <= j < es.len() && es[j].is_dir && es[j].path == parent_path(es[i].path)
}

/// A path table entry.
pub struct ArcEntry {
    path: Vec<u8>,
    offset: u64,
    size: u64,
    is_dir: bool,
}

impl View for ArcEntry {
    type V = EntryView;

    closed spec fn view(&self) -> EntryView {
        EntryView { path: self.path@, offset: self.offset, size: self.size, is_dir: self.is_dir }
    }
}

impl ArcEntry {
    /// The entry's path.
    pub fn path(&self) -> (r: &Vec<u8>)
        ensures
            r@ == self@.path,
    {
        &self.path
    }

    /// Where a file's bytes start in the source (0 for a directory).
    pub fn offset(&self) -> (r: u64)
        ensures
            r == self@.offset,
    {
        self.offset
    }

    /// A file's size (0 for a directory).
    pub fn size(&self) -> (r: u64)
        ensures
            r == self@.size,
    {
        self.size
    }

    /// Whether the entry is a directory.
    pub fn is_dir(&self) -> (r: bool)
        ensures
            r == self@.is_dir,
    {
        self.is_dir
    }
}

/// The views of a list of entries.
pub open spec fn entry_views(es: Seq<ArcEntry>) -> Seq<EntryView> {
    Seq::new(es.len(), |k: int| es[k]@)
}

} // verus!

verus! {

fn find_magic_exec(d: &[u8]) -> (r: Option<usize>)
    ensures
        match r {
            Some(o) => find_magic(d@, 0) == Some(o as nat),
            None => find_magic(d@, 0) is None,
        },
{
    let mut o: usize = 0;
    while d.len() >= 4 && o <= d.len() - 4
        invariant
            find_magic(d@, o as nat) == find_magic(d@, 0),
            o <= d@.len(),
        decreases d@.len() - o,
    {
        if d[o] == 0x55 && d[o + 1] == 0xaa && d[o + 2] == 0x38 && d[o + 3] == 0x2d {
            return Some(o);
        }
        o = o + 1;
    }
    None
}

/// The bytes from `at` up to a NUL or `end`.
fn name_exec(d: &[u8], at: usize, end: usize) -> (r: Vec<u8>)
    requires
        end <= d@.len(),
    ensures
        r@ == name_from(d@, at as nat, end as nat),
{
    let mut out: Vec<u8> = Vec::new();
    let mut p = at;
    while p < end && d[p] != 0
        invariant
            end <= d@.len(),
            at <= p,
            out@ + name_from(d@, p as nat, end as nat) == name_from(d@, at as nat, end as nat),
        decreases end - p,
    {
        out.push(d[p]);
        proof {
            assert(out@ + name_from(d@, p as nat + 1, end as nat) =~= out@.drop_last() + (seq![d@[p as int]] + name_from(d@, p as nat + 1, end as nat)));
        }
        p = p + 1;
    }
    proof {
        assert(out@ + Seq::<u8>::empty() =~= out@);
    }
    out
}

fn contains_slash(s: &Vec<u8>) -> (r: bool)
    ensures
        r == s@.contains(SLASH),
{
    let mut i: usize = 0;
    while i < s.len()
        invariant
            i <= s@.len(),
            forall|j: int| 0 <= j < i ==> s@[j] != SLASH,
        decreases s@.len() - i,
    {
        if s[i] == SLASH {
            return true;
        }
        i = i + 1;
    }
    false
}

fn join_exec(parent: &Vec<u8>, name: &Vec<u8>) -> (r: Vec<u8>)
    ensures
        r@ == join(parent@, name@),
{
    if parent.len() == 0 {
        return vstd::slice::slice_to_vec(name.as_slice());
    }
    let mut out = vstd::slice::slice_to_vec(parent.as_slice());
    out.push(SLASH);
    let mut i: usize = 0;
    while i < name.len()
        invariant
            i <= name@.len(),
            out@ == parent@ + seq![SLASH] + name@.subrange(0, i as int),
        decreases name@.len() - i,
    {
        out.push(name[i]);
        i = i + 1;
        proof {
            assert(out@ =~= parent@ + seq![SLASH] + name@.subrange(0, i as int));
        }
    }
    proof {
        assert(name@.subrange(0, name@.len() as int) =~= name@);
    }
    out
}

struct Frame {
    path: Vec<u8>,
    end: u64,
    ok: bool,
}

impl View for Frame {
    type V = FrameView;

    closed spec fn view(&self) -> FrameView {
        FrameView { path: self.path@, end: self.end as nat, ok: self.ok }
    }
}

spec fn frame_views(fs: Seq<Frame>) -> Seq<FrameView> {
    Seq::new(fs.len(), |k: int| fs[k]@)
}

fn close_frames_exec(frames: &mut Vec<Frame>, i: u64)
    ensures
        frame_views(final(frames)@) == close_frames(frame_views(old(frames)@), i as nat),
{
    while frames.len() > 0 && i as u128 + 1 == frames[frames.len() - 1].end as u128
        invariant
            close_frames(frame_views(frames@), i as nat) == close_frames(frame_views(old(frames)@), i as nat),
        decreases frames@.len(),
    {
        proof {
            assert(frame_views(frames@).drop_last() =~= frame_views(frames@.drop_last()));
        }
        frames.pop();
    }
}

/// Reads an archive held in memory into its path table: the root
/// directory first, then one entry per kept node in node order.
pub fn parse_arc_index(d: &[u8]) -> (r: Result<Vec<ArcEntry>, ArcError>)
    ensures
        match r {
            Ok(es) => spec_parse(d@) == Ok::<Seq<EntryView>, ArcError>(entry_views(es@)),
            Err(e) => spec_parse(d@) == Err::<Seq<EntryView>, ArcError>(e),
        },
{
    let len = d.len();
    if len < 0x20 {
        return Err(ArcError::TooSmall);
    }
    let o = match find_magic_exec(d) {
        Some(o) => o,
        None => return Err(ArcError::BadHeader),
    };
    if o > len - 16 {
        return Err(ArcError::BadHeader);
    }
    let root_off = be32_at(d, o + 4);
    if root_off > (len - o) as u64 || 12 > len - o - root_off as usize {
        return Err(ArcError::BadNodeBase);
    }
    let node_base = o + root_off as usize;
    let root_size = be32_at(d, node_base + 8);
    let wanted: u64 = if root_size == 0 {
        0
    } else {
        root_size - 1
    };
    let room: u64 = ((len - node_base - 12) / 12) as u64;
    let n: u64 = if wanted < room {
        wanted
    } else {
        room
    };
    let table_start = node_base + 12 + 12 * n as usize;
    let data_offset = be32_at(d, o + 12);
    let rel = (table_start - o) as u64;
    let size: u64 = if data_offset > rel {
        data_offset - rel
    } else {
        0
    };
    let table_end: usize = if size > (len - table_start) as u64 {
        len
    } else {
        table_start + size as usize
    };
    let ghost g = Geometry {
        start: o as nat,
        node_base: node_base as nat,
        n_nodes: n as nat,
        table_start: table_start as nat,
        table_end: table_end as nat,
    };
    proof {
        assert(spec_geometry(d@) == Ok::<Geometry, ArcError>(g));
    }
    let ghost total = spec_parse(d@);
    let mut frames: Vec<Frame> = Vec::new();
    frames.push(Frame { path: Vec::new(), end: root_size, ok: true });
    let mut entries: Vec<ArcEntry> = Vec::new();
    entries.push(ArcEntry { path: Vec::new(), offset: 0, size: 0, is_dir: true });
    proof {
        assert(frame_views(frames@) =~= seq![FrameView { path: Seq::empty(), end: root_size as nat, ok: true }]);
        assert(entry_views(entries@) =~= seq![root_entry()]);
    }
    let mut i: u64 = 1;
    while i <= n
        invariant
            spec_geometry(d@) == Ok::<Geometry, ArcError>(g),
            total == spec_parse(d@),
            g.n_nodes == n,
            g.start == o,
            g.node_base == node_base,
            g.table_start == table_start,
            g.table_end == table_end,
            table_end <= len == d@.len(),
            node_base + 12 + 12 * n <= len,
            1 <= i <= n + 1,
            Ok::<Seq<EntryView>, ArcError>(tree_from(d@, g, i as nat, frame_views(frames@), entry_views(entries@))) == total,
        decreases n + 1 - i,
    {
        let at = node_base + 12 * i as usize;
        let kind = be16_at(d, at);
        let name_off = be16_at(d, at + 2);
        let data_off = be32_at(d, at + 4);
        let nsize = be32_at(d, at + 8);
        let name_at: usize = if name_off as usize > table_end - table_start {
            table_end
        } else {
            table_start + name_off as usize
        };
        let name = name_exec(d, name_at, table_end);
        proof {
            if name_off as usize > table_end - table_start {
                assert(name_from(d@, (table_start + name_off) as nat, table_end as nat) == Seq::<u8>::empty());
            }
        }
        let (parent, parent_ok) = if frames.len() == 0 {
            (Vec::new(), true)
        } else {
            let top = &frames[frames.len() - 1];
            (vstd::slice::slice_to_vec(top.path.as_slice()), top.ok)
        };
        let path = join_exec(&parent, &name);
        let ok = parent_ok && !contains_slash(&name);
        let ghost fv = frame_views(frames@);
        let ghost ev = entry_views(entries@);
        if kind == 0x100 {
            if ok {
                entries.push(ArcEntry { path: vstd::slice::slice_to_vec(path.as_slice()), offset: 0, size: 0, is_dir: true });
            }
            frames.push(Frame { path, end: nsize, ok });
        } else if kind == 0 && ok && data_off <= (len - o) as u64 && nsize <= (len - o) as u64 - data_off {
            entries.push(ArcEntry { path, offset: (o as u64 + data_off), size: nsize, is_dir: false });
        }
        proof {
            assert(frame_views(frames@) =~= (if kind == 0x100 {
                fv.push(FrameView { path: join(if fv.len() == 0 { Seq::empty() } else { fv.last().path }, name@), end: nsize as nat, ok })
            } else {
                fv
            }));
            assert(entry_views(entries@) =~= (if kind == 0x100 && ok {
                ev.push(EntryView { path: join(if fv.len() == 0 { Seq::empty() } else { fv.last().path }, name@), offset: 0, size: 0, is_dir: true })
            } else if kind == 0 && ok && o + data_off + nsize <= len {
                ev.push(EntryView { path: join(if fv.len() == 0 { Seq::empty() } else { fv.last().path }, name@), offset: (o + data_off) as u64, size: nsize, is_dir: false })
            } else {
                ev
            }));
        }
        close_frames_exec(&mut frames, i);
        i = i + 1;
    }
    Ok(entries)
}

} // verus!

verus! {

proof fn lemma_last_slash_join(parent: Seq<u8>, name: Seq<u8>)
    requires
        !name.contains(SLASH),
    ensures
        last_slash(parent + seq![SLASH] + name) == parent.len(),
    decreases name.len(),
{
    let p = parent + seq![SLASH] + name;
    if name.len() == 0 {
        assert(p =~= parent.push(SLASH));
    } else {
        assert(p.last() == name.last());
        assert(name.last() != SLASH) by {
            if name.last() == SLASH {
                assert(name[name.len() - 1] == SLASH);
            }
        }
        assert(p.drop_last() =~= parent + seq![SLASH] + name.drop_last());
        assert(!name.drop_last().contains(SLASH)) by {
            if name.drop_last().contains(SLASH) {
                let k = choose|k: int| 0 <= k < name.drop_last().len() && name.drop_last()[k] == SLASH;
                assert(name[k] == SLASH);
            }
        }
        lemma_last_slash_join(parent, name.drop_last());
    }
}

proof fn lemma_close_prefix(frames: Seq<FrameView>, i: nat)
    ensures
        close_frames(frames, i).len() <= frames.len(),
        forall|k: int|
            0 <= k < close_frames(frames, i).len() ==> #[trigger] close_frames(frames, i)[k]
                == frames[k],
    decreases frames.len(),
{
    if frames.len() > 0 && i + 1 == frames.last().end {
        lemma_close_prefix(frames.drop_last(), i);
    }
}

/// The reconstruction's running state: the root entry leads, every entry
/// has its parent directory, and every kept open directory has its entry.
spec fn tree_inv(frames: Seq<FrameView>, entries: Seq<EntryView>) -> bool {
    &&& entries.len() >= 1
    &&& entries[0] == root_entry()
    &&& parents_present(entries)
    &&& forall|f: int|
        0 <= f < frames.len() && (#[trigger] frames[f]).ok ==> exists|j: int|
            0 <= j < entries.len() && entries[j].is_dir && entries[j].path == frames[f].path
}

proof fn lemma_new_entry_has_parent(
    frames: Seq<FrameView>,
    entries: Seq<EntryView>,
    name: Seq<u8>,
    e: EntryView,
)
    requires
        tree_inv(frames, entries),
        frames.len() == 0 || frames.last().ok,
        !name.contains(SLASH),
        e.path == join(if frames.len() == 0 { Seq::empty() } else { frames.last().path }, name),
    ensures
        parents_present(entries.push(e)),
{
    let es = entries.push(e);
    let parent = if frames.len() == 0 { Seq::<u8>::empty() } else { frames.last().path };
    assert forall|i: int|
        0 <= i < es.len() && (#[trigger] es[i]).path.contains(SLASH) implies exists|j: int|
            0 <= j < es.len() && es[j].is_dir && es[j].path == parent_path(es[i].path) by {
        if i < entries.len() {
            assert(es[i] == entries[i]);
            let j = choose|j: int|
                0 <= j < entries.len() && entries[j].is_dir && entries[j].path == parent_path(
                    entries[i].path,
                );
            assert(es[j] == entries[j]);
        } else {
            assert(es[i] == e);
            if parent.len() == 0 {
                assert(e.path == name);
            } else {
                lemma_last_slash_join(parent, name);
                assert(parent_path(e.path) =~= parent);
                let f = frames.len() - 1;
                assert(frames[f].ok);
                let j = choose|j: int|
                    0 <= j < entries.len() && entries[j].is_dir && entries[j].path == frames[f].path;
                assert(es[j] == entries[j]);
            }
        }
    }
}

proof fn lemma_tree_keeps_parents(
    d: Seq<u8>,
    g: Geometry,
    i: nat,
    frames: Seq<FrameView>,
    entries: Seq<EntryView>,
)
    requires
        tree_inv(frames, entries),
    ensures
        parents_present(tree_from(d, g, i, frames, entries)),
    decreases g.n_nodes + 1 - i,
{
    if i > g.n_nodes || i == 0 {
    } else {
        let (kind, name_off, data_off, size) = node_at(d, g, i);
        let name = name_from(d, g.table_start + name_off, g.table_end);
        let parent = if frames.len() == 0 { Seq::empty() } else { frames.last().path };
        let parent_ok = frames.len() == 0 || frames.last().ok;
        let path = join(parent, name);
        let ok = parent_ok && !name.contains(SLASH);
        let (frames1, entries1) = if kind == 0x100 {
            (
                frames.push(FrameView { path, end: size, ok }),
                if ok {
                    entries.push(EntryView { path, offset: 0, size: 0, is_dir: true })
                } else {
                    entries
                },
            )
        } else if kind == 0 && ok && g.start + data_off + size <= d.len() {
            (
                frames,
                entries.push(
                    EntryView {
                        path,
                        offset: (g.start + data_off) as u64,
                        size: size as u64,
                        is_dir: false,
                    },
                ),
            )
        } else {
            (frames, entries)
        };
        if entries1 != entries {
            lemma_new_entry_has_parent(frames, entries, name, entries1.last());
            assert(entries1 == entries.push(entries1.last()));
        }
        assert(entries1[0] == entries[0]);
        assert forall|f: int|
            0 <= f < frames1.len() && (#[trigger] frames1[f]).ok implies exists|j: int|
                0 <= j < entries1.len() && entries1[j].is_dir && entries1[j].path
                    == frames1[f].path by {
            if f < frames.len() {
                assert(frames1[f] == frames[f]);
                let j = choose|j: int|
                    0 <= j < entries.len() && entries[j].is_dir && entries[j].path
                        == frames[f].path;
                assert(entries1[j] == entries[j]);
            } else {
                assert(entries1[entries1.len() - 1].path == frames1[f].path);
            }
        }
        let frames2 = close_frames(frames1, i);
        lemma_close_prefix(frames1, i);
        assert forall|f: int|
            0 <= f < frames2.len() && (#[trigger] frames2[f]).ok implies exists|j: int|
                0 <= j < entries1.len() && entries1[j].is_dir && entries1[j].path
                    == frames2[f].path by {
            assert(frames2[f] == frames1[f]);
        }
        lemma_tree_keeps_parents(d, g, i + 1, frames2, entries1);
    }
}

/// In the path table of any archive, every entry whose path holds `/` has
/// the path with its last segment removed present as a directory entry.
pub proof fn lemma_archive_parents_present(d: Seq<u8>)
    ensures
        spec_parse(d) matches Ok(es) ==> parents_present(es),
{
    if let Ok(g) = spec_geometry(d) {
        let root_size = be32(d, (g.node_base + 8) as int);
        let frames = seq![FrameView { path: Seq::empty(), end: root_size, ok: true }];
        let entries = seq![root_entry()];
        assert(frames[0].ok && entries[0].is_dir && entries[0].path == frames[0].path);
        assert(!entries[0].path.contains(SLASH));
        lemma_tree_keeps_parents(d, g, 1, frames, entries);
    }
}

} // verus!

verus! {

/// A directory of an opened archive: the archive and the directory's path.
pub struct ArcDir<'a, S: ByteSource> {
    fs: &'a ArcFs<S>,
    path: Vec<u8>,
}

impl<'a, S: ByteSource> ArcDir<'a, S> {
    /// The directory's path.
    pub closed spec fn spec_path(&self) -> Seq<u8> {
        self.path@
    }

    /// The path table of the archive.
    pub closed spec fn spec_entries(&self) -> Seq<EntryView> {
        self.fs.spec_entries()
    }

    /// The directory's path.
    pub fn path(&self) -> (r: &Vec<u8>)
        ensures
            r@ == self.spec_path(),
    {
        &self.path
    }

    /// Names directly under the directory, as `ArcFs::get_entries` gives them.
    pub fn get_entries(&self) -> (r: Vec<Vec<u8>>)
        ensures
            byte_views(r@) == listing(self.spec_entries(), self.spec_path()),
    {
        self.fs.entries_under(self.path.as_slice())
    }
}

/// Relies on `Arc::clone`: the new pointer shares the same value.
#[verifier::external_body]
fn share<S>(a: &Arc<S>) -> (r: Arc<S>)
    ensures
        *r == **a,
{
    Arc::clone(a)
}

/// What an entry's path must start with to lie under directory `dir`.
pub open spec fn dir_prefix(dir: Seq<u8>) -> Seq<u8> {
    if dir.len() == 0 {
        Seq::empty()
    } else {
        dir.push(SLASH)
    }
}

/// The name under which `e` is listed in directory `dir`, if it is a
/// direct child: directories carry a trailing `/`.
pub open spec fn listed_name(e: EntryView, dir: Seq<u8>) -> Option<Seq<u8>> {
    let pre = dir_prefix(dir);
    if has_prefix(e.path, pre) && e.path != dir {
        let rest = e.path.subrange(pre.len() as int, e.path.len() as int);
        if rest.len() > 0 && !rest.contains(SLASH) {
            Some(if e.is_dir { rest.push(SLASH) } else { rest })
        } else {
            None
        }
    } else {
        None
    }
}

/// The listing of directory `dir` over the entries `es`, in table order.
pub open spec fn listing(es: Seq<EntryView>, dir: Seq<u8>) -> Seq<Seq<u8>>
    decreases es.len(),
{
    if es.len() == 0 {
        Seq::empty()
    } else {
        let l = listing(es.drop_last(), dir);
        match listed_name(es.last(), dir) {
            Some(n) => l.push(n),
            None => l,
        }
    }
}

/// Index of the first entry at or after `k` that is a file (or, with
/// `want_dir`, a directory) at `path`.
pub open spec fn find_entry(es: Seq<EntryView>, path: Seq<u8>, want_dir: bool, k: nat) -> Option<nat>
    decreases es.len() - k,
{
    if k >= es.len() {
        None
    } else if es[k as int].is_dir == want_dir && es[k as int].path == path {
        Some(k)
    } else {
        find_entry(es, path, want_dir, k + 1)
    }
}

/// The views of a list of byte strings.
pub open spec fn byte_views(v: Seq<Vec<u8>>) -> Seq<Seq<u8>> {
    Seq::new(v.len(), |k: int| v[k]@)
}

/// A U8 archive opened over a shared source: the source and its path table.
pub struct ArcFs<S: ByteSource> {
    source: Arc<S>,
    entries: Vec<ArcEntry>,
}

/// The name of `e` in directory `dir`, computed.
fn listed_name_exec(e: &ArcEntry, dir: &[u8]) -> (r: Option<Vec<u8>>)
    ensures
        match r {
            Some(n) => listed_name(e@, dir@) == Some(n@),
            None => listed_name(e@, dir@) is None,
        },
{
    let p = e.path.as_slice();
    if dir.len() > 0 && dir.len() >= p.len() {
        return None;
    }
    let pre_len = if dir.len() == 0 {
        0
    } else {
        dir.len() + 1
    };
    let mut i: usize = 0;
    while i < dir.len()
        invariant
            pre_len <= p@.len(),
            pre_len as int == dir_prefix(dir@).len(),
            p@ == e@.path,
            dir@.len() < pre_len || dir@.len() == 0,
            i <= dir@.len(),
            forall|k: int| 0 <= k < i ==> p@[k] == dir@[k],
        decreases dir@.len() - i,
    {
        if p[i] != dir[i] {
            proof {
                assert(p@.subrange(0, dir_prefix(dir@).len() as int)[i as int] != dir_prefix(dir@)[i as int]);
            }
            return None;
        }
        i = i + 1;
    }
    if dir.len() > 0 && p[dir.len()] != SLASH {
        proof {
            assert(p@.subrange(0, dir_prefix(dir@).len() as int)[dir@.len() as int] != dir_prefix(dir@)[dir@.len() as int]);
        }
        return None;
    }
    proof {
        assert(p@.subrange(0, pre_len as int) =~= dir_prefix(dir@));
    }
    if bytes_equal(p, dir) {
        return None;
    }
    let mut rest: Vec<u8> = Vec::new();
    let mut j = pre_len;
    while j < p.len()
        invariant
            pre_len <= j <= p@.len(),
            pre_len as int == dir_prefix(dir@).len(),
            p@ == e@.path,
            has_prefix(p@, dir_prefix(dir@)),
            p@ != dir@,
            rest@ == p@.subrange(pre_len as int, j as int),
            forall|k: int| 0 <= k < rest@.len() ==> rest@[k] != SLASH,
        decreases p@.len() - j,
    {
        if p[j] == SLASH {
            proof {
                let full = p@.subrange(pre_len as int, p@.len() as int);
                assert(full[j - pre_len] == SLASH);
            }
            return None;
        }
        rest.push(p[j]);
        j = j + 1;
        proof {
            assert(rest@ =~= p@.subrange(pre_len as int, j as int));
        }
    }
    proof {
        let full = p@.subrange(pre_len as int, p@.len() as int);
        assert(rest@ == full);
        assert(!full.contains(SLASH)) by {
            if full.contains(SLASH) {
                let k = choose|k: int| 0 <= k < full.len() && full[k] == SLASH;
                assert(rest@[k] == SLASH);
            }
        }
    }
    if rest.len() == 0 {
        return None;
    }
    if e.is_dir {
        rest.push(SLASH);
    }
    Some(rest)
}

impl<S: ByteSource> ArcFs<S> {
    /// The path table.
    pub closed spec fn spec_entries(&self) -> Seq<EntryView> {
        entry_views(self.entries@)
    }

    /// The bytes of the archive.
    pub closed spec fn spec_source(&self) -> Seq<u8> {
        self.source.spec_bytes()
    }

    /// The table is the one the source's bytes give.
    pub closed spec fn wf(&self) -> bool {
        spec_parse(self.source.spec_bytes()) == Ok::<Seq<EntryView>, ArcError>(entry_views(self.entries@))
    }

    /// Opens the archive that `source` holds.
    pub fn new(source: Arc<S>) -> (r: Result<ArcFs<S>, ArcError>)
        ensures
            match r {
                Ok(fs) => fs.wf() && fs.spec_source() == source.spec_bytes() && spec_parse(source.spec_bytes())
                    == Ok::<Seq<EntryView>, ArcError>(fs.spec_entries()),
                Err(e) => e == ArcError::TooLarge && source.spec_bytes().len() > usize::MAX
                    || spec_parse(source.spec_bytes()) == Err::<Seq<EntryView>, ArcError>(e),
            },
    {
        let len = source.len();
        if len > usize::MAX as u64 {
            return Err(ArcError::TooLarge);
        }
        let data = source.read_range(0, len as usize);
        proof {
            assert(data@ =~= source.spec_bytes());
        }
        match parse_arc_index(data.as_slice()) {
            Ok(entries) => Ok(ArcFs { source, entries }),
            Err(e) => Err(e),
        }
    }

    /// Names directly under directory `path` ("" for the root), in table
    /// order; directory names end in `/`.
    pub fn get_entries(&self, path: &str) -> (r: Vec<Vec<u8>>)
        ensures
            byte_views(r@) == listing(self.spec_entries(), path.spec_bytes()),
    {
        self.entries_under(path.as_bytes())
    }

    /// The listing of directory `dir`.
    fn entries_under(&self, dir: &[u8]) -> (r: Vec<Vec<u8>>)
        ensures
            byte_views(r@) == listing(self.spec_entries(), dir@),
    {
        let mut out: Vec<Vec<u8>> = Vec::new();
        let mut k: usize = 0;
        while k < self.entries.len()
            invariant
                k <= self.entries@.len(),
                byte_views(out@) == listing(entry_views(self.entries@).subrange(0, k as int), dir@),
            decreases self.entries@.len() - k,
        {
            match listed_name_exec(&self.entries[k], dir) {
                Some(n) => out.push(n),
                None => {},
            }
            proof {
                let es = entry_views(self.entries@);
                assert(es.subrange(0, k + 1).drop_last() =~= es.subrange(0, k as int));
                assert(byte_views(out@) =~= listing(es.subrange(0, k + 1), dir@));
            }
            k = k + 1;
        }
        proof {
            assert(entry_views(self.entries@).subrange(0, self.entries@.len() as int) =~= entry_views(self.entries@));
        }
        out
    }

    /// A handle on directory `path`, when there is one.
    pub fn get_dir(&self, path: &str) -> (r: Option<ArcDir<'_, S>>)
        ensures
            match r {
                Some(d) => find_entry(self.spec_entries(), path.spec_bytes(), true, 0) is Some
                    && d.spec_path() == path.spec_bytes(),
                None => find_entry(self.spec_entries(), path.spec_bytes(), true, 0) is None,
            },
    {
        if self.find(path.as_bytes(), true).is_some() {
            Some(ArcDir { fs: self, path: vstd::slice::slice_to_vec(path.as_bytes()) })
        } else {
            None
        }
    }

    /// Index of the first entry of the kind wanted at `path`.
    fn find(&self, path: &[u8], want_dir: bool) -> (r: Option<usize>)
        ensures
            match r {
                Some(k) => find_entry(self.spec_entries(), path@, want_dir, 0) == Some(k as nat),
                None => find_entry(self.spec_entries(), path@, want_dir, 0) is None,
            },
            r matches Some(k) ==> k < self.entries@.len(),
    {
        let mut k: usize = 0;
        while k < self.entries.len()
            invariant
                k <= self.entries@.len(),
                find_entry(self.spec_entries(), path@, want_dir, k as nat) == find_entry(
                    self.spec_entries(),
                    path@,
                    want_dir,
                    0,
                ),
            decreases self.entries@.len() - k,
        {
            let e = &self.entries[k];
            if e.is_dir == want_dir && bytes_equal(e.path.as_slice(), path) {
                return Some(k);
            }
            k = k + 1;
        }
        None
    }

    /// Whether a file lies at `path`.
    pub fn file_exists(&self, path: &str) -> (r: bool)
        ensures
            r == find_entry(self.spec_entries(), path.spec_bytes(), false, 0) is Some,
    {
        self.find(path.as_bytes(), false).is_some()
    }

    /// Whether a directory lies at `path` ("" is the root).
    pub fn dir_exists(&self, path: &str) -> (r: bool)
        ensures
            r == find_entry(self.spec_entries(), path.spec_bytes(), true, 0) is Some,
    {
        self.find(path.as_bytes(), true).is_some()
    }

    /// The size of the file at `path`, or 0 when there is none.
    pub fn get_file_size(&self, path: &str) -> (r: u64)
        ensures
            r == match find_entry(self.spec_entries(), path.spec_bytes(), false, 0) {
                Some(k) => self.spec_entries()[k as int].size,
                None => 0,
            },
    {
        match self.find(path.as_bytes(), false) {
            Some(k) => self.entries[k].size,
            None => 0,
        }
    }

    /// A view of the file at `path`: a window onto the archive's source,
    /// with no bytes copied.
    pub fn get_file(&self, path: &str) -> (r: Option<SubrangeSource<S>>)
        ensures
            match find_entry(self.spec_entries(), path.spec_bytes(), false, 0) {
                Some(k) => r matches Some(f) && f.spec_parent() == self.spec_source()
                    && f.spec_base() == self.spec_entries()[k as int].offset && f.spec_length()
                    == self.spec_entries()[k as int].size,
                None => r is None,
            },
    {
        match self.find(path.as_bytes(), false) {
            Some(k) => {
                let e = &self.entries[k];
                Some(SubrangeSource::new(share(&self.source), e.offset, e.size))
            },
            None => None,
        }
    }
}

} // verus!

verus! {

/// One item of an in-memory archive: its path, and its bytes for a file
/// (`None` for a directory).
pub open spec fn item_view(item: &(Vec<u8>, Option<Vec<u8>>)) -> (Seq<u8>, Option<Seq<u8>>) {
    (
        item.0@,
        match &item.1 {
            Some(v) => Some(v@),
            None => None,
        },
    )
}

/// The views of a list of items.
pub open spec fn item_views(v: Seq<(Vec<u8>, Option<Vec<u8>>)>) -> Seq<(Seq<u8>, Option<Seq<u8>>)> {
    Seq::new(v.len(), |k: int| item_view(&v[k]))
}

/// The item that a path table entry stands for in archive `d`.
pub open spec fn entry_item(d: Seq<u8>, e: EntryView) -> (Seq<u8>, Option<Seq<u8>>) {
    (
        e.path,
        if e.is_dir {
            None
        } else {
            Some(d.subrange(e.offset as int, e.offset + e.size))
        },
    )
}

/// Index of the first item at `key` from `k` on.
pub open spec fn find_item(items: Seq<(Seq<u8>, Option<Seq<u8>>)>, key: Seq<u8>, k: nat) -> Option<nat>
    decreases items.len() - k,
{
    if k >= items.len() {
        None
    } else if items[k as int].0 == key {
        Some(k)
    } else {
        find_item(items, key, k + 1)
    }
}

/// The paths below directory `key`, with `key/` stripped, in item order.
pub open spec fn below(items: Seq<(Seq<u8>, Option<Seq<u8>>)>, key: Seq<u8>) -> Seq<Seq<u8>>
    decreases items.len(),
{
    if items.len() == 0 {
        Seq::empty()
    } else {
        let l = below(items.drop_last(), key);
        let p = items.last().0;
        let pre = key.push(SLASH);
        if has_prefix(p, pre) {
            l.push(p.subrange(pre.len() as int, p.len() as int))
        } else {
            l
        }
    }
}

/// An archive held in memory as a list of items in node order.
pub struct U8Arc {
    files: Vec<(Vec<u8>, Option<Vec<u8>>)>,
}

impl U8Arc {
    /// The items.
    pub closed spec fn spec_files(&self) -> Seq<(Seq<u8>, Option<Seq<u8>>)> {
        item_views(self.files@)
    }

    /// An archive with no items.
    pub fn new() -> (r: Self)
        ensures
            r.spec_files() == Seq::<(Seq<u8>, Option<Seq<u8>>)>::empty(),
    {
        let r = U8Arc { files: Vec::new() };
        proof {
            assert(r.spec_files() =~= Seq::<(Seq<u8>, Option<Seq<u8>>)>::empty());
        }
        r
    }

    /// The items, paths and contents, in order.
    pub fn files(&self) -> (r: &Vec<(Vec<u8>, Option<Vec<u8>>)>)
        ensures
            item_views(r@) == self.spec_files(),
    {
        &self.files
    }

    /// Appends the items of the archive `data`: every entry of its path
    /// table but the root, files with a copy of their bytes.
    pub fn load(&mut self, data: &[u8]) -> (r: Result<(), ArcError>)
        ensures
            match r {
                Ok(()) => spec_parse(data@) is Ok && final(self).spec_files() == old(self).spec_files()
                    + Seq::new(
                    (spec_parse(data@)->Ok_0.len() - 1) as nat,
                    |k: int| entry_item(data@, spec_parse(data@)->Ok_0[k + 1]),
                ),
                Err(e) => spec_parse(data@) == Err::<Seq<EntryView>, ArcError>(e)
                    && final(self).spec_files() == old(self).spec_files(),
            },
    {
        let entries = match parse_arc_index(data) {
            Ok(es) => es,
            Err(e) => return Err(e),
        };
        let _n = data.len();
        proof {
            lemma_archive_ranges(data@);
        }
        let ghost es = entry_views(entries@);
        let ghost start = self.spec_files();
        let mut k: usize = 1;
        while k < entries.len()
            invariant
                spec_parse(data@) == Ok::<Seq<EntryView>, ArcError>(es),
                es == entry_views(entries@),
                es.len() >= 1,
                data@.len() <= usize::MAX,
                1 <= k <= es.len(),
                forall|j: int| 0 <= j < es.len() && !(#[trigger] es[j]).is_dir ==> es[j].offset + es[j].size <= data@.len(),
                self.spec_files() == start + Seq::new(
                    (k - 1) as nat,
                    |j: int| entry_item(data@, es[j + 1]),
                ),
            decreases es.len() - k,
        {
            let e = &entries[k];
            proof {
                assert(es[k as int] == e@);
            }
            let item = if e.is_dir {
                (vstd::slice::slice_to_vec(e.path.as_slice()), None)
            } else {
                proof {
                    assert(!es[k as int].is_dir);
                    assert(es[k as int].offset + es[k as int].size <= data@.len());
                }
                (
                    vstd::slice::slice_to_vec(e.path.as_slice()),
                    Some(copy_bytes(data, e.offset as usize, (e.offset + e.size) as usize)),
                )
            };
            proof {
                assert(item_view(&item) == entry_item(data@, es[k as int]));
            }
            let ghost before = self.files@;
            self.files.push(item);
            proof {
                assert(self.files@ == before.push(item));
                assert(self.spec_files()[self.spec_files().len() - 1] == item_view(&item));
                assert forall|j: int| 0 <= j < before.len() implies self.spec_files()[j] == item_views(before)[j] by {
                    assert(self.files@[j] == before[j]);
                }
                assert(self.spec_files() =~= item_views(before).push(item_view(&item)));
                assert(self.spec_files() =~= start + Seq::new(
                    k as nat,
                    |j: int| entry_item(data@, es[j + 1]),
                ));
            }
            k = k + 1;
        }
        Ok(())
    }

    /// The bytes of the first item at `key`, if it is a file.
    pub fn get(&self, key: &str) -> (r: Option<&Vec<u8>>)
        ensures
            match find_item(self.spec_files(), key.spec_bytes(), 0) {
                None => r is None,
                Some(k) => match self.spec_files()[k as int].1 {
                    None => r is None,
                    Some(b) => r matches Some(v) && v@ == b,
                },
            },
    {
        match self.find(key.as_bytes()) {
            None => None,
            Some(k) => match &self.files[k].1 {
                Some(v) => Some(v),
                None => None,
            },
        }
    }

    fn find_dir_index(&self, key: &[u8]) -> (r: Option<usize>)
        ensures
            match r {
                Some(k) => find_dir(self.spec_files(), key@, 0) == Some(k as nat),
                None => find_dir(self.spec_files(), key@, 0) is None,
            },
    {
        let mut k: usize = 0;
        while k < self.files.len()
            invariant
                k <= self.files@.len(),
                find_dir(self.spec_files(), key@, k as nat) == find_dir(self.spec_files(), key@, 0),
            decreases self.files@.len() - k,
        {
            if self.files[k].1.is_none() && bytes_equal(self.files[k].0.as_slice(), key) {
                return Some(k);
            }
            k = k + 1;
        }
        None
    }

    fn find(&self, key: &[u8]) -> (r: Option<usize>)
        ensures
            match r {
                Some(k) => find_item(self.spec_files(), key@, 0) == Some(k as nat) && k < self.files@.len(),
                None => find_item(self.spec_files(), key@, 0) is None,
            },
    {
        let mut k: usize = 0;
        while k < self.files.len()
            invariant
                k <= self.files@.len(),
                find_item(self.spec_files(), key@, k as nat) == find_item(self.spec_files(), key@, 0),
            decreases self.files@.len() - k,
        {
            if bytes_equal(self.files[k].0.as_slice(), key) {
                return Some(k);
            }
            k = k + 1;
        }
        None
    }

    /// The paths below the first item at `key`, if it is a directory, with
    /// `key/` stripped; every depth is included.
    pub fn get_dir(&self, key: &str) -> (r: Option<Vec<Vec<u8>>>)
        ensures
            match find_dir(self.spec_files(), key.spec_bytes(), 0) {
                None => r is None,
                Some(_) => r matches Some(v) && byte_views(v@) == below(self.spec_files(), key.spec_bytes()),
            },
    {
        let kb = key.as_bytes();
        if self.find_dir_index(kb).is_none() {
            return None;
        }
        let mut pre = vstd::slice::slice_to_vec(kb);
        pre.push(SLASH);
        let mut out: Vec<Vec<u8>> = Vec::new();
        let mut j: usize = 0;
        while j < self.files.len()
            invariant
                j <= self.files@.len(),
                pre@ == kb@.push(SLASH),
                byte_views(out@) == below(self.spec_files().subrange(0, j as int), kb@),
            decreases self.files@.len() - j,
        {
            let p = self.files[j].0.as_slice();
            let ghost fs = self.spec_files().subrange(0, j + 1);
            proof {
                assert(fs.drop_last() =~= self.spec_files().subrange(0, j as int));
                assert(fs.last().0 == p@);
            }
            if p.len() >= pre.len() && bytes_equal(copy_bytes(p, 0, pre.len()).as_slice(), pre.as_slice()) {
                out.push(copy_bytes(p, pre.len(), p.len()));
            }
            proof {
                assert(byte_views(out@) =~= below(fs, kb@));
            }
            j = j + 1;
        }
        proof {
            assert(self.spec_files().subrange(0, self.files@.len() as int) =~= self.spec_files());
        }
        Some(out)
    }

    /// Appends a directory item.
    pub fn add_dir(&mut self, key: &str)
        ensures
            final(self).spec_files() == old(self).spec_files().push((key.spec_bytes(), None)),
    {
        let ghost before = self.spec_files();
        self.files.push((vstd::slice::slice_to_vec(key.as_bytes()), None));
        proof {
            assert(self.spec_files() =~= before.push((key.spec_bytes(), None)));
        }
    }

    /// Appends a file item.
    pub fn add_file(&mut self, key: &str, value: Vec<u8>)
        ensures
            final(self).spec_files() == old(self).spec_files().push((key.spec_bytes(), Some(value@))),
    {
        let ghost before = self.spec_files();
        self.files.push((vstd::slice::slice_to_vec(key.as_bytes()), Some(value)));
        proof {
            assert(self.spec_files() =~= before.push((key.spec_bytes(), Some(value@))));
        }
    }

    /// Sets the bytes of the first item at `key`, or appends a file item.
    pub fn set(&mut self, key: &str, value: Vec<u8>)
        ensures
            final(self).spec_files() == match find_item(old(self).spec_files(), key.spec_bytes(), 0) {
                Some(k) => old(self).spec_files().update(k as int, (key.spec_bytes(), Some(value@))),
                None => old(self).spec_files().push((key.spec_bytes(), Some(value@))),
            },
    {
        let kb = key.as_bytes();
        let ghost before = self.spec_files();
        match self.find(kb) {
            Some(k) => {
                let path = vstd::slice::slice_to_vec(kb);
                self.files.set(k, (path, Some(value)));
                proof {
                    assert(self.spec_files() =~= before.update(k as int, (key.spec_bytes(), Some(value@))));
                }
            },
            None => {
                self.files.push((vstd::slice::slice_to_vec(kb), Some(value)));
                proof {
                    assert(self.spec_files() =~= before.push((key.spec_bytes(), Some(value@))));
                }
            },
        }
    }
}

/// Every file entry's range lies inside the data, and the table is not empty.
pub open spec fn ranges_inside(d: Seq<u8>, es: Seq<EntryView>) -> bool {
    &&& es.len() >= 1
    &&& forall|j: int| 0 <= j < es.len() && !(#[trigger] es[j]).is_dir ==> es[j].offset + es[j].size <= d.len()
}

proof fn lemma_tree_ranges(d: Seq<u8>, g: Geometry, i: nat, frames: Seq<FrameView>, entries: Seq<EntryView>)
    requires
        ranges_inside(d, entries),
        d.len() <= usize::MAX,
    ensures
        ranges_inside(d, tree_from(d, g, i, frames, entries)),
    decreases g.n_nodes + 1 - i,
{
    if i > g.n_nodes || i == 0 {
    } else {
        let (kind, name_off, data_off, size) = node_at(d, g, i);
        let name = name_from(d, g.table_start + name_off, g.table_end);
        let parent = if frames.len() == 0 { Seq::empty() } else { frames.last().path };
        let parent_ok = frames.len() == 0 || frames.last().ok;
        let path = join(parent, name);
        let ok = parent_ok && !name.contains(SLASH);
        let (frames1, entries1) = if kind == 0x100 {
            (
                frames.push(FrameView { path, end: size, ok }),
                if ok {
                    entries.push(EntryView { path, offset: 0, size: 0, is_dir: true })
                } else {
                    entries
                },
            )
        } else if kind == 0 && ok && g.start + data_off + size <= d.len() {
            (
                frames,
                entries.push(
                    EntryView {
                        path,
                        offset: (g.start + data_off) as u64,
                        size: size as u64,
                        is_dir: false,
                    },
                ),
            )
        } else {
            (frames, entries)
        };
        assert(ranges_inside(d, entries1)) by {
            assert forall|j: int| 0 <= j < entries1.len() && !(#[trigger] entries1[j]).is_dir implies entries1[j].offset
                + entries1[j].size <= d.len() by {
                if j < entries.len() {
                    assert(entries1[j] == entries[j]);
                }
            }
        }
        lemma_tree_ranges(d, g, i + 1, close_frames(frames1, i), entries1);
    }
}

proof fn lemma_archive_ranges(d: Seq<u8>)
    requires
        d.len() <= usize::MAX,
    ensures
        spec_parse(d) matches Ok(es) ==> ranges_inside(d, es),
{
    if let Ok(g) = spec_geometry(d) {
        let root_size = be32(d, (g.node_base + 8) as int);
        lemma_tree_ranges(
            d,
            g,
            1,
            seq![FrameView { path: Seq::empty(), end: root_size, ok: true }],
            seq![root_entry()],
        );
    }
}

/// Index of the first directory item at `key` from `k` on.
pub open spec fn find_dir(items: Seq<(Seq<u8>, Option<Seq<u8>>)>, key: Seq<u8>, k: nat) -> Option<nat>
    decreases items.len() - k,
{
    if k >= items.len() {
        None
    } else if items[k as int].0 == key && items[k as int].1 is None {
        Some(k)
    } else {
        find_dir(items, key, k + 1)
    }
}

} // verus!

verus! {

/// The last segment of `p`: what follows its last `/`.
pub open spec fn seg_name(p: Seq<u8>) -> Seq<u8> {
    p.subrange(last_slash(p) + 1, p.len() as int)
}

/// Number of `/` in `p`.
pub open spec fn slash_count(p: Seq<u8>) -> nat
    decreases p.len(),
{
    if p.len() == 0 {
        0
    } else {
        slash_count(p.drop_last()) + if p.last() == SLASH { 1nat } else { 0nat }
    }
}

/// `x` rounded up to a multiple of `b`.
pub open spec fn align_up(x: nat, b: nat) -> nat {
    ((x + b - 1) / (b as int) * b) as nat
}

/// The name table for the first `k` items: a NUL, then each item's last
/// segment followed by a NUL.
pub open spec fn names_blob(items: Seq<(Seq<u8>, Option<Seq<u8>>)>, k: nat) -> Seq<u8>
    decreases k,
{
    if k == 0 {
        seq![0u8]
    } else {
        names_blob(items, (k - 1) as nat) + seg_name(items[k - 1].0) + seq![0u8]
    }
}

/// A file's bytes, padded with zeros to a multiple of 32.
pub open spec fn file_chunk(d: Seq<u8>) -> Seq<u8> {
    d + Seq::new((align_up(d.len(), 32) - d.len()) as nat, |i: int| 0u8)
}

/// The data section for the first `k` items.
pub open spec fn data_blob(items: Seq<(Seq<u8>, Option<Seq<u8>>)>, k: nat) -> Seq<u8>
    decreases k,
{
    if k == 0 {
        Seq::empty()
    } else {
        data_blob(items, (k - 1) as nat) + match items[k - 1].1 {
            Some(d) => file_chunk(d),
            None => Seq::empty(),
        }
    }
}

/// Number of the first `k` items whose path starts with `p`.
pub open spec fn prefix_count(items: Seq<(Seq<u8>, Option<Seq<u8>>)>, p: Seq<u8>, k: nat) -> nat
    decreases k,
{
    if k == 0 {
        0
    } else {
        prefix_count(items, p, (k - 1) as nat) + if has_prefix(items[k - 1].0, p) { 1nat } else { 0nat }
    }
}

/// Big-endian bytes of `v` in `w` bytes.
pub open spec fn be(v: nat, w: nat) -> Seq<u8> {
    crate::cursor::encode_uint(v as u64, w, true)
}

/// The node record of item `k`, with file data placed from `base`.
pub open spec fn node_record(items: Seq<(Seq<u8>, Option<Seq<u8>>)>, k: nat, base: nat) -> Seq<u8> {
    let (p, v) = items[k as int];
    let name_off = names_blob(items, k).len();
    match v {
        None => be(0x100, 2) + be(name_off, 2) + be(slash_count(p), 4) + be(
            k + 1 + prefix_count(items, p, items.len()),
            4,
        ),
        Some(d) => be(0, 2) + be(name_off, 2) + be(data_blob(items, k).len() + base, 4) + be(
            d.len(),
            4,
        ),
    }
}

/// The node records of the first `k` items.
pub open spec fn nodes_blob(items: Seq<(Seq<u8>, Option<Seq<u8>>)>, k: nat, base: nat) -> Seq<u8>
    decreases k,
{
    if k == 0 {
        Seq::empty()
    } else {
        nodes_blob(items, (k - 1) as nat, base) + node_record(items, (k - 1) as nat, base)
    }
}

/// The size of the header, node records and name table.
pub open spec fn dump_header_size(items: Seq<(Seq<u8>, Option<Seq<u8>>)>) -> nat {
    (items.len() + 1) * 12 + names_blob(items, items.len()).len()
}

/// Where the data section starts.
pub open spec fn dump_data_offset(items: Seq<(Seq<u8>, Option<Seq<u8>>)>) -> nat {
    align_up(dump_header_size(items) + 0x20, 64)
}

/// Whether the archive's offsets fit its fields: names within 64 KiB, the
/// whole within 4 GiB.
pub open spec fn dump_fits(items: Seq<(Seq<u8>, Option<Seq<u8>>)>) -> bool {
    names_blob(items, items.len()).len() <= 0xffff && dump_data_offset(items) + data_blob(
        items,
        items.len(),
    ).len() <= u32::MAX
}

/// The archive that holds `items` in order, under a root directory.
pub open spec fn spec_dump(items: Seq<(Seq<u8>, Option<Seq<u8>>)>) -> Seq<u8> {
    let n = items.len();
    let hs = dump_header_size(items);
    let base = dump_data_offset(items);
    let head = seq![0x55u8, 0xaa, 0x38, 0x2d] + be(0x20, 4) + be(hs, 4) + be(base, 4) + Seq::new(
        16,
        |i: int| 0u8,
    );
    let root = be(0x100, 2) + be(0, 2) + be(0, 4) + be(n + 1, 4);
    let body = head + root + nodes_blob(items, n, base) + names_blob(items, n);
    body + Seq::new((base - body.len()) as nat, |i: int| 0u8) + data_blob(items, n)
}

fn push_be(out: &mut Vec<u8>, v: u64, w: usize)
    requires
        w == 2 || w == 4,
    ensures
        final(out)@ == old(out)@ + crate::cursor::encode_uint(v, w as nat, true),
{
    let b = crate::cursor::encode_bytes(v, w, true);
    let mut i: usize = 0;
    let ghost start = out@;
    while i < b.len()
        invariant
            i <= b@.len(),
            out@ == start + b@.subrange(0, i as int),
        decreases b@.len() - i,
    {
        out.push(b[i]);
        i = i + 1;
        proof {
            assert(out@ =~= start + b@.subrange(0, i as int));
        }
    }
    proof {
        assert(b@.subrange(0, b@.len() as int) =~= b@);
    }
}

fn append_bytes(out: &mut Vec<u8>, b: &[u8])
    ensures
        final(out)@ == old(out)@ + b@,
{
    let mut i: usize = 0;
    let ghost start = out@;
    while i < b.len()
        invariant
            i <= b@.len(),
            out@ == start + b@.subrange(0, i as int),
        decreases b@.len() - i,
    {
        out.push(b[i]);
        i = i + 1;
        proof {
            assert(out@ =~= start + b@.subrange(0, i as int));
        }
    }
    proof {
        assert(b@.subrange(0, b@.len() as int) =~= b@);
    }
}

fn append_zeros(out: &mut Vec<u8>, n: usize)
    ensures
        final(out)@ == old(out)@ + Seq::new(n as nat, |i: int| 0u8),
{
    let mut i: usize = 0;
    let ghost start = out@;
    while i < n
        invariant
            i <= n,
            out@ == start + Seq::new(i as nat, |j: int| 0u8),
        decreases n - i,
    {
        out.push(0);
        i = i + 1;
        proof {
            assert(out@ =~= start + Seq::new(i as nat, |j: int| 0u8));
        }
    }
}

fn last_slash_exec(p: &[u8]) -> (r: usize)
    ensures
        r as int == last_slash(p@) + 1,
        r <= p@.len(),
{
    let mut n = p.len();
    proof {
        lemma_last_slash_init(p@);
    }
    while n > 0 && p[n - 1] != SLASH
        invariant
            n <= p@.len(),
            last_slash(p@.subrange(0, n as int)) == last_slash(p@),
        decreases n,
    {
        proof {
            assert(p@.subrange(0, n as int).drop_last() =~= p@.subrange(0, n - 1));
        }
        n = n - 1;
    }
    proof {
        if n > 0 {
            assert(p@.subrange(0, n as int).last() == SLASH);
        }
    }
    n
}

proof fn lemma_last_slash_init(p: Seq<u8>)
    ensures
        p.subrange(0, p.len() as int) == p,
{
    assert(p.subrange(0, p.len() as int) =~= p);
}

fn slash_count_exec(p: &[u8]) -> (r: u64)
    ensures
        r as nat == slash_count(p@),
{
    let mut c: u64 = 0;
    let mut i: usize = 0;
    while i < p.len()
        invariant
            i <= p@.len(),
            c as nat == slash_count(p@.subrange(0, i as int)),
            c <= i,
        decreases p@.len() - i,
    {
        proof {
            assert(p@.subrange(0, i + 1).drop_last() =~= p@.subrange(0, i as int));
        }
        if p[i] == SLASH {
            c = c + 1;
        }
        i = i + 1;
    }
    proof {
        assert(p@.subrange(0, p@.len() as int) =~= p@);
    }
    c
}

} // verus!

verus! {

proof fn lemma_blobs_grow(items: Seq<(Seq<u8>, Option<Seq<u8>>)>, k: nat, m: nat)
    requires
        k <= m,
    ensures
        names_blob(items, k).len() + (m - k) <= names_blob(items, m).len(),
        data_blob(items, k).len() <= data_blob(items, m).len(),
    decreases m,
{
    if k < m {
        lemma_blobs_grow(items, k, (m - 1) as nat);
    }
}

impl U8Arc {
    fn prefix_count_exec(&self, p: &[u8]) -> (r: u64)
        ensures
            r as nat == prefix_count(self.spec_files(), p@, self.spec_files().len()),
            r <= self.files@.len(),
    {
        let mut c: u64 = 0;
        let mut k: usize = 0;
        while k < self.files.len()
            invariant
                k <= self.files@.len(),
                c <= k,
                c as nat == prefix_count(self.spec_files(), p@, k as nat),
            decreases self.files@.len() - k,
        {
            if has_prefix_exec(self.files[k].0.as_slice(), p) {
                c = c + 1;
            }
            k = k + 1;
        }
        c
    }

    /// Builds the archive that holds the items in order under a root
    /// directory: header, node records, name table, then file data, each
    /// file padded to 32 bytes and the data section aligned to 64. A
    /// directory's record gives its depth and the index one past its
    /// subtree, counted by path prefix. `None` where the offsets do not fit
    /// their fields.
    pub fn dump(&self) -> (r: Option<Vec<u8>>)
        ensures
            match r {
                Some(b) => dump_fits(self.spec_files()) && b@ == spec_dump(self.spec_files()),
                None => !dump_fits(self.spec_files()),
            },
    {
        let ghost items = self.spec_files();
        let n = self.files.len();
        let mut names: Vec<u8> = Vec::new();
        names.push(0);
        let mut data: Vec<u8> = Vec::new();
        proof {
            assert(names@ =~= names_blob(items, 0));
            assert(data@ =~= data_blob(items, 0));
        }
        let mut k: usize = 0;
        while k < n
            invariant
                n == self.files@.len() == items.len(),
                items == self.spec_files(),
                k <= n,
                names@ == names_blob(items, k as nat),
                data@ == data_blob(items, k as nat),
                names@.len() <= 0xffff,
                data@.len() <= u32::MAX,
            decreases n - k,
        {
            let p = self.files[k].0.as_slice();
            let ls = last_slash_exec(p);
            append_bytes(&mut names, copy_bytes(p, ls, p.len()).as_slice());
            names.push(0);
            let ghost chunk: Seq<u8> = match items[k as int].1 {
                Some(d) => file_chunk(d),
                None => Seq::empty(),
            };
            match &self.files[k].1 {
                Some(d) => {
                    if d.len() > 0xffff_ffff - data.len() {
                        proof {
                            lemma_blobs_grow(items, k as nat + 1, n as nat);
                            assert(data_blob(items, k as nat + 1) == data@ + file_chunk(d@));
                        }
                        return None;
                    }
                    let rem = d.len() % 32;
                    let pad = if rem == 0 {
                        0
                    } else {
                        32 - rem
                    };
                    proof {
                        lemma_pad(d@.len());
                    }
                    append_bytes(&mut data, d.as_slice());
                    append_zeros(&mut data, pad);
                },
                None => {},
            }
            proof {
                assert(names@ =~= names_blob(items, k as nat + 1));
                assert(data@ =~= data_blob(items, k as nat + 1));
                lemma_blobs_grow(items, k as nat + 1, n as nat);
            }
            if names.len() > 0xffff || data.len() > 0xffff_ffff {
                return None;
            }
            k = k + 1;
        }
        proof {
            lemma_blobs_grow(items, 0, n as nat);
        }
        let hs = (n + 1) * 12 + names.len();
        let base = (hs + 0x20 + 63) / 64 * 64;
        if base > 0xffff_ffff || data.len() > 0xffff_ffff - base {
            return None;
        }
        let mut out: Vec<u8> = Vec::new();
        out.push(0x55);
        out.push(0xaa);
        out.push(0x38);
        out.push(0x2d);
        push_be(&mut out, 0x20, 4);
        push_be(&mut out, hs as u64, 4);
        push_be(&mut out, base as u64, 4);
        append_zeros(&mut out, 16);
        push_be(&mut out, 0x100, 2);
        push_be(&mut out, 0, 2);
        push_be(&mut out, 0, 4);
        push_be(&mut out, (n + 1) as u64, 4);
        let ghost head_root = out@;
        proof {
            assert(head_root =~= seq![0x55u8, 0xaa, 0x38, 0x2d] + be(0x20, 4) + be(hs as nat, 4) + be(base as nat, 4) + Seq::new(16, |i: int| 0u8)
                + (be(0x100, 2) + be(0, 2) + be(0, 4) + be((n + 1) as nat, 4)));
            assert(out@ =~= head_root + nodes_blob(items, 0, base as nat));
        }
        let mut doff: usize = 0;
        let mut j: usize = 0;
        while j < n
            invariant
                n == self.files@.len() == items.len(),
                items == self.spec_files(),
                j <= n,
                base <= 0xffff_ffff,
                n <= 0xffff,
                names@.len() <= 0xffff,
                data_blob(items, n as nat).len() + base <= 0xffff_ffff,
                names_blob(items, n as nat) == names@,
                doff as nat == data_blob(items, j as nat).len(),
                out@ == head_root + nodes_blob(items, j as nat, base as nat),
            decreases n - j,
        {
            let ghost before = out@;
            let p = self.files[j].0.as_slice();
            proof {
                lemma_blobs_grow(items, j as nat, n as nat);
            }
            let noff = names_len_upto(self, j);
            match &self.files[j].1 {
                None => {
                    push_be(&mut out, 0x100, 2);
                    push_be(&mut out, noff as u64, 2);
                    push_be(&mut out, slash_count_exec(p), 4);
                    let pc = self.prefix_count_exec(p);
                    push_be(&mut out, (j + 1) as u64 + pc, 4);
                },
                Some(d) => {
                    push_be(&mut out, 0, 2);
                    push_be(&mut out, noff as u64, 2);
                    push_be(&mut out, (doff + base) as u64, 4);
                    push_be(&mut out, d.len() as u64, 4);
                    proof {
                        lemma_blobs_grow(items, j as nat + 1, n as nat);
                        assert(data_blob(items, j as nat + 1) == data_blob(items, j as nat) + file_chunk(d@));
                    }
                    let rem = d.len() % 32;
                    let pad = if rem == 0 {
                        0
                    } else {
                        32 - rem
                    };
                    proof {
                        lemma_pad(d@.len());
                    }
                    doff = doff + d.len() + pad;
                },
            }
            proof {
                assert(out@ =~= before + node_record(items, j as nat, base as nat));
                assert(out@ =~= head_root + nodes_blob(items, j as nat + 1, base as nat));
            }
            j = j + 1;
        }
        append_bytes(&mut out, names.as_slice());
        let ghost body = out@;
        proof {
            lemma_nodes_len(items, n as nat, base as nat);
            assert(body.len() == 0x20 + (n + 1) * 12 + names@.len());
        }
        let cur = out.len();
        append_zeros(&mut out, base - cur);
        append_bytes(&mut out, data.as_slice());
        proof {
            assert(out@ =~= spec_dump(items));
        }
        Some(out)
    }
}

proof fn lemma_pad(l: nat)
    ensures
        align_up(l, 32) - l == (if l % 32 == 0 { 0 } else { 32 - l % 32 }),
        align_up(l, 32) >= l,
{
    let q = l as int / 32;
    let r = l as int % 32;
    vstd::arithmetic::div_mod::lemma_fundamental_div_mod(l as int, 32);
    if r == 0 {
        vstd::arithmetic::div_mod::lemma_fundamental_div_mod_converse(l as int + 31, 32, q, 31);
    } else {
        vstd::arithmetic::div_mod::lemma_fundamental_div_mod_converse(l as int + 31, 32, q + 1, r - 1);
    }
}

proof fn lemma_nodes_len(items: Seq<(Seq<u8>, Option<Seq<u8>>)>, k: nat, base: nat)
    requires
        k <= items.len(),
    ensures
        nodes_blob(items, k, base).len() == 12 * k,
    decreases k,
{
    if k > 0 {
        lemma_nodes_len(items, (k - 1) as nat, base);
    }
}

/// Length of the name table for the first `k` items.
fn names_len_upto(a: &U8Arc, k: usize) -> (r: usize)
    requires
        k <= a.files@.len(),
        names_blob(a.spec_files(), a.files@.len() as nat).len() <= 0xffff,
    ensures
        r as nat == names_blob(a.spec_files(), k as nat).len(),
{
    let mut total: usize = 1;
    let mut i: usize = 0;
    while i < k
        invariant
            k <= a.files@.len(),
            i <= k,
            names_blob(a.spec_files(), a.files@.len() as nat).len() <= 0xffff,
            total as nat == names_blob(a.spec_files(), i as nat).len(),
        decreases k - i,
    {
        proof {
            lemma_blobs_grow(a.spec_files(), i as nat + 1, a.files@.len() as nat);
        }
        let p = a.files[i].0.as_slice();
        let ls = last_slash_exec(p);
        total = total + (p.len() - ls) + 1;
        i = i + 1;
    }
    total
}

} // verus!
