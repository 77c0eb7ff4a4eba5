//! The manifest: the snapshot of which WALs and SSTables make up the database.

use crate::data_stores::checksum::{checksum, crc32};
use crate::data_stores::key::{Key, KeyView};
use crate::data_stores::le::{le_bytes, le_value};
use crate::data_stores::{eof, le, read_exact, read_le, Decoded, Loggable};
use crate::data_stores::file_name::{
    file_name, lemma_manifest_name, manifest_version, manifest_version_of, name_of, number_of,
    parse_u32, FileKind,
};
use crate::data_stores::wal::{log_header, Wal, Writable};
use crate::err::{DbError, ErrorView, IoErrorKind};
use vstd::prelude::*;

verus! {

/// `"ELSM"` read as a little-endian number.
pub const MANIFEST_MAGIC: u32 = 0x4D534C45;

/// The version of the on-disk format of the manifest.
pub const MANIFEST_FORMAT_VERSION: u32 = 0;

/// What the manifest knows of an SSTable file.
#[derive(Debug)]
pub struct FileMetadata {
    pub file_id: u32,
    pub file_size: u32,
    pub min_key: Key,
    pub max_key: Key,
}

/// The mathematical value of a [`FileMetadata`].
#[verifier::ext_equal]
pub struct FileView {
    pub file_id: u32,
    pub file_size: u32,
    pub min_key: KeyView,
    pub max_key: KeyView,
}

impl View for FileMetadata {
    type V = FileView;

    open spec fn view(&self) -> FileView {
        FileView {
            file_id: self.file_id,
            file_size: self.file_size,
            min_key: self.min_key@,
            max_key: self.max_key@,
        }
    }
}

impl DeepView for FileMetadata {
    type V = FileView;

    open spec fn deep_view(&self) -> FileView {
        self@
    }
}

impl Clone for FileMetadata {
    fn clone(&self) -> (r: FileMetadata)
        ensures
            r@ == self@,
    {
        FileMetadata {
            file_id: self.file_id,
            file_size: self.file_size,
            min_key: self.min_key.clone(),
            max_key: self.max_key.clone(),
        }
    }
}

/// Copies a list of files.
pub fn clone_files(files: &Vec<FileMetadata>) -> (r: Vec<FileMetadata>)
    ensures
        r.deep_view() == files.deep_view(),
{
    let mut r: Vec<FileMetadata> = Vec::new();
    let mut i: usize = 0;
    while i < files.len()
        invariant
            i <= files.len(),
            r.deep_view() == files.deep_view().take(i as int),
        decreases files.len() - i,
    {
        let ghost before = r.deep_view();
        r.push(files[i].clone());
        proof {
            assert(r.deep_view() =~= before.push(files[i as int]@));
            assert(files.deep_view().take(i + 1) =~= files.deep_view().take(i as int).push(
                files[i as int]@,
            ));
        }
        i = i + 1;
    }
    assert(files.deep_view().take(i as int) =~= files.deep_view());
    r
}

// --- On disk: [file_id: u32][file_size: u32][min_key][max_key] ---

impl Loggable for FileMetadata {
    open spec fn spec_encode(v: FileView) -> Seq<u8> {
        le_bytes(v.file_id as nat, 4) + le_bytes(v.file_size as nat, 4) + Key::spec_encode(
            v.min_key,
        ) + Key::spec_encode(v.max_key)
    }

    open spec fn spec_decode(s: Seq<u8>) -> Decoded<FileView> {
        match u32::spec_decode(s) {
            (Ok(file_id), a) => match u32::spec_decode(s.skip(a as int)) {
                (Ok(file_size), b) => match Key::spec_decode(s.skip((a + b) as int)) {
                    (Ok(min_key), c) => match Key::spec_decode(s.skip((a + b + c) as int)) {
                        (Ok(max_key), d) => (
                            Ok(FileView { file_id, file_size, min_key, max_key }),
                            a + b + c + d,
                        ),
                        (Err(e), d) => (Err(e), a + b + c + d),
                    },
                    (Err(e), c) => (Err(e), a + b + c),
                },
                (Err(e), b) => (Err(e), a + b),
            },
            (Err(e), a) => (Err(e), a),
        }
    }

    open spec fn encodable(v: FileView) -> bool {
        Key::encodable(v.min_key) && Key::encodable(v.max_key)
    }

    proof fn lemma_decode_bound(s: Seq<u8>) {
        u32::lemma_decode_bound(s);
        let a = u32::spec_decode(s).1;
        u32::lemma_decode_bound(s.skip(a as int));
        let b = u32::spec_decode(s.skip(a as int)).1;
        Key::lemma_decode_bound(s.skip((a + b) as int));
        let c = Key::spec_decode(s.skip((a + b) as int)).1;
        Key::lemma_decode_bound(s.skip((a + b + c) as int));
    }

    proof fn lemma_round_trip(v: FileView, rest: Seq<u8>) {
        let a = u32::spec_encode(v.file_id);
        let b = u32::spec_encode(v.file_size);
        let c = Key::spec_encode(v.min_key);
        let d = Key::spec_encode(v.max_key);
        let s = Self::spec_encode(v) + rest;
        assert(s =~= a + (b + (c + (d + rest))));
        u32::lemma_round_trip(v.file_id, b + (c + (d + rest)));
        assert(s.skip(a.len() as int) =~= b + (c + (d + rest)));
        u32::lemma_round_trip(v.file_size, c + (d + rest));
        assert(s.skip((a.len() + b.len()) as int) =~= c + (d + rest));
        Key::lemma_round_trip(v.min_key, d + rest);
        assert(s.skip((a.len() + b.len() + c.len()) as int) =~= d + rest);
        Key::lemma_round_trip(v.max_key, rest);
    }

    fn encode(&self, writer: &mut Vec<u8>) {
        self.file_id.encode(writer);
        self.file_size.encode(writer);
        self.min_key.encode(writer);
        self.max_key.encode(writer);
        assert(writer@ =~= old(writer)@ + Self::spec_encode(self@));
    }

    fn decode(reader: &mut &[u8]) -> (r: Result<Self, DbError>) {
        let ghost s = reader@;
        let ghost a = u32::spec_decode(s).1;
        let ghost b = u32::spec_decode(s.skip(a as int)).1;
        let ghost c = Key::spec_decode(s.skip((a + b) as int)).1;
        let ghost d = Key::spec_decode(s.skip((a + b + c) as int)).1;
        proof {
            Self::lemma_decode_bound(s);
            u32::lemma_decode_bound(s);
            u32::lemma_decode_bound(s.skip(a as int));
            Key::lemma_decode_bound(s.skip((a + b) as int));
            Key::lemma_decode_bound(s.skip((a + b + c) as int));
            assert(s.skip(a as int).skip(b as int) =~= s.skip((a + b) as int));
            assert(s.skip((a + b) as int).skip(c as int) =~= s.skip((a + b + c) as int));
            assert(s.skip((a + b + c) as int).skip(d as int) =~= s.skip((a + b + c + d) as int));
        }
        let file_id: u32 = match u32::decode(reader) {
            Ok(x) => x,
            Err(e) => {
                return Err(e);
            },
        };
        let file_size: u32 = match u32::decode(reader) {
            Ok(x) => x,
            Err(e) => {
                return Err(e);
            },
        };
        let min_key = match Key::decode(reader) {
            Ok(k) => k,
            Err(e) => {
                return Err(e);
            },
        };
        let max_key = match Key::decode(reader) {
            Ok(k) => k,
            Err(e) => {
                return Err(e);
            },
        };
        Ok(FileMetadata { file_id, file_size, min_key, max_key })
    }
}

/// The SSTables of one level.
#[derive(Debug)]
pub struct Level {
    pub files: Vec<FileMetadata>,
}

pub type LevelView = Seq<FileView>;

impl DeepView for Level {
    type V = LevelView;

    open spec fn deep_view(&self) -> LevelView {
        self.files.deep_view()
    }
}

impl Default for Level {
    fn default() -> (level: Level)
        ensures
            level.deep_view() == Seq::<FileView>::empty(),
    {
        let level = Level { files: Vec::new() };
        assert(level.deep_view() =~= Seq::<FileView>::empty());
        level
    }
}

impl Clone for Level {
    fn clone(&self) -> (r: Level)
        ensures
            r.deep_view() == self.deep_view(),
    {
        Level { files: clone_files(&self.files) }
    }
}

impl Loggable for Level {
    open spec fn spec_encode(v: LevelView) -> Seq<u8> {
        <Vec<FileMetadata> as Loggable>::spec_encode(v)
    }

    open spec fn spec_decode(s: Seq<u8>) -> Decoded<LevelView> {
        <Vec<FileMetadata> as Loggable>::spec_decode(s)
    }

    open spec fn encodable(v: LevelView) -> bool {
        <Vec<FileMetadata> as Loggable>::encodable(v)
    }

    proof fn lemma_decode_bound(s: Seq<u8>) {
        <Vec<FileMetadata> as Loggable>::lemma_decode_bound(s);
    }

    proof fn lemma_round_trip(v: LevelView, rest: Seq<u8>) {
        <Vec<FileMetadata> as Loggable>::lemma_round_trip(v, rest);
    }

    fn encode(&self, writer: &mut Vec<u8>) {
        self.files.encode(writer);
    }

    fn decode(reader: &mut &[u8]) -> (r: Result<Self, DbError>) {
        match Vec::<FileMetadata>::decode(reader) {
            Ok(files) => Ok(Level { files }),
            Err(e) => Err(e),
        }
    }
}

/// The snapshot of the database state.
#[derive(Debug)]
pub struct Manifest {
    /// The active WALs, oldest first; the last one is being written to.
    pub wals: Vec<u32>,
    /// The levels of SSTables.
    pub levels: Vec<Level>,
    // Not persisted: recovered at startup.
    pub next_wal_id: u32,
    pub next_sstable_id: u32,
    pub version: u32,
}

/// The mathematical value of a [`Manifest`].
#[verifier::ext_equal]
pub struct ManifestView {
    pub wals: Seq<u32>,
    pub levels: Seq<LevelView>,
    pub next_wal_id: u32,
    pub next_sstable_id: u32,
    pub version: u32,
}

impl View for Manifest {
    type V = ManifestView;

    open spec fn view(&self) -> ManifestView {
        ManifestView {
            wals: self.wals.deep_view(),
            levels: self.levels.deep_view(),
            next_wal_id: self.next_wal_id,
            next_sstable_id: self.next_sstable_id,
            version: self.version,
        }
    }
}

impl DeepView for Manifest {
    type V = ManifestView;

    open spec fn deep_view(&self) -> ManifestView {
        self@
    }
}

impl ManifestView {
    /// The part of the file behind the header.
    pub open spec fn body(self) -> Seq<u8> {
        <Vec<u32> as Loggable>::spec_encode(self.wals) + <Vec<Level> as Loggable>::spec_encode(
            self.levels,
        )
    }

    /// What is left of a manifest once it was on disk.
    pub open spec fn persisted(self) -> ManifestView {
        ManifestView { next_wal_id: 0, next_sstable_id: 0, version: 0, ..self }
    }
}

/// The number in the four bytes at `at`.
pub open spec fn u32_at(s: Seq<u8>, at: int) -> nat {
    le_value(s.subrange(at, at + 4))
}

// --- On disk: [magic][checksum][size][format version][wals][levels][body] ---
//
// The first six are u32s.

impl Loggable for Manifest {
    open spec fn spec_encode(v: ManifestView) -> Seq<u8> {
        le_bytes(MANIFEST_MAGIC as nat, 4) + le_bytes(crc32(v.body()) as nat, 4) + le_bytes(
            (v.body().len() as u32) as nat,
            4,
        ) + le_bytes(MANIFEST_FORMAT_VERSION as nat, 4) + le_bytes(
            (v.wals.len() as u32) as nat,
            4,
        ) + le_bytes((v.levels.len() as u32) as nat, 4) + v.body()
    }

    open spec fn spec_decode(s: Seq<u8>) -> Decoded<ManifestView> {
        if s.len() < 4 {
            (Err(eof()), s.len())
        } else if u32_at(s, 0) != MANIFEST_MAGIC {
            (Err(DbError::ManifestCorrupted), 4)
        } else if s.len() < 16 {
            (Err(eof()), s.len())
        } else if u32_at(s, 12) != MANIFEST_FORMAT_VERSION {
            (Err(DbError::ManifestCorrupted), 16)
        } else if s.len() < 24 + u32_at(s, 8) {
            (Err(eof()), s.len())
        } else {
            let end = 24 + u32_at(s, 8);
            let body = s.subrange(24, end as int);
            if crc32(body) != u32_at(s, 4) {
                (Err(DbError::ManifestCorrupted), end)
            } else {
                match <Vec<u32> as Loggable>::spec_decode(body) {
                    (Ok(wals), a) => match <Vec<Level> as Loggable>::spec_decode(
                        body.skip(a as int),
                    ) {
                        (Ok(levels), _) => (
                            Ok(
                                ManifestView {
                                    wals,
                                    levels,
                                    next_wal_id: 0,
                                    next_sstable_id: 0,
                                    version: 0,
                                },
                            ),
                            end,
                        ),
                        (Err(e), _) => (Err(e), end),
                    },
                    (Err(e), _) => (Err(e), end),
                }
            }
        }
    }

    open spec fn encodable(v: ManifestView) -> bool {
        &&& <Vec<u32> as Loggable>::encodable(v.wals)
        &&& <Vec<Level> as Loggable>::encodable(v.levels)
        &&& v.body().len() <= u32::MAX
        &&& v == v.persisted()
    }

    proof fn lemma_decode_bound(s: Seq<u8>) {
    }

    proof fn lemma_round_trip(v: ManifestView, rest: Seq<u8>) {
        le::lemma_le_range();
        let body = v.body();
        let s = Self::spec_encode(v) + rest;
        let crc = crc32(body);
        le::lemma_le_bytes_len(MANIFEST_MAGIC as nat, 4);
        le::lemma_le_bytes_len(crc as nat, 4);
        le::lemma_le_bytes_len(body.len(), 4);
        le::lemma_le_bytes_len(MANIFEST_FORMAT_VERSION as nat, 4);
        le::lemma_le_bytes_len((v.wals.len() as u32) as nat, 4);
        le::lemma_le_bytes_len((v.levels.len() as u32) as nat, 4);
        le::lemma_le_round_trip(MANIFEST_MAGIC as nat, 4);
        le::lemma_le_round_trip(crc as nat, 4);
        le::lemma_le_round_trip(body.len(), 4);
        le::lemma_le_round_trip(MANIFEST_FORMAT_VERSION as nat, 4);
        assert(s.subrange(0, 4) =~= le_bytes(MANIFEST_MAGIC as nat, 4));
        assert(s.subrange(4, 8) =~= le_bytes(crc as nat, 4));
        assert(s.subrange(8, 12) =~= le_bytes(body.len(), 4));
        assert(s.subrange(12, 16) =~= le_bytes(MANIFEST_FORMAT_VERSION as nat, 4));
        assert(s.subrange(24, (24 + body.len()) as int) =~= body);
        let a = <Vec<u32> as Loggable>::spec_encode(v.wals);
        let b = <Vec<Level> as Loggable>::spec_encode(v.levels);
        <Vec<u32> as Loggable>::lemma_round_trip(v.wals, b);
        assert(body.skip(a.len() as int) =~= b);
        <Vec<Level> as Loggable>::lemma_round_trip(v.levels, Seq::empty());
        assert(b + Seq::<u8>::empty() =~= b);
    }

    fn encode(&self, writer: &mut Vec<u8>) {
        let mut body: Vec<u8> = Vec::new();
        self.wals.encode(&mut body);
        self.levels.encode(&mut body);
        assert(body@ =~= self@.body());
        MANIFEST_MAGIC.encode(writer);
        checksum(body.as_slice()).encode(writer);
        (body.len() as u32).encode(writer);
        MANIFEST_FORMAT_VERSION.encode(writer);
        (self.wals.len() as u32).encode(writer);
        (self.levels.len() as u32).encode(writer);
        writer.extend_from_slice(body.as_slice());
        assert(writer@ =~= old(writer)@ + Self::spec_encode(self@));
    }

    fn decode(reader: &mut &[u8]) -> (r: Result<Self, DbError>) {
        let ghost s = reader@;
        proof {
            le::lemma_le_range();
            assert(s.skip(s.len() as int) =~= Seq::<u8>::empty());
            if s.len() >= 4 {
                assert(s.take(4) =~= s.subrange(0, 4));
                assert(s.skip(4).skip(s.len() - 4) =~= s.skip(s.len() as int));
            }
            if s.len() >= 8 {
                assert(s.skip(4).skip(4) =~= s.skip(8));
                assert(s.skip(4).take(4) =~= s.subrange(4, 8));
                assert(s.skip(8).skip(s.len() - 8) =~= s.skip(s.len() as int));
            }
            if s.len() >= 12 {
                assert(s.skip(8).skip(4) =~= s.skip(12));
                assert(s.skip(8).take(4) =~= s.subrange(8, 12));
                assert(s.skip(12).skip(s.len() - 12) =~= s.skip(s.len() as int));
            }
            if s.len() >= 16 {
                assert(s.skip(12).skip(4) =~= s.skip(16));
                assert(s.skip(12).take(4) =~= s.subrange(12, 16));
                assert(s.skip(16).skip(s.len() - 16) =~= s.skip(s.len() as int));
            }
            if s.len() >= 20 {
                assert(s.skip(16).skip(4) =~= s.skip(20));
                assert(s.skip(20).skip(s.len() - 20) =~= s.skip(s.len() as int));
            }
            if s.len() >= 24 {
                assert(s.skip(20).skip(4) =~= s.skip(24));
                assert(s.skip(24).skip(s.len() - 24) =~= s.skip(s.len() as int));
            }
        }
        let magic: u64 = match read_le(reader, 4) {
            Ok(x) => x,
            Err(e) => {
                return Err(e);
            },
        };
        if magic != MANIFEST_MAGIC as u64 {
            return Err(DbError::ManifestCorrupted);
        }
        let crc: u64 = match read_le(reader, 4) {
            Ok(x) => x,
            Err(e) => {
                return Err(e);
            },
        };
        let size: u64 = match read_le(reader, 4) {
            Ok(x) => x,
            Err(e) => {
                return Err(e);
            },
        };
        let format_version: u64 = match read_le(reader, 4) {
            Ok(x) => x,
            Err(e) => {
                return Err(e);
            },
        };
        if format_version != MANIFEST_FORMAT_VERSION as u64 {
            return Err(DbError::ManifestCorrupted);
        }
        // The counts in the header are redundant: the vectors carry their own lengths.
        match read_le(reader, 4) {
            Ok(_) => {},
            Err(e) => {
                return Err(e);
            },
        }
        match read_le(reader, 4) {
            Ok(_) => {},
            Err(e) => {
                return Err(e);
            },
        }
        proof {
            if s.len() >= 24 + size {
                assert(s.skip(24).take(size as int) =~= s.subrange(24, 24 + size));
                assert(s.skip(24).skip(size as int) =~= s.skip(24 + size));
            }
        }
        let body = match read_exact(reader, size as usize) {
            Ok(b) => b,
            Err(e) => {
                return Err(e);
            },
        };
        if checksum(body) as u64 != crc {
            return Err(DbError::ManifestCorrupted);
        }
        let mut body_reader: &[u8] = body;
        let wals = match Vec::<u32>::decode(&mut body_reader) {
            Ok(wals) => wals,
            Err(e) => {
                return Err(e);
            },
        };
        let levels = match Vec::<Level>::decode(&mut body_reader) {
            Ok(levels) => levels,
            Err(e) => {
                return Err(e);
            },
        };
        Ok(Manifest { wals, levels, next_wal_id: 0, next_sstable_id: 0, version: 0 })
    }
}

/// A manifest that was written reads back with the same WALs and the same files, whatever
/// its transient counters were.
pub proof fn lemma_manifest_round_trip(m: ManifestView, rest: Seq<u8>)
    requires
        <Vec<u32> as Loggable>::encodable(m.wals),
        <Vec<Level> as Loggable>::encodable(m.levels),
        m.body().len() <= u32::MAX,
    ensures
        Manifest::spec_decode(Manifest::spec_encode(m) + rest) == (
            Ok::<ManifestView, DbError>(m.persisted()),
            Manifest::spec_encode(m).len(),
        ),
{
    let p = m.persisted();
    assert(p.body() == m.body());
    assert(Manifest::spec_encode(p) == Manifest::spec_encode(m));
    assert(p == p.persisted());
    Manifest::lemma_round_trip(p, rest);
}

/// A manifest that was written lists the same logs and the same files when it is read.
pub proof fn lemma_manifest_reads_back(m: ManifestView, rest: Seq<u8>)
    requires
        m.wals.len() <= u32::MAX,
        m.levels.len() <= u32::MAX,
        forall|l: int| 0 <= l < m.levels.len() ==> (#[trigger] m.levels[l]).len() <= u32::MAX,
        forall|l: int, i: int|
            0 <= l < m.levels.len() && 0 <= i < m.levels[l].len() ==> (
            #[trigger] m.levels[l][i]).min_key.bytes.len() <= u16::MAX
                && m.levels[l][i].max_key.bytes.len() <= u16::MAX,
        m.body().len() <= u32::MAX,
    ensures
        Manifest::spec_decode(Manifest::spec_encode(m) + rest).0 matches Ok(read) && {
            &&& read.wals == m.wals
            &&& read.levels == m.levels
        },
{
    assert(<Vec<u32> as Loggable>::encodable(m.wals));
    assert forall|l: int| 0 <= l < m.levels.len() implies Level::encodable(
        #[trigger] m.levels[l],
    ) by {
        assert forall|i: int| 0 <= i < m.levels[l].len() implies FileMetadata::encodable(
            #[trigger] m.levels[l][i],
        ) by {}
    }
    lemma_manifest_round_trip(m, rest);
}

/// A file is read as a manifest only where it starts with the magic number, has the format
/// version, and has the checksum of its body.
pub proof fn lemma_manifest_checked(s: Seq<u8>)
    requires
        Manifest::spec_decode(s).0 is Ok,
    ensures
        s.len() >= 24 + le_value(s.subrange(8, 12)),
        le_value(s.subrange(0, 4)) == 0x4D534C45,
        le_value(s.subrange(12, 16)) == 0,
        crc32(s.subrange(24, (24 + le_value(s.subrange(8, 12))) as int)) == le_value(
            s.subrange(4, 8),
        ),
{
}

/// Where the parts of a manifest file stand.
pub proof fn lemma_manifest_layout(m: ManifestView)
    requires
        m.wals.len() <= u32::MAX,
        m.levels.len() <= u32::MAX,
        m.body().len() <= u32::MAX,
    ensures
        ({
            let s = Manifest::spec_encode(m);
            &&& s.len() == 24 + m.body().len()
            &&& le_value(s.subrange(0, 4)) == 0x4D534C45
            &&& le_value(s.subrange(4, 8)) == crc32(s.skip(24))
            &&& le_value(s.subrange(8, 12)) == s.len() - 24
            &&& le_value(s.subrange(12, 16)) == 0
            &&& le_value(s.subrange(16, 20)) == m.wals.len()
            &&& le_value(s.subrange(20, 24)) == m.levels.len()
        }),
{
    le::lemma_le_range();
    let body = m.body();
    let s = Manifest::spec_encode(m);
    let crc = crc32(body);
    le::lemma_le_bytes_len(MANIFEST_MAGIC as nat, 4);
    le::lemma_le_bytes_len(crc as nat, 4);
    le::lemma_le_bytes_len(body.len(), 4);
    le::lemma_le_bytes_len(MANIFEST_FORMAT_VERSION as nat, 4);
    le::lemma_le_bytes_len(m.wals.len(), 4);
    le::lemma_le_bytes_len(m.levels.len(), 4);
    le::lemma_le_round_trip(MANIFEST_MAGIC as nat, 4);
    le::lemma_le_round_trip(crc as nat, 4);
    le::lemma_le_round_trip(body.len(), 4);
    le::lemma_le_round_trip(MANIFEST_FORMAT_VERSION as nat, 4);
    le::lemma_le_round_trip(m.wals.len(), 4);
    le::lemma_le_round_trip(m.levels.len(), 4);
    assert(s.subrange(0, 4) =~= le_bytes(MANIFEST_MAGIC as nat, 4));
    assert(s.subrange(4, 8) =~= le_bytes(crc as nat, 4));
    assert(s.subrange(8, 12) =~= le_bytes(body.len(), 4));
    assert(s.subrange(12, 16) =~= le_bytes(MANIFEST_FORMAT_VERSION as nat, 4));
    assert(s.subrange(16, 20) =~= le_bytes(m.wals.len(), 4));
    assert(s.subrange(20, 24) =~= le_bytes(m.levels.len(), 4));
    assert(s.skip(24) =~= body);
}

// --- Numbers ---

/// The largest of some numbers, and zero where there is none.
pub open spec fn max_of(ids: Seq<u32>) -> u32
    decreases ids.len(),
{
    if ids.len() == 0 {
        0
    } else {
        let m = max_of(ids.drop_last());
        if ids.last() > m {
            ids.last()
        } else {
            m
        }
    }
}

/// The numbers of the files of a level.
pub open spec fn file_ids(files: LevelView) -> Seq<u32> {
    Seq::new(files.len(), |i: int| files[i].file_id)
}

/// The largest number of a file in some levels, and zero where there is none.
pub open spec fn max_file_id(levels: Seq<LevelView>) -> u32
    decreases levels.len(),
{
    if levels.len() == 0 {
        0
    } else {
        let m = max_file_id(levels.drop_last());
        let n = max_of(file_ids(levels.last()));
        if n > m {
            n
        } else {
            m
        }
    }
}

proof fn lemma_max_of(ids: Seq<u32>, i: int)
    requires
        0 <= i < ids.len(),
    ensures
        ids[i] <= max_of(ids),
    decreases ids.len(),
{
    if i < ids.len() - 1 {
        lemma_max_of(ids.drop_last(), i);
    }
}

/// The largest of some numbers is one of them, and none is larger.
pub proof fn lemma_largest_number(ids: Seq<u32>)
    ensures
        forall|i: int| 0 <= i < ids.len() ==> #[trigger] ids[i] <= max_of(ids),
        ids.len() > 0 ==> ids.contains(max_of(ids)),
        ids.len() == 0 ==> max_of(ids) == 0,
    decreases ids.len(),
{
    assert forall|i: int| 0 <= i < ids.len() implies #[trigger] ids[i] <= max_of(ids) by {
        lemma_max_of(ids, i);
    }
    if ids.len() > 0 {
        let shorter = ids.drop_last();
        lemma_largest_number(shorter);
        if max_of(ids) != ids.last() {
            let i = choose|i: int| 0 <= i < shorter.len() && shorter[i] == max_of(shorter);
            assert(ids[i] == max_of(ids));
        } else {
            assert(ids[ids.len() - 1] == max_of(ids));
        }
    }
}

/// The largest number of a file is that of a file of some level, and no file of any level has
/// a larger one.
pub proof fn lemma_largest_file_number(levels: Seq<LevelView>)
    ensures
        forall|l: int, i: int|
            0 <= l < levels.len() && 0 <= i < levels[l].len() ==> (#[trigger] levels[l][i]).file_id
                <= max_file_id(levels),
        max_file_id(levels) > 0 ==> exists|l: int, i: int|
            0 <= l < levels.len() && 0 <= i < levels[l].len() && (#[trigger] levels[l][i]).file_id
                == max_file_id(levels),
    decreases levels.len(),
{
    assert forall|l: int, i: int|
        0 <= l < levels.len() && 0 <= i < levels[l].len() implies (#[trigger] levels[l][i]).file_id
        <= max_file_id(levels) by {
        lemma_max_file_id(levels, l, i);
    }
    if levels.len() > 0 && max_file_id(levels) > 0 {
        let shorter = levels.drop_last();
        let last = levels.len() - 1;
        let ids = file_ids(levels[last]);
        lemma_largest_file_number(shorter);
        lemma_largest_number(ids);
        if max_of(ids) == max_file_id(levels) {
            let i = choose|i: int| 0 <= i < ids.len() && ids[i] == max_of(ids);
            assert(levels[last][i].file_id == max_file_id(levels));
        } else {
            let (l, i) = choose|l: int, i: int|
                0 <= l < shorter.len() && 0 <= i < shorter[l].len() && (
                #[trigger] shorter[l][i]).file_id == max_file_id(shorter);
            assert(levels[l][i].file_id == max_file_id(levels));
        }
    }
}

proof fn lemma_max_file_id(levels: Seq<LevelView>, l: int, i: int)
    requires
        0 <= l < levels.len(),
        0 <= i < levels[l].len(),
    ensures
        levels[l][i].file_id <= max_file_id(levels),
    decreases levels.len(),
{
    if l < levels.len() - 1 {
        lemma_max_file_id(levels.drop_last(), l, i);
    } else {
        lemma_max_of(file_ids(levels[l]), i);
    }
}

/// Whether the numbers that come next are beyond those in use.
pub open spec fn ids_are_fresh(m: ManifestView) -> bool {
    &&& forall|i: int| 0 <= i < m.wals.len() ==> #[trigger] m.wals[i] < m.next_wal_id
    &&& forall|l: int, i: int|
        0 <= l < m.levels.len() && 0 <= i < m.levels[l].len() ==> (#[trigger] m.levels[l][i]).file_id
            < m.next_sstable_id
}

/// The numbers recovered at startup are beyond those in use.
pub proof fn lemma_recovered_ids_fresh(m: ManifestView)
    requires
        m.next_wal_id == max_of(m.wals) + 1,
        m.next_sstable_id == max_file_id(m.levels) + 1,
    ensures
        ids_are_fresh(m),
{
    assert forall|i: int| 0 <= i < m.wals.len() implies #[trigger] m.wals[i] < m.next_wal_id by {
        lemma_max_of(m.wals, i);
    }
    assert forall|l: int, i: int|
        0 <= l < m.levels.len() && 0 <= i < m.levels[l].len() implies (#[trigger] m.levels[l][i]).file_id
        < m.next_sstable_id by {
        lemma_max_file_id(m.levels, l, i);
    }
}

/// A manifest with one more log; the number that comes next is beyond that of the log.
/// `written` says whether the manifest is on disk, which is when the version counts up.
pub open spec fn with_wal(m: ManifestView, id: u32, written: bool) -> ManifestView {
    ManifestView {
        wals: m.wals.push(id),
        next_wal_id: if id >= m.next_wal_id {
            (id + 1) as u32
        } else {
            m.next_wal_id
        },
        version: if written {
            (m.version + 1) as u32
        } else {
            m.version
        },
        ..m
    }
}

/// A new log leaves the numbers that come next beyond those in use, so no two logs are given
/// the same number.
pub proof fn lemma_new_wal_ids_fresh(m: ManifestView, id: u32, written: bool)
    requires
        ids_are_fresh(m),
        id < u32::MAX,
    ensures
        ids_are_fresh(with_wal(m, id, written)),
        id == m.next_wal_id ==> !m.wals.contains(id),
{
    let after = with_wal(m, id, written);
    assert forall|i: int| 0 <= i < after.wals.len() implies #[trigger] after.wals[i]
        < after.next_wal_id by {
        if i < m.wals.len() {
            assert(m.wals[i] < m.next_wal_id);
        }
    }
    if m.wals.contains(id) {
        let i = choose|i: int| 0 <= i < m.wals.len() && m.wals[i] == id;
        assert(m.wals[i] < m.next_wal_id);
    }
}

fn max_id(ids: &Vec<u32>) -> (r: u32)
    ensures
        r == max_of(ids@),
{
    let mut r: u32 = 0;
    let mut i: usize = 0;
    while i < ids.len()
        invariant
            i <= ids.len(),
            r == max_of(ids@.take(i as int)),
        decreases ids.len() - i,
    {
        assert(ids@.take(i + 1).drop_last() =~= ids@.take(i as int));
        if ids[i] > r {
            r = ids[i];
        }
        i = i + 1;
    }
    assert(ids@.take(i as int) =~= ids@);
    r
}

fn max_level_id(files: &Vec<FileMetadata>) -> (r: u32)
    ensures
        r == max_of(file_ids(files.deep_view())),
{
    let ghost ids = file_ids(files.deep_view());
    let mut r: u32 = 0;
    let mut i: usize = 0;
    while i < files.len()
        invariant
            i <= files.len(),
            ids == file_ids(files.deep_view()),
            r == max_of(ids.take(i as int)),
        decreases files.len() - i,
    {
        assert(ids.take(i + 1).drop_last() =~= ids.take(i as int));
        if files[i].file_id > r {
            r = files[i].file_id;
        }
        i = i + 1;
    }
    assert(ids.take(i as int) =~= ids);
    r
}

impl Clone for Manifest {
    fn clone(&self) -> (r: Manifest)
        ensures
            r@ == self@,
    {
        let mut levels: Vec<Level> = Vec::new();
        let mut i: usize = 0;
        while i < self.levels.len()
            invariant
                i <= self.levels.len(),
                levels.deep_view() == self.levels.deep_view().take(i as int),
            decreases self.levels.len() - i,
        {
            let ghost before = levels.deep_view();
            levels.push(self.levels[i].clone());
            proof {
                let all = self.levels.deep_view();
                assert(levels.deep_view() =~= before.push(all[i as int]));
                assert(all.take(i + 1) =~= all.take(i as int).push(all[i as int]));
            }
            i = i + 1;
        }
        assert(self.levels.deep_view().take(i as int) =~= self.levels.deep_view());
        let r = Manifest {
            wals: self.wals.clone(),
            levels,
            next_wal_id: self.next_wal_id,
            next_sstable_id: self.next_sstable_id,
            version: self.version,
        };
        assert(r.wals@ =~= self.wals@);
        assert(r@ =~= self@);
        r
    }
}

/// Which of some file names is that of the manifest to start from: the highest version, and
/// the last of equals.
pub open spec fn is_latest(names: Seq<Seq<u8>>, i: int) -> bool {
    &&& 0 <= i < names.len()
    &&& manifest_version_of(names[i]) is Some
    &&& forall|j: int|
        0 <= j < names.len() && (#[trigger] manifest_version_of(names[j])) is Some
            ==> manifest_version_of(names[j])->0 <= manifest_version_of(names[i])->0
    &&& forall|j: int|
        i < j < names.len() && (#[trigger] manifest_version_of(names[j])) is Some
            ==> manifest_version_of(names[j])->0 < manifest_version_of(names[i])->0
}

/// There is one manifest to start from: no other has a higher version, and none that is listed
/// behind it has the same.
pub proof fn lemma_one_latest(names: Seq<Seq<u8>>, i: int, j: int)
    requires
        is_latest(names, i),
        0 <= j < names.len(),
        manifest_version_of(names[j]) is Some,
    ensures
        manifest_version_of(names[j])->0 <= manifest_version_of(names[i])->0,
        manifest_version_of(names[j]) == manifest_version_of(names[i]) ==> j <= i,
        is_latest(names, j) ==> i == j,
{
}

/// Finds the manifest to start from among the files of a directory.
pub fn latest_manifest(names: &Vec<Vec<u8>>) -> (r: Option<usize>)
    ensures
        match r {
            Some(i) => is_latest(names.deep_view(), i as int),
            None => forall|j: int|
                0 <= j < names.len() ==> manifest_version_of(
                    #[trigger] names.deep_view()[j],
                ) is None,
        },
        r matches Some(i) ==> i < names@.len(),
        forall|j: int, v: u32|
            0 <= j < names@.len() && #[trigger] names.deep_view()[j] == #[trigger] name_of(
                v,
                FileKind::Manifest,
            ) ==> r is Some,
        forall|j: int, v: u32, w: u32|
            0 <= j < names@.len() && #[trigger] names.deep_view()[j] == #[trigger] name_of(
                v,
                FileKind::Manifest,
            ) && (r matches Some(i) && names.deep_view()[i as int] == #[trigger] name_of(
                w,
                FileKind::Manifest,
            )) ==> v <= w,
{
    let ghost all = names.deep_view();
    let mut best: Option<(usize, u32)> = None;
    let mut i: usize = 0;
    while i < names.len()
        invariant
            i <= names.len(),
            all == names.deep_view(),
            match best {
                Some((b, v)) => b < i && is_latest(all.take(i as int), b as int)
                    && manifest_version_of(all[b as int]) == Some(v as nat),
                None => forall|j: int|
                    0 <= j < i ==> manifest_version_of(#[trigger] all[j]) is None,
            },
        decreases names.len() - i,
    {
        let ghost shorter = all.take(i as int);
        let ghost longer = all.take(i + 1);
        assert(names[i as int].deep_view() =~= names[i as int]@);
        match manifest_version(names[i].as_slice()) {
            Some(v) => {
                let better: bool = match best {
                    Some((_, w)) => v >= w,
                    None => true,
                };
                if better {
                    proof {
                        assert forall|j: int|
                            0 <= j < longer.len() && (#[trigger] manifest_version_of(
                                longer[j],
                            )) is Some implies manifest_version_of(longer[j])->0
                            <= manifest_version_of(longer[i as int])->0 by {
                            if j < i {
                                assert(longer[j] == shorter[j]);
                                assert(all[j] == shorter[j]);
                            }
                        }
                    }
                    best = Some((i, v));
                    assert(is_latest(longer, i as int));
                } else {
                    proof {
                        let b = (best->0).0 as int;
                        assert(longer[b] == shorter[b]);
                        assert forall|j: int|
                            0 <= j < longer.len() && (#[trigger] manifest_version_of(
                                longer[j],
                            )) is Some implies manifest_version_of(longer[j])->0
                            <= manifest_version_of(longer[b])->0 by {
                            if j < i {
                                assert(longer[j] == shorter[j]);
                            }
                        }
                        assert forall|j: int|
                            b < j < longer.len() && (#[trigger] manifest_version_of(
                                longer[j],
                            )) is Some implies manifest_version_of(longer[j])->0
                            < manifest_version_of(longer[b])->0 by {
                            if j < i {
                                assert(longer[j] == shorter[j]);
                            }
                        }
                        assert(is_latest(longer, b));
                    }
                }
            },
            None => {
                proof {
                    if best is Some {
                        let b = (best->0).0 as int;
                        assert(longer[b] == shorter[b]);
                        assert forall|j: int|
                            0 <= j < longer.len() && (#[trigger] manifest_version_of(
                                longer[j],
                            )) is Some implies manifest_version_of(longer[j])->0
                            <= manifest_version_of(longer[b])->0 by {
                            assert(longer[j] == shorter[j]);
                        }
                        assert forall|j: int|
                            b < j < longer.len() && (#[trigger] manifest_version_of(
                                longer[j],
                            )) is Some implies manifest_version_of(longer[j])->0
                            < manifest_version_of(longer[b])->0 by {
                            assert(longer[j] == shorter[j]);
                        }
                        assert(is_latest(longer, b));
                    }
                }
            },
        }
        i = i + 1;
    }
    assert(all.take(i as int) =~= all);
    let r: Option<usize> = match best {
        Some((b, _)) => Some(b),
        None => None,
    };
    proof {
        assert forall|j: int, v: u32|
            0 <= j < all.len() && #[trigger] all[j] == #[trigger] name_of(
                v,
                FileKind::Manifest,
            ) implies r is Some by {
            lemma_manifest_name(v);
        }
        assert forall|j: int, v: u32, w: u32|
            0 <= j < all.len() && #[trigger] all[j] == #[trigger] name_of(
                v,
                FileKind::Manifest,
            ) && (r matches Some(i) && all[i as int] == #[trigger] name_of(
                w,
                FileKind::Manifest,
            )) implies v <= w by {
            lemma_manifest_name(v);
            lemma_manifest_name(w);
            assert(manifest_version_of(all[j]) is Some);
        }
    }
    r
}

/// The error for a manifest that is there and cannot be opened, given how its path and the
/// reason read.
pub fn unreadable_manifest(path: &str, reason: &str) -> (e: DbError)
    ensures
        e@ == ErrorView::ManifestReadError(
            "Failed to open manifest at "@ + path@ + ": "@ + reason@
                + ". Please delete this file and retry."@,
        ),
{
    let mut message = String::from_str("Failed to open manifest at ");
    message.append(path);
    message.append(": ");
    message.append(reason);
    message.append(". Please delete this file and retry.");
    DbError::ManifestReadError(message)
}

/// What starting in an empty directory creates.
pub struct PristineStart {
    pub manifest: Manifest,
    pub manifest_name: Vec<u8>,
    pub manifest_contents: Vec<u8>,
    pub wal_name: Vec<u8>,
    pub wal_contents: Vec<u8>,
}

impl Manifest {
    pub const MANIFEST_EXTENSION: &'static str = ".mf";

    /// A manifest with one log and no table.
    pub fn new(initial_wal_id: u32) -> (m: Manifest)
        requires
            initial_wal_id < u32::MAX,
        ensures
            m@ == (ManifestView {
                wals: seq![initial_wal_id],
                levels: Seq::empty(),
                next_wal_id: (initial_wal_id + 1) as u32,
                next_sstable_id: 0,
                version: 0,
            }),
            ids_are_fresh(m@),
    {
        let m = Manifest {
            wals: vec![initial_wal_id],
            levels: Vec::new(),
            next_wal_id: initial_wal_id + 1,
            next_sstable_id: 0,
            version: 0,
        };
        assert(m@.wals =~= seq![initial_wal_id]);
        assert(m@.levels =~= Seq::<LevelView>::empty());
        m
    }

    /// Whether there are numbers beyond those in use.
    pub fn has_free_ids(&self) -> (r: bool)
        ensures
            r == (max_of(self@.wals) < u32::MAX && max_file_id(self@.levels) < u32::MAX),
    {
        assert(self.wals.deep_view() =~= self.wals@);
        max_id(&self.wals) < u32::MAX && self.max_sstable_id() < u32::MAX
    }

    fn max_sstable_id(&self) -> (r: u32)
        ensures
            r == max_file_id(self@.levels),
    {
        let ghost levels = self.levels.deep_view();
        let mut r: u32 = 0;
        let mut i: usize = 0;
        while i < self.levels.len()
            invariant
                i <= self.levels.len(),
                levels == self.levels.deep_view(),
                r == max_file_id(levels.take(i as int)),
            decreases self.levels.len() - i,
        {
            assert(levels.take(i + 1).drop_last() =~= levels.take(i as int));
            let m: u32 = max_level_id(&self.levels[i].files);
            if m > r {
                r = m;
            }
            i = i + 1;
        }
        assert(levels.take(i as int) =~= levels);
        r
    }

    /// Sets what is not persisted: the version, and the numbers that come next.
    pub fn recover_counters(&mut self, version: u32)
        requires
            max_of(old(self)@.wals) < u32::MAX,
            max_file_id(old(self)@.levels) < u32::MAX,
        ensures
            final(self)@ == (ManifestView {
                version,
                next_wal_id: (max_of(old(self)@.wals) + 1) as u32,
                next_sstable_id: (max_file_id(old(self)@.levels) + 1) as u32,
                ..old(self)@
            }),
    {
        assert(self.wals.deep_view() =~= self.wals@);
        self.version = version;
        self.next_wal_id = max_id(&self.wals) + 1;
        self.next_sstable_id = self.max_sstable_id() + 1;
    }

    /// Opens a manifest, given what its file holds, the stem of the file's name and the path
    /// that an error is to show. There is none where a number in use leaves no number
    /// beyond it.
    pub fn try_open(contents: &[u8], file_stem: &[u8], path: &str) -> (r: Result<
        Option<Manifest>,
        DbError,
    >)
        ensures
            match Manifest::spec_decode(contents@).0 {
                Ok(m) => match number_of(file_stem@, u32::MAX as nat) {
                    Some(version) => {
                        let free = max_of(m.wals) < u32::MAX && max_file_id(m.levels) < u32::MAX;
                        &&& r matches Ok(opened)
                        &&& opened is Some <==> free
                        &&& opened matches Some(manifest) ==> manifest@ == ManifestView {
                            version: version as u32,
                            next_wal_id: (max_of(m.wals) + 1) as u32,
                            next_sstable_id: (max_file_id(m.levels) + 1) as u32,
                            ..m
                        }
                    },
                    None => r matches Err(e) && e@ == ErrorView::ManifestReadError(
                        "Invalid manifest file name: "@ + path@,
                    ),
                },
                Err(f) => r matches Err(e) && e == f,
            },
    {
        let mut reader: &[u8] = contents;
        let mut manifest = match Manifest::decode(&mut reader) {
            Ok(m) => m,
            Err(e) => {
                return Err(e);
            },
        };
        let version: u32 = match parse_u32(file_stem) {
            Some(version) => version,
            None => {
                let message = String::from_str("Invalid manifest file name: ").concat(path);
                return Err(DbError::ManifestReadError(message));
            },
        };
        if manifest.has_free_ids() {
            manifest.recover_counters(version);
            Ok(Some(manifest))
        } else {
            Ok(None)
        }
    }

    /// What starting in an empty directory creates: an empty log and a manifest with it.
    pub fn prepare_pristine_start() -> (start: PristineStart)
        ensures
            start.manifest@ == (ManifestView {
                wals: seq![0u32],
                levels: Seq::empty(),
                next_wal_id: 1,
                next_sstable_id: 0,
                version: 0,
            }),
            start.manifest_name@ == name_of(0, FileKind::Manifest),
            start.manifest_contents@ == Manifest::spec_encode(start.manifest@),
            start.wal_name@ == name_of(0, FileKind::Wal),
            start.wal_contents@ == log_header(),
    {
        let mut wal_contents: Vec<u8> = Vec::new();
        crate::data_stores::wal::WAL_MAGIC.encode(&mut wal_contents);
        assert(wal_contents@ =~= log_header());
        let manifest = Manifest::new(0);
        let (manifest_name, manifest_contents) = manifest.write_to_disk(0);
        PristineStart {
            manifest,
            manifest_name,
            manifest_contents,
            wal_name: file_name(0, FileKind::Wal),
            wal_contents,
        }
    }

    /// The file of the manifest under a version: its name and its contents.
    pub fn write_to_disk(&self, new_version: u32) -> (r: (Vec<u8>, Vec<u8>))
        ensures
            r.0@ == name_of(new_version, FileKind::Manifest),
            r.1@ == Manifest::spec_encode(self@),
    {
        let mut contents: Vec<u8> = Vec::new();
        self.encode(&mut contents);
        assert(contents@ =~= Manifest::spec_encode(self@));
        (file_name(new_version, FileKind::Manifest), contents)
    }

    /// The number of the log that comes next: the next one that is available.
    pub fn next_wal_id(&self) -> (id: u32)
        ensures
            id == self@.next_wal_id,
    {
        self.next_wal_id
    }

    /// Takes the number of the table that comes next.
    pub fn take_sstable_id(&mut self) -> (id: u32)
        requires
            old(self)@.next_sstable_id < u32::MAX,
        ensures
            id == old(self)@.next_sstable_id,
            final(self)@ == (ManifestView {
                next_sstable_id: (old(self)@.next_sstable_id + 1) as u32,
                ..old(self)@
            }),
    {
        let id: u32 = self.next_sstable_id;
        self.next_sstable_id = id + 1;
        id
    }

    /// The manifest file that adding a log calls for.
    pub fn prepare_new_wal(&self, wal: &Wal<Writable>) -> (r: (Vec<u8>, Vec<u8>))
        requires
            self@.version < u32::MAX,
        ensures
            r.0@ == name_of((self@.version + 1) as u32, FileKind::Manifest),
            r.1@ == Manifest::spec_encode(
                ManifestView { wals: self@.wals.push(wal.id), ..self@ },
            ),
    {
        let mut next = self.clone();
        next.wals.push(wal.id);
        assert(next@.wals =~= self@.wals.push(wal.id));
        assert(next@ =~= ManifestView { wals: self@.wals.push(wal.id), ..self@ });
        next.write_to_disk(self.version + 1)
    }

    /// Adds a log that exists on disk; `written` says whether the file of the new version
    /// could be written. The version counts up only where it could. The number of the log is
    /// no longer available in either case, as the log is listed.
    pub fn commit_new_wal(
        &mut self,
        wal: &Wal<Writable>,
        written: Result<(), DbError>,
    ) -> (r: Result<(), DbError>)
        requires
            old(self)@.version < u32::MAX,
            wal.id < u32::MAX,
        ensures
            r is Ok <==> written is Ok,
            r matches Err(e) ==> e == written->Err_0,
            final(self)@ == with_wal(old(self)@, wal.id, written is Ok),
            final(self)@.wals == old(self)@.wals.push(wal.id),
            final(self)@.levels == old(self)@.levels,
            final(self)@.next_sstable_id == old(self)@.next_sstable_id,
            final(self)@.next_wal_id > wal.id,
            final(self)@.next_wal_id == old(self)@.next_wal_id || final(self)@.next_wal_id
                == wal.id + 1,
            final(self)@.next_wal_id >= old(self)@.next_wal_id,
            written is Ok ==> final(self)@.version == old(self)@.version + 1,
            written is Err ==> final(self)@.version == old(self)@.version,
    {
        self.wals.push(wal.id);
        assert(self@.wals =~= old(self)@.wals.push(wal.id));
        if wal.id >= self.next_wal_id {
            self.next_wal_id = wal.id + 1;
        }
        match written {
            Ok(()) => {
                self.version = self.version + 1;
                Ok(())
            },
            Err(e) => Err(e),
        }
    }
}

// --- Updates that may lose to others ---

/// How often an update of the manifest is tried.
pub const MAX_UPDATE_ATTEMPTS: u32 = 3;

/// An update of a manifest under way, and how often it has been tried.
pub struct AtomicUpdate {
    pub attempts: u32,
}

impl AtomicUpdate {
    pub fn new() -> (update: AtomicUpdate)
        ensures
            update.attempts == 0,
    {
        AtomicUpdate { attempts: 0 }
    }

    /// Starts another attempt, unless there have been enough.
    pub fn start_attempt(&mut self) -> (r: Result<(), DbError>)
        requires
            old(self).attempts <= MAX_UPDATE_ATTEMPTS,
        ensures
            old(self).attempts < MAX_UPDATE_ATTEMPTS ==> r is Ok && final(self).attempts == old(
                self,
            ).attempts + 1,
            old(self).attempts == MAX_UPDATE_ATTEMPTS ==> *final(self) == *old(self) && (r matches Err(
                e,
            ) && e == DbError::Io(IoErrorKind::RetriesExceeded)),
            r is Ok <==> old(self).attempts < 3,
    {
        if self.attempts >= MAX_UPDATE_ATTEMPTS {
            return Err(DbError::Io(IoErrorKind::RetriesExceeded));
        }
        self.attempts = self.attempts + 1;
        Ok(())
    }
}

impl Manifest {
    /// Gives a changed copy of a manifest its version: one more than the original's.
    pub fn advance_version(&mut self)
        requires
            old(self)@.version < u32::MAX,
        ensures
            final(self)@ == (ManifestView {
                version: (old(self)@.version + 1) as u32,
                ..old(self)@
            }),
    {
        self.version = self.version + 1;
    }

    /// Puts `candidate` in place of the manifest, unless the version is no longer the one
    /// that the candidate was made from.
    pub fn compare_and_swap(&mut self, start_version: u32, candidate: &Manifest) -> (r: bool)
        ensures
            r == (old(self)@.version == start_version),
            final(self)@ == (if r {
                candidate@
            } else {
                old(self)@
            }),
    {
        if self.version != start_version {
            return false;
        }
        *self = candidate.clone();
        true
    }
}

} // verus!
