//! The keyblock container and the key records inside it.
//!
//! Wire layout, every integer little-endian:
//!
//! ```text
//! keyblock := magic(5) version(u16) flags(u64) secret(32) uid(u16)
//!             name(cstr) description(cstr) count(u64)
//!             keyfile{count} signature(50)
//! keyfile  := flags(u64) secret(32) uid(u16) path(cstr) name(cstr)
//!             description(cstr) length(u64) content(length/8 bytes)
//! cstr     := bytes without NUL, then a single NUL
//! magic    := the 5 bytes of "banjo"
//! ```
//!
//! Parsing reads the fields in this exact order and fails fast: the first
//! structural violation aborts the whole parse with the matching
//! [`ParseErrors`] value. Serialization writes the mirror image, except
//! that the version written is always the supported one and the key
//! records are written in the order the block holds them.

use crate::wire::{
    read_bytes_at, read_u16_at, read_u64_at, spec_cstr_bytes, spec_read_bytes, spec_read_cstr,
    spec_read_u16, spec_read_u64, wire_text, write_bytes, write_cstr, write_u16, write_u64,
};
use vstd::bytes::*;
use vstd::prelude::*;
use vstd::utf8::is_ascii_chars;

verus! {

/// The one format version this implementation understands.
pub const FORMAT_SPECIFIER: u16 = 1;

/// Size of a wrapped AES-256 secret, in bytes.
pub const SECRET_BYTES: usize = 32;

/// Size of the trailing signature field as transmitted, in bytes. The
/// format's grammar states 50 bits; 50 bytes is what goes on the wire,
/// a quirk kept as-is.
pub const SIGNATURE_BYTES: usize = 50;

/// The 5 magic bytes of "banjo" that start every keyblock.
pub open spec fn spec_magic() -> Seq<u8> {
    seq![0x62u8, 0x61u8, 0x6eu8, 0x6au8, 0x6fu8]
}

/// One encrypted key record inside a block.
#[derive(Debug, Clone, PartialEq)]
pub struct KeyFile {
    /// Set of option/setting flags for this key.
    pub flags: u64,
    /// Wrapped AES-256 secret; opaque ciphertext at this layer.
    pub secret: Vec<u8>,
    /// Unique ID of this key; by convention its high byte is ASCII 'F',
    /// which the codec does not enforce.
    pub uid: u16,
    /// Path to the key; the lookup key within the owning block.
    pub path: String,
    /// Name of this key.
    pub name: String,
    /// Description of this key.
    pub description: String,
    /// Declared bit-length of the key content.
    pub length: u64,
    /// Encrypted key content; `length / 8` bytes when well-formed.
    pub content: Vec<u8>,
}

/// The outer container: a set of key records under one signature.
///
/// The root public key that will eventually check `signature` is a
/// caller-held handle; the codec never reads it, so it is not part of
/// this structure.
#[derive(Debug, Clone, PartialEq)]
pub struct KeyBlock {
    /// Format version tag; `load` only ever produces the supported one.
    pub format_specifier: u16,
    /// Set of option/setting flags for this block.
    pub flags: u64,
    /// Wrapped AES-256 block secret; opaque ciphertext at this layer.
    pub secret: Vec<u8>,
    /// Unique ID of this block; by convention its high byte is ASCII 'B',
    /// which the codec does not enforce.
    pub uid: u16,
    /// Name of this block.
    pub name: String,
    /// Description of this block.
    pub description: String,
    /// The key records, in wire order. Within a parsed block the paths
    /// are unique: a record whose path repeats an earlier one replaces
    /// it (and moves to the end of the order).
    pub keys: Vec<KeyFile>,
    /// Block signature over the preceding bytes, unverified at parse
    /// time.
    pub signature: Vec<u8>,
}

/// Mathematical image of a [`KeyFile`].
pub ghost struct KeyFileV {
    pub flags: u64,
    pub secret: Seq<u8>,
    pub uid: u16,
    pub path: Seq<char>,
    pub name: Seq<char>,
    pub description: Seq<char>,
    pub length: u64,
    pub content: Seq<u8>,
}

/// Mathematical image of a [`KeyBlock`].
pub ghost struct KeyBlockV {
    pub format_specifier: u16,
    pub flags: u64,
    pub secret: Seq<u8>,
    pub uid: u16,
    pub name: Seq<char>,
    pub description: Seq<char>,
    pub keys: Seq<KeyFileV>,
    pub signature: Seq<u8>,
}

impl View for KeyFile {
    type V = KeyFileV;

    open spec fn view(&self) -> KeyFileV {
        KeyFileV {
            flags: self.flags,
            secret: self.secret@,
            uid: self.uid,
            path: self.path@,
            name: self.name@,
            description: self.description@,
            length: self.length,
            content: self.content@,
        }
    }
}

/// The images of a sequence of records.
pub open spec fn views_of(s: Seq<KeyFile>) -> Seq<KeyFileV> {
    Seq::new(s.len(), |i: int| s[i]@)
}

impl View for KeyBlock {
    type V = KeyBlockV;

    open spec fn view(&self) -> KeyBlockV {
        KeyBlockV {
            format_specifier: self.format_specifier,
            flags: self.flags,
            secret: self.secret@,
            uid: self.uid,
            name: self.name@,
            description: self.description@,
            keys: views_of(self.keys@),
            signature: self.signature@,
        }
    }
}

impl KeyFileV {
    /// Structural invariant of a record: fixed-size fields have their
    /// sizes, the content carries exactly `length / 8` bytes, and the
    /// text fields fit the wire format.
    pub open spec fn wf(self) -> bool {
        &&& self.secret.len() == SECRET_BYTES
        &&& self.content.len() == self.length / 8
        &&& wire_text(self.path)
        &&& wire_text(self.name)
        &&& wire_text(self.description)
    }
}

impl KeyBlockV {
    /// No two records of the block share a path.
    pub open spec fn paths_unique(self) -> bool {
        forall|i: int, j: int|
            0 <= i < j < self.keys.len() ==> self.keys[i].path != self.keys[j].path
    }

    /// Structural invariant of a block, except for path uniqueness:
    /// fixed-size fields have their sizes, the version is the supported
    /// one, the text fields fit the wire format and every record is
    /// well-formed.
    pub open spec fn wf_fields(self) -> bool {
        &&& self.format_specifier == FORMAT_SPECIFIER
        &&& self.secret.len() == SECRET_BYTES
        &&& self.signature.len() == SIGNATURE_BYTES
        &&& wire_text(self.name)
        &&& wire_text(self.description)
        &&& self.keys.len() <= u64::MAX
        &&& forall|i: int| 0 <= i < self.keys.len() ==> (#[trigger] self.keys[i]).wf()
    }

    /// Full structural invariant of a block.
    pub open spec fn wf(self) -> bool {
        self.wf_fields() && self.paths_unique()
    }
}

/// Enumeration of the potential errors when parsing keyblocks.
#[derive(Debug, PartialEq)]
pub enum ParseErrors {
    /// An error occurred when parsing the key record with the given
    /// zero-based index; the cause is carried alongside.
    KeyfileParseError(u64, Box<ParseErrors>),
    /// The byte source faulted in a way that is not a clean end of
    /// input. Parsing an in-memory buffer never produces this; it is
    /// the classification callers use for stream faults.
    IOError,
    /// End of input reached where the format requires more bytes.
    UnexpectedEof,
    /// The leading bytes are not the magic tag.
    InvalidMagicNumber,
    /// The format specifier is not the supported version.
    UnknownFormatSpecifier,
}

// ---------------------------------------------------------------------
// Serialization, as a mathematical function on the images.
// ---------------------------------------------------------------------
/// The bytes of one serialized record.
pub open spec fn spec_keyfile_bytes(k: KeyFileV) -> Seq<u8> {
    spec_u64_to_le_bytes(k.flags) + k.secret + spec_u16_to_le_bytes(k.uid) + spec_cstr_bytes(
        k.path,
    ) + spec_cstr_bytes(k.name) + spec_cstr_bytes(k.description) + spec_u64_to_le_bytes(k.length)
        + k.content
}

/// The bytes of a sequence of serialized records, in order.
pub open spec fn spec_keyfiles_bytes(ks: Seq<KeyFileV>) -> Seq<u8>
    decreases ks.len(),
{
    if ks.len() == 0 {
        Seq::empty()
    } else {
        spec_keyfile_bytes(ks[0]) + spec_keyfiles_bytes(ks.drop_first())
    }
}

/// The bytes of a serialized block. The version written is the supported
/// constant, whatever the block's own tag says, mirroring `serialize`.
pub open spec fn spec_keyblock_bytes(b: KeyBlockV) -> Seq<u8> {
    spec_magic() + spec_u16_to_le_bytes(FORMAT_SPECIFIER) + spec_u64_to_le_bytes(b.flags)
        + b.secret + spec_u16_to_le_bytes(b.uid) + spec_cstr_bytes(b.name) + spec_cstr_bytes(
        b.description,
    ) + spec_u64_to_le_bytes(b.keys.len() as u64) + spec_keyfiles_bytes(b.keys) + b.signature
}

// ---------------------------------------------------------------------
// Parsing, as a mathematical function on byte sequences.
// ---------------------------------------------------------------------
/// All records whose path is `path`, removed.
pub open spec fn spec_remove_path(ks: Seq<KeyFileV>, path: Seq<char>) -> Seq<KeyFileV>
    decreases ks.len(),
{
    if ks.len() == 0 {
        ks
    } else if ks[0].path == path {
        spec_remove_path(ks.drop_first(), path)
    } else {
        seq![ks[0]] + spec_remove_path(ks.drop_first(), path)
    }
}

/// Keyed insertion into the record sequence: a record replaces any
/// earlier one with the same path, and takes the last position.
pub open spec fn spec_insert(ks: Seq<KeyFileV>, k: KeyFileV) -> Seq<KeyFileV> {
    spec_remove_path(ks, k.path).push(k)
}

/// Parse of one record at `pos`. Every short read is an unexpected end
/// of input; string fields cannot fail (a missing terminator yields the
/// bytes up to the end of the buffer).
pub open spec fn spec_parse_keyfile(b: Seq<u8>, pos: int) -> Result<(KeyFileV, int), ParseErrors> {
    match spec_read_u64(b, pos) {
        None => Err(ParseErrors::UnexpectedEof),
        Some((flags, p1)) => match spec_read_bytes(b, p1, SECRET_BYTES as int) {
            None => Err(ParseErrors::UnexpectedEof),
            Some((secret, p2)) => match spec_read_u16(b, p2) {
                None => Err(ParseErrors::UnexpectedEof),
                Some((uid, p3)) => {
                    let (path, p4) = spec_read_cstr(b, p3);
                    let (name, p5) = spec_read_cstr(b, p4);
                    let (description, p6) = spec_read_cstr(b, p5);
                    match spec_read_u64(b, p6) {
                        None => Err(ParseErrors::UnexpectedEof),
                        Some((length, p7)) => match spec_read_bytes(b, p7, length as int / 8) {
                            None => Err(ParseErrors::UnexpectedEof),
                            Some((content, p8)) => Ok(
                                (
                                    KeyFileV {
                                        flags,
                                        secret,
                                        uid,
                                        path,
                                        name,
                                        description,
                                        length,
                                        content,
                                    },
                                    p8,
                                ),
                            ),
                        },
                    }
                },
            },
        },
    }
}

/// Parse of records `i` up to `n`, folding each into `acc` by keyed
/// insertion. A record that fails to parse aborts the whole run with
/// its index and cause wrapped together.
pub open spec fn spec_parse_keyfiles(
    b: Seq<u8>,
    pos: int,
    n: u64,
    i: u64,
    acc: Seq<KeyFileV>,
) -> Result<(Seq<KeyFileV>, int), ParseErrors>
    decreases n - i,
{
    if i >= n {
        Ok((acc, pos))
    } else {
        match spec_parse_keyfile(b, pos) {
            Ok((k, p2)) => spec_parse_keyfiles(b, p2, n, (i + 1) as u64, spec_insert(acc, k)),
            Err(e) => Err(ParseErrors::KeyfileParseError(i, Box::new(e))),
        }
    }
}

/// Parse of a whole block. The magic is checked before anything else;
/// a buffer shorter than the magic is an invalid magic, not an end of
/// input. Bytes after the signature are ignored.
pub open spec fn spec_parse_keyblock(b: Seq<u8>) -> Result<KeyBlockV, ParseErrors> {
    if b.len() < 5 {
        Err(ParseErrors::InvalidMagicNumber)
    } else if b.subrange(0, 5) != spec_magic() {
        Err(ParseErrors::InvalidMagicNumber)
    } else {
        match spec_read_u16(b, 5) {
            None => Err(ParseErrors::UnexpectedEof),
            Some((version, p1)) => {
                if version != FORMAT_SPECIFIER {
                    Err(ParseErrors::UnknownFormatSpecifier)
                } else {
                    match spec_read_u64(b, p1) {
                        None => Err(ParseErrors::UnexpectedEof),
                        Some((flags, p2)) => match spec_read_bytes(b, p2, SECRET_BYTES as int) {
                            None => Err(ParseErrors::UnexpectedEof),
                            Some((secret, p3)) => match spec_read_u16(b, p3) {
                                None => Err(ParseErrors::UnexpectedEof),
                                Some((uid, p4)) => {
                                    let (name, p5) = spec_read_cstr(b, p4);
                                    let (description, p6) = spec_read_cstr(b, p5);
                                    match spec_read_u64(b, p6) {
                                        None => Err(ParseErrors::UnexpectedEof),
                                        Some((count, p7)) => match spec_parse_keyfiles(
                                            b,
                                            p7,
                                            count,
                                            0,
                                            Seq::empty(),
                                        ) {
                                            Err(e) => Err(e),
                                            Ok((keys, p8)) => match spec_read_bytes(
                                                b,
                                                p8,
                                                SIGNATURE_BYTES as int,
                                            ) {
                                                None => Err(ParseErrors::UnexpectedEof),
                                                Some((signature, _p9)) => Ok(
                                                    KeyBlockV {
                                                        format_specifier: version,
                                                        flags,
                                                        secret,
                                                        uid,
                                                        name,
                                                        description,
                                                        keys,
                                                        signature,
                                                    },
                                                ),
                                            },
                                        },
                                    }
                                },
                            },
                        },
                    }
                }
            },
        }
    }
}

impl KeyFile {
    /// Whether this record's text fields fit the wire format (ASCII, no
    /// embedded NUL); serialization requires it.
    pub open spec fn wire_texts(self) -> bool {
        is_ascii_chars(self.path@) && is_ascii_chars(self.name@) && is_ascii_chars(
            self.description@,
        )
    }

    /// Parses one key record from `bytes` at `pos`, returning the record
    /// and the position just past it.
    pub fn load(bytes: &Vec<u8>, pos: usize) -> (r: Result<(KeyFile, usize), ParseErrors>)
        requires
            pos <= bytes@.len(),
        ensures
            match r {
                Ok(t) => spec_parse_keyfile(bytes@, pos as int) == Ok::<_, ParseErrors>(
                    (t.0@, t.1 as int),
                ) && t.1 <= bytes@.len(),
                Err(e) => spec_parse_keyfile(bytes@, pos as int) == Err::<(KeyFileV, int), _>(e),
            },
    {
        let (flags, p1) = match read_u64_at(bytes, pos) {
            Some(t) => t,
            None => { return Err(ParseErrors::UnexpectedEof) },
        };
        let (secret, p2) = match read_bytes_at(bytes, p1, SECRET_BYTES) {
            Some(t) => t,
            None => { return Err(ParseErrors::UnexpectedEof) },
        };
        let (uid, p3) = match read_u16_at(bytes, p2) {
            Some(t) => t,
            None => { return Err(ParseErrors::UnexpectedEof) },
        };
        let (path, p4) = crate::utils::read_null_string(bytes, p3);
        let (name, p5) = crate::utils::read_null_string(bytes, p4);
        let (description, p6) = crate::utils::read_null_string(bytes, p5);
        let (length, p7) = match read_u64_at(bytes, p6) {
            Some(t) => t,
            None => { return Err(ParseErrors::UnexpectedEof) },
        };
        let wanted = length / 8;
        let remaining = (bytes.len() - p7) as u64;
        if wanted > remaining {
            return Err(ParseErrors::UnexpectedEof);
        }
        let (content, p8) = match read_bytes_at(bytes, p7, wanted as usize) {
            Some(t) => t,
            None => { return Err(ParseErrors::UnexpectedEof) },
        };
        Ok((KeyFile { flags, secret, uid, path, name, description, length, content }, p8))
    }

    /// Serializes this record to the byte layout `load` reads, exactly as
    /// given: a mismatch between `length` and the content's size is
    /// written out unchecked.
    pub fn serialize(&self) -> (r: Vec<u8>)
        requires
            self.wire_texts(),
        ensures
            r@ == spec_keyfile_bytes(self@),
    {
        let mut buffer: Vec<u8> = Vec::new();
        write_u64(&mut buffer, self.flags);
        write_bytes(&mut buffer, &self.secret);
        write_u16(&mut buffer, self.uid);
        write_cstr(&mut buffer, &self.path);
        write_cstr(&mut buffer, &self.name);
        write_cstr(&mut buffer, &self.description);
        write_u64(&mut buffer, self.length);
        write_bytes(&mut buffer, &self.content);
        proof {
            assert(buffer@ =~= spec_keyfile_bytes(self@));
        }
        buffer
    }
}

/// Unfolding of [`spec_remove_path`] at an element that carries the path.
proof fn lemma_remove_path_skip_match(vs: Seq<KeyFileV>, i: int, p: Seq<char>)
    requires
        0 <= i < vs.len(),
        vs[i].path == p,
    ensures
        spec_remove_path(vs.skip(i), p) == spec_remove_path(vs.skip(i + 1), p),
{
    assert(vs.skip(i).drop_first() =~= vs.skip(i + 1));
    assert(vs.skip(i)[0] == vs[i]);
}

/// Unfolding of [`spec_remove_path`] at an element that does not carry
/// the path.
proof fn lemma_remove_path_skip_nomatch(vs: Seq<KeyFileV>, i: int, p: Seq<char>)
    requires
        0 <= i < vs.len(),
        vs[i].path != p,
    ensures
        spec_remove_path(vs.skip(i), p) == seq![vs[i]] + spec_remove_path(vs.skip(i + 1), p),
{
    assert(vs.skip(i).drop_first() =~= vs.skip(i + 1));
    assert(vs.skip(i)[0] == vs[i]);
}

/// Inserts a record by path: every record already carrying the same path
/// leaves, and the new record takes the last position.
fn insert_key(keys: &mut Vec<KeyFile>, k: KeyFile)
    ensures
        views_of(final(keys)@) == spec_insert(views_of(old(keys)@), k@),
{
    let ghost v0 = views_of(old(keys)@);
    let ghost p = k@.path;
    proof {
        assert(views_of(keys@).skip(0) =~= v0);
        assert(views_of(keys@).take(0) + spec_remove_path(v0, p) =~= spec_remove_path(v0, p));
    }
    let mut i: usize = 0;
    while i < keys.len()
        invariant
            i <= keys@.len(),
            spec_remove_path(v0, p) == views_of(keys@).take(i as int) + spec_remove_path(
                views_of(keys@).skip(i as int),
                p,
            ),
            p == k@.path,
        decreases keys@.len() - i,
    {
        let ghost vs = views_of(keys@);
        if keys[i].path == k.path {
            keys.remove(i);
            proof {
                lemma_remove_path_skip_match(vs, i as int, p);
                assert(views_of(keys@) =~= vs.remove(i as int));
                assert(views_of(keys@).take(i as int) =~= vs.take(i as int));
                assert(views_of(keys@).skip(i as int) =~= vs.skip(i as int + 1));
            }
        } else {
            proof {
                lemma_remove_path_skip_nomatch(vs, i as int, p);
                assert(vs.take(i as int + 1) =~= vs.take(i as int).push(vs[i as int]));
                assert(vs.take(i as int) + (seq![vs[i as int]] + spec_remove_path(
                    vs.skip(i as int + 1),
                    p,
                )) =~= vs.take(i as int + 1) + spec_remove_path(vs.skip(i as int + 1), p));
            }
            i = i + 1;
        }
    }
    proof {
        assert(views_of(keys@).skip(i as int) =~= Seq::<KeyFileV>::empty());
        assert(views_of(keys@).take(i as int) =~= views_of(keys@));
        assert(spec_remove_path(v0, p) =~= views_of(keys@));
    }
    keys.push(k);
    proof {
        assert(views_of(keys@) =~= spec_remove_path(v0, p).push(k@));
    }
}

/// Concatenated record bytes grow record by record.
proof fn lemma_keyfiles_bytes_snoc(ks: Seq<KeyFileV>, k: KeyFileV)
    ensures
        spec_keyfiles_bytes(ks.push(k)) == spec_keyfiles_bytes(ks) + spec_keyfile_bytes(k),
    decreases ks.len(),
{
    if ks.len() == 0 {
        assert(ks.push(k)[0] == k);
        assert(ks.push(k).drop_first() =~= Seq::<KeyFileV>::empty());
        assert(spec_keyfiles_bytes(Seq::<KeyFileV>::empty()) == Seq::<u8>::empty());
        assert(spec_keyfiles_bytes(ks.push(k)) =~= spec_keyfile_bytes(k));
        assert(spec_keyfiles_bytes(ks) + spec_keyfile_bytes(k) =~= spec_keyfile_bytes(k));
    } else {
        lemma_keyfiles_bytes_snoc(ks.drop_first(), k);
        assert(ks.push(k).drop_first() =~= ks.drop_first().push(k));
        assert(ks.push(k)[0] == ks[0]);
        assert(spec_keyfile_bytes(ks[0]) + (spec_keyfiles_bytes(ks.drop_first())
            + spec_keyfile_bytes(k)) =~= (spec_keyfile_bytes(ks[0]) + spec_keyfiles_bytes(
            ks.drop_first(),
        )) + spec_keyfile_bytes(k));
    }
}

impl KeyBlock {
    /// Whether every text field of the block and of its records fits the
    /// wire format (ASCII); serialization requires it.
    pub open spec fn wire_texts(self) -> bool {
        &&& is_ascii_chars(self.name@)
        &&& is_ascii_chars(self.description@)
        &&& forall|i: int|
            0 <= i < self.keys@.len() ==> (#[trigger] self.keys@[i]).wire_texts()
    }

    /// Parses a whole block from an in-memory byte buffer: magic and
    /// version checks first, then the scalar and text fields, then the
    /// announced number of key records (a failing record aborts the
    /// parse, wrapped together with its index), then the signature.
    /// Bytes after the signature are ignored.
    pub fn load(bytes: &Vec<u8>) -> (r: Result<KeyBlock, ParseErrors>)
        ensures
            match r {
                Ok(b) => spec_parse_keyblock(bytes@) == Ok::<_, ParseErrors>(b@),
                Err(e) => spec_parse_keyblock(bytes@) == Err::<KeyBlockV, _>(e),
            },
    {
        if bytes.len() < 5 {
            return Err(ParseErrors::InvalidMagicNumber);
        }
        let head = match read_bytes_at(bytes, 0, 5) {
            Some(t) => t.0,
            None => { return Err(ParseErrors::InvalidMagicNumber) },
        };
        let magic = magic_bytes();
        if !crate::utils::compare_buffers(&head, &magic) {
            return Err(ParseErrors::InvalidMagicNumber);
        }
        let (version, p1) = match read_u16_at(bytes, 5) {
            Some(t) => t,
            None => { return Err(ParseErrors::UnexpectedEof) },
        };
        if version != FORMAT_SPECIFIER {
            return Err(ParseErrors::UnknownFormatSpecifier);
        }
        let (flags, p2) = match read_u64_at(bytes, p1) {
            Some(t) => t,
            None => { return Err(ParseErrors::UnexpectedEof) },
        };
        let (secret, p3) = match read_bytes_at(bytes, p2, SECRET_BYTES) {
            Some(t) => t,
            None => { return Err(ParseErrors::UnexpectedEof) },
        };
        let (uid, p4) = match read_u16_at(bytes, p3) {
            Some(t) => t,
            None => { return Err(ParseErrors::UnexpectedEof) },
        };
        let (name, p5) = crate::utils::read_null_string(bytes, p4);
        let (description, p6) = crate::utils::read_null_string(bytes, p5);
        let (count, p7) = match read_u64_at(bytes, p6) {
            Some(t) => t,
            None => { return Err(ParseErrors::UnexpectedEof) },
        };
        let mut keys: Vec<KeyFile> = Vec::new();
        proof {
            assert(views_of(keys@) =~= Seq::<KeyFileV>::empty());
        }
        let mut pos: usize = p7;
        let mut i: u64 = 0;
        #[verifier::loop_isolation(false)]
        while i < count
            invariant
                i <= count,
                pos <= bytes@.len(),
                spec_parse_keyfiles(bytes@, p7 as int, count, 0, Seq::empty())
                    == spec_parse_keyfiles(bytes@, pos as int, count, i, views_of(keys@)),
            decreases count - i,
        {
            match KeyFile::load(bytes, pos) {
                Ok(t) => {
                    let (k, p8) = t;
                    insert_key(&mut keys, k);
                    pos = p8;
                    i = i + 1;
                },
                Err(e) => {
                    return Err(ParseErrors::KeyfileParseError(i, Box::new(e)));
                },
            }
        }
        let (signature, _p9) = match read_bytes_at(bytes, pos, SIGNATURE_BYTES) {
            Some(t) => t,
            None => { return Err(ParseErrors::UnexpectedEof) },
        };
        Ok(
            KeyBlock {
                format_specifier: version,
                flags,
                secret,
                uid,
                name,
                description,
                keys,
                signature,
            },
        )
    }

    /// Serializes this block to the byte layout `load` reads: the magic,
    /// the supported version (whatever `format_specifier` says), the
    /// scalar fields, the record count, every record in the order held,
    /// and the raw signature bytes.
    pub fn serialize(&self) -> (r: Vec<u8>)
        requires
            self.wire_texts(),
        ensures
            r@ == spec_keyblock_bytes(self@),
    {
        let mut buffer: Vec<u8> = Vec::new();
        let magic = magic_bytes();
        write_bytes(&mut buffer, &magic);
        write_u16(&mut buffer, FORMAT_SPECIFIER);
        write_u64(&mut buffer, self.flags);
        write_bytes(&mut buffer, &self.secret);
        write_u16(&mut buffer, self.uid);
        write_cstr(&mut buffer, &self.name);
        write_cstr(&mut buffer, &self.description);
        write_u64(&mut buffer, self.keys.len() as u64);
        let ghost head = buffer@;
        let mut i: usize = 0;
        while i < self.keys.len()
            invariant
                i <= self.keys@.len(),
                self.wire_texts(),
                buffer@ == head + spec_keyfiles_bytes(views_of(self.keys@).take(i as int)),
            decreases self.keys@.len() - i,
        {
            let record = self.keys[i].serialize();
            write_bytes(&mut buffer, &record);
            proof {
                lemma_keyfiles_bytes_snoc(views_of(self.keys@).take(i as int), self.keys@[i as int]@);
                assert(views_of(self.keys@).take(i as int).push(self.keys@[i as int]@)
                    =~= views_of(self.keys@).take(i as int + 1));
                assert(head + spec_keyfiles_bytes(views_of(self.keys@).take(i as int)) + record@
                    =~= head + spec_keyfiles_bytes(views_of(self.keys@).take(i as int + 1)));
            }
            i = i + 1;
        }
        proof {
            assert(views_of(self.keys@).take(self.keys@.len() as int) =~= views_of(self.keys@));
        }
        write_bytes(&mut buffer, &self.signature);
        proof {
            assert(buffer@ =~= spec_keyblock_bytes(self@));
        }
        buffer
    }
}

/// The magic bytes as a buffer.
pub fn magic_bytes() -> (r: Vec<u8>)
    ensures
        r@ == spec_magic(),
{
    let mut v: Vec<u8> = Vec::new();
    v.push(0x62);
    v.push(0x61);
    v.push(0x6e);
    v.push(0x6a);
    v.push(0x6f);
    proof {
        assert(v@ =~= spec_magic());
    }
    v
}

} // verus!
