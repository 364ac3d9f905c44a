//! Format-level guarantees of the codec, stated over the same
//! mathematical model that the contracts of `load` and `serialize` use
//! and proved once and for all.

use crate::keyblock::{
    spec_insert, spec_keyblock_bytes, spec_keyfile_bytes, spec_keyfiles_bytes, spec_magic,
    spec_parse_keyblock, spec_parse_keyfile, spec_parse_keyfiles, spec_remove_path, KeyBlockV,
    KeyFileV, ParseErrors, FORMAT_SPECIFIER, SECRET_BYTES, SIGNATURE_BYTES,
};
use crate::wire::{
    lemma_read_cstr_no_nul, lemma_read_cstr_of_encoding, lemma_read_u16_of_encoding,
    lemma_read_u64_of_encoding, spec_cstr_bytes, spec_read_bytes, spec_read_cstr, spec_read_u16,
    spec_read_u64,
};
use vstd::bytes::*;
use vstd::prelude::*;

verus! {

/// A byte stream whose first bytes are not the magic tag is rejected as
/// an invalid magic number, never with a later-stage error. A stream
/// shorter than the tag counts as an invalid magic number too.
pub proof fn lemma_magic_rejection(bytes: Seq<u8>)
    requires
        bytes.len() < 5 || bytes.subrange(0, 5) != spec_magic(),
    ensures
        spec_parse_keyblock(bytes) == Err::<KeyBlockV, _>(ParseErrors::InvalidMagicNumber),
{
}

/// A byte stream with the magic tag but a format specifier other than
/// the supported version is rejected as an unknown format specifier; no
/// later field takes part in the outcome.
pub proof fn lemma_version_rejection(bytes: Seq<u8>)
    requires
        bytes.len() >= 7,
        bytes.subrange(0, 5) == spec_magic(),
        spec_u16_from_le_bytes(bytes.subrange(5, 7)) != FORMAT_SPECIFIER,
    ensures
        spec_parse_keyblock(bytes) == Err::<KeyBlockV, _>(ParseErrors::UnknownFormatSpecifier),
{
}

/// Parsing one record out of a buffer that holds its serialization at
/// `pos` recovers the record exactly and stops at its last byte.
proof fn lemma_parse_keyfile_of_encoding(b: Seq<u8>, pos: int, k: KeyFileV)
    requires
        k.wf(),
        0 <= pos,
        pos + spec_keyfile_bytes(k).len() <= b.len(),
        b.subrange(pos, pos + spec_keyfile_bytes(k).len()) == spec_keyfile_bytes(k),
    ensures
        spec_parse_keyfile(b, pos) == Ok::<_, ParseErrors>(
            (k, pos + spec_keyfile_bytes(k).len()),
        ),
{
    lemma_auto_spec_u16_to_from_le_bytes();
    lemma_auto_spec_u64_to_from_le_bytes();
    let z = spec_keyfile_bytes(k);
    let f = spec_u64_to_le_bytes(k.flags);
    let u = spec_u16_to_le_bytes(k.uid);
    let pth = spec_cstr_bytes(k.path);
    let nm = spec_cstr_bytes(k.name);
    let dsc = spec_cstr_bytes(k.description);
    let ln = spec_u64_to_le_bytes(k.length);
    let pl = k.path.len() as int;
    let nl = k.name.len() as int;
    let dl = k.description.len() as int;
    let cl = k.content.len() as int;
    let o4 = pos + 42 + pl + 1;
    let o5 = o4 + nl + 1;
    let o6 = o5 + dl + 1;
    let o7 = o6 + 8;
    assert(f.len() == 8 && u.len() == 2 && ln.len() == 8);
    assert(pth.len() == pl + 1 && nm.len() == nl + 1 && dsc.len() == dl + 1);
    assert(z == f + k.secret + u + pth + nm + dsc + ln + k.content);
    assert(z.len() == 50 + pl + 1 + nl + 1 + dl + 1 + cl);
    assert forall|j: int| pos <= j < pos + z.len() implies b[j] == z[j - pos] by {
        assert(b.subrange(pos, pos + z.len() as int)[j - pos] == b[j]);
    }
    assert(b.subrange(pos, pos + 8) =~= f);
    lemma_read_u64_of_encoding(b, pos, k.flags);
    assert(b.subrange(pos + 8, pos + 40) =~= k.secret);
    assert(spec_read_bytes(b, pos + 8, SECRET_BYTES as int) == Some(
        (k.secret, pos + 40 as int),
    ));
    assert(b.subrange(pos + 40, pos + 42) =~= u);
    lemma_read_u16_of_encoding(b, pos + 40, k.uid);
    assert(b.subrange(pos + 42, o4) =~= pth);
    lemma_read_cstr_of_encoding(b, pos + 42, k.path);
    assert(b.subrange(o4, o5) =~= nm);
    lemma_read_cstr_of_encoding(b, o4, k.name);
    assert(b.subrange(o5, o6) =~= dsc);
    lemma_read_cstr_of_encoding(b, o5, k.description);
    assert(b.subrange(o6, o7) =~= ln);
    lemma_read_u64_of_encoding(b, o6, k.length);
    assert(b.subrange(o7, o7 + cl) =~= k.content);
    assert(spec_read_bytes(b, o7, k.length as int / 8) == Some((k.content, o7 + cl)));
    assert(spec_parse_keyfile(b, pos) == Ok::<_, ParseErrors>((k, o7 + cl)));
}

/// Keyed insertion of each record in turn, the way parsing collects
/// records into a block.
pub open spec fn spec_fold_insert(acc: Seq<KeyFileV>, ks: Seq<KeyFileV>) -> Seq<KeyFileV>
    decreases ks.len(),
{
    if ks.len() == 0 {
        acc
    } else {
        spec_fold_insert(spec_insert(acc, ks[0]), ks.drop_first())
    }
}

/// Removing a path that no record carries changes nothing.
proof fn lemma_remove_path_nomatch(ks: Seq<KeyFileV>, p: Seq<char>)
    requires
        forall|j: int| 0 <= j < ks.len() ==> (#[trigger] ks[j]).path != p,
    ensures
        spec_remove_path(ks, p) == ks,
    decreases ks.len(),
{
    if ks.len() > 0 {
        lemma_remove_path_nomatch(ks.drop_first(), p);
        assert(seq![ks[0]] + ks.drop_first() =~= ks);
    }
}

/// Folding pairwise-distinct records whose paths are also new to the
/// accumulator just appends them in order.
proof fn lemma_fold_insert_unique(acc: Seq<KeyFileV>, ks: Seq<KeyFileV>)
    requires
        forall|a: int, j: int|
            0 <= a < acc.len() && 0 <= j < ks.len() ==> (#[trigger] acc[a]).path != (
            #[trigger] ks[j]).path,
        forall|a: int, j: int| 0 <= a < j < ks.len() ==> ks[a].path != ks[j].path,
    ensures
        spec_fold_insert(acc, ks) == acc + ks,
    decreases ks.len(),
{
    if ks.len() == 0 {
        assert(acc + ks =~= acc);
    } else {
        lemma_remove_path_nomatch(acc, ks[0].path);
        assert(spec_insert(acc, ks[0]) == acc.push(ks[0]));
        assert(forall|a: int, j: int|
            0 <= a < acc.push(ks[0]).len() && 0 <= j < ks.drop_first().len() ==> (#[trigger] acc.push(
                ks[0],
            )[a]).path != (#[trigger] ks.drop_first()[j]).path);
        lemma_fold_insert_unique(acc.push(ks[0]), ks.drop_first());
        assert(acc.push(ks[0]) + ks.drop_first() =~= acc + ks);
    }
}

/// Parsing records out of a buffer that holds their serializations in a
/// row recovers them in order, folded into the accumulator by keyed
/// insertion.
proof fn lemma_parse_keyfiles_of_encoding(
    b: Seq<u8>,
    pos: int,
    n: u64,
    i: u64,
    acc: Seq<KeyFileV>,
    ks: Seq<KeyFileV>,
)
    requires
        0 <= pos,
        pos + spec_keyfiles_bytes(ks).len() <= b.len(),
        b.subrange(pos, pos + spec_keyfiles_bytes(ks).len()) == spec_keyfiles_bytes(ks),
        forall|j: int| 0 <= j < ks.len() ==> (#[trigger] ks[j]).wf(),
        i + ks.len() == n,
    ensures
        spec_parse_keyfiles(b, pos, n, i, acc) == Ok::<_, ParseErrors>(
            (spec_fold_insert(acc, ks), pos + spec_keyfiles_bytes(ks).len()),
        ),
    decreases ks.len(),
{
    if ks.len() == 0 {
        assert(spec_keyfiles_bytes(ks).len() == 0);
    } else {
        let k = ks[0];
        let rest = ks.drop_first();
        let z = spec_keyfiles_bytes(ks);
        assert(z == spec_keyfile_bytes(k) + spec_keyfiles_bytes(rest));
        let l0 = spec_keyfile_bytes(k).len() as int;
        let lr = spec_keyfiles_bytes(rest).len() as int;
        assert forall|j: int| pos <= j < pos + z.len() implies b[j] == z[j - pos] by {
            assert(b.subrange(pos, pos + z.len() as int)[j - pos] == b[j]);
        }
        assert(b.subrange(pos, pos + l0) =~= spec_keyfile_bytes(k));
        lemma_parse_keyfile_of_encoding(b, pos, k);
        assert(b.subrange(pos + l0, pos + l0 + lr) =~= spec_keyfiles_bytes(rest));
        assert(forall|j: int| 0 <= j < rest.len() ==> (#[trigger] rest[j]).wf());
        lemma_parse_keyfiles_of_encoding(b, pos + l0, n, (i + 1) as u64, spec_insert(acc, k), rest);
    }
}

/// Parsing the serialization of any block whose fields are well-formed
/// succeeds and recovers every field; the records come back folded by
/// keyed insertion, so later records replace earlier ones that share a
/// path. Path uniqueness is not assumed here.
pub proof fn lemma_parse_of_serialized(b: KeyBlockV)
    requires
        b.wf_fields(),
    ensures
        spec_parse_keyblock(spec_keyblock_bytes(b)) == Ok::<_, ParseErrors>(
            KeyBlockV {
                format_specifier: FORMAT_SPECIFIER,
                flags: b.flags,
                secret: b.secret,
                uid: b.uid,
                name: b.name,
                description: b.description,
                keys: spec_fold_insert(Seq::empty(), b.keys),
                signature: b.signature,
            },
        ),
{
    lemma_auto_spec_u16_to_from_le_bytes();
    lemma_auto_spec_u64_to_from_le_bytes();
    let z = spec_keyblock_bytes(b);
    let m = spec_magic();
    let v = spec_u16_to_le_bytes(FORMAT_SPECIFIER);
    let fl = spec_u64_to_le_bytes(b.flags);
    let u = spec_u16_to_le_bytes(b.uid);
    let nm = spec_cstr_bytes(b.name);
    let dsc = spec_cstr_bytes(b.description);
    let cnt = spec_u64_to_le_bytes(b.keys.len() as u64);
    let recs = spec_keyfiles_bytes(b.keys);
    let nl = b.name.len() as int;
    let dl = b.description.len() as int;
    let rl = recs.len() as int;
    let o5 = 49 + nl + 1;
    let o6 = o5 + dl + 1;
    let o7 = o6 + 8;
    let o8 = o7 + rl;
    assert(v.len() == 2 && fl.len() == 8 && u.len() == 2 && cnt.len() == 8);
    assert(nm.len() == nl + 1 && dsc.len() == dl + 1);
    assert(z == m + v + fl + b.secret + u + nm + dsc + cnt + recs + b.signature);
    assert(z.len() == o8 + 50);
    assert forall|j: int| 0 <= j < z.len() implies b.secret.len() == 32 && z[j] == (m + v + fl
        + b.secret + u + nm + dsc + cnt + recs + b.signature)[j] by {}
    assert(z.subrange(0, 5) =~= m);
    assert(z.subrange(5, 7) =~= v);
    lemma_read_u16_of_encoding(z, 5, FORMAT_SPECIFIER);
    assert(z.subrange(7, 15) =~= fl);
    lemma_read_u64_of_encoding(z, 7, b.flags);
    assert(z.subrange(15, 47) =~= b.secret);
    assert(spec_read_bytes(z, 15, SECRET_BYTES as int) == Some((b.secret, 47int)));
    assert(z.subrange(47, 49) =~= u);
    lemma_read_u16_of_encoding(z, 47, b.uid);
    assert(z.subrange(49, o5) =~= nm);
    lemma_read_cstr_of_encoding(z, 49, b.name);
    assert(z.subrange(o5, o6) =~= dsc);
    lemma_read_cstr_of_encoding(z, o5, b.description);
    assert(z.subrange(o6, o7) =~= cnt);
    lemma_read_u64_of_encoding(z, o6, b.keys.len() as u64);
    assert(z.subrange(o7, o7 + rl) =~= recs);
    lemma_parse_keyfiles_of_encoding(z, o7, b.keys.len() as u64, 0, Seq::empty(), b.keys);
    assert(z.subrange(o8, o8 + 50) =~= b.signature);
    assert(spec_read_bytes(z, o8, SIGNATURE_BYTES as int) == Some((b.signature, o8 + 50)));
}

/// Round-trip: a well-formed block (sized fields exact, wire-safe text,
/// the supported version, path-unique records) parses back from its own
/// serialization to the very same block, field for field and record for
/// record.
pub proof fn lemma_load_serialize_round_trip(b: KeyBlockV)
    requires
        b.wf(),
    ensures
        spec_parse_keyblock(spec_keyblock_bytes(b)) == Ok::<_, ParseErrors>(b),
{
    lemma_parse_of_serialized(b);
    lemma_fold_insert_unique(Seq::empty(), b.keys);
    assert(Seq::empty() + b.keys =~= b.keys);
}

/// Duplicate paths: a stream carrying two records with the same path
/// parses successfully, and the block holds exactly one record, the
/// later one.
/// Two records, one path: folding them by keyed insertion keeps only
/// the later record.
proof fn lemma_fold_insert_pair(ks: Seq<KeyFileV>)
    requires
        ks.len() == 2,
        ks[0].path == ks[1].path,
    ensures
        spec_fold_insert(Seq::empty(), ks) == seq![ks[1]],
{
    reveal_with_fuel(spec_fold_insert, 3);
    let k0 = ks[0];
    let k1 = ks[1];
    let acc1 = spec_insert(Seq::empty(), k0);
    assert(spec_remove_path(Seq::empty(), k0.path) =~= Seq::<KeyFileV>::empty());
    assert(acc1 =~= seq![k0]);
    assert(spec_remove_path(seq![k0], k1.path) =~= Seq::<KeyFileV>::empty()) by {
        assert(seq![k0].drop_first() =~= Seq::<KeyFileV>::empty());
    }
    assert(spec_insert(acc1, k1) =~= seq![k1]);
    assert(ks.drop_first() =~= seq![k1]);
    assert(ks.drop_first()[0] == k1);
    assert(ks.drop_first().drop_first() =~= Seq::<KeyFileV>::empty());
    assert(spec_fold_insert(Seq::empty(), ks) =~= seq![k1]);
}

pub proof fn lemma_duplicate_paths_last_wins(b: KeyBlockV)
    requires
        b.wf_fields(),
        b.keys.len() == 2,
        b.keys[0].path == b.keys[1].path,
    ensures
        spec_parse_keyblock(spec_keyblock_bytes(b)) == Ok::<_, ParseErrors>(
            KeyBlockV {
                format_specifier: FORMAT_SPECIFIER,
                flags: b.flags,
                secret: b.secret,
                uid: b.uid,
                name: b.name,
                description: b.description,
                keys: seq![b.keys[1]],
                signature: b.signature,
            },
        ),
{
    lemma_parse_of_serialized(b);
    lemma_fold_insert_pair(b.keys);
}

/// Pairwise distinct record paths.
pub open spec fn paths_distinct(ks: Seq<KeyFileV>) -> bool {
    forall|i: int, j: int| 0 <= i < j < ks.len() ==> ks[i].path != ks[j].path
}

/// The shape every record coming out of a parse has: a 32-byte secret
/// and exactly `length / 8` content bytes.
pub open spec fn parsed_record_shape(k: KeyFileV) -> bool {
    k.secret.len() == SECRET_BYTES && k.content.len() == k.length / 8
}

/// Removing a path leaves records of the original sequence, none of them
/// carrying that path, and keeps their paths pairwise distinct.
proof fn lemma_remove_path_props(ks: Seq<KeyFileV>, p: Seq<char>)
    ensures
        forall|j: int|
            0 <= j < spec_remove_path(ks, p).len() ==> (#[trigger] spec_remove_path(ks, p)[j]).path
                != p,
        forall|j: int|
            0 <= j < spec_remove_path(ks, p).len() ==> ks.contains(
                #[trigger] spec_remove_path(ks, p)[j],
            ),
        paths_distinct(ks) ==> paths_distinct(spec_remove_path(ks, p)),
    decreases ks.len(),
{
    if ks.len() > 0 {
        let rest = ks.drop_first();
        lemma_remove_path_props(rest, p);
        assert(forall|j: int| 0 <= j < rest.len() ==> rest[j] == ks[j + 1]);
        assert(paths_distinct(ks) ==> paths_distinct(rest));
        assert forall|j: int|
            0 <= j < spec_remove_path(rest, p).len() implies ks.contains(
            #[trigger] spec_remove_path(rest, p)[j],
        ) by {
            let x = spec_remove_path(rest, p)[j];
            assert(rest.contains(x));
            let w = choose|w: int| 0 <= w < rest.len() && rest[w] == x;
            assert(ks[w + 1] == x);
        }
        if ks[0].path == p {
        } else {
            let r = seq![ks[0]] + spec_remove_path(rest, p);
            assert(r[0] == ks[0]);
            assert(forall|j: int|
                1 <= j < r.len() ==> r[j] == spec_remove_path(rest, p)[j - 1]);
            assert(ks.contains(ks[0]));
            if paths_distinct(ks) {
                assert forall|a: int, c: int| 0 <= a < c < r.len() implies r[a].path
                    != r[c].path by {
                    if a == 0 {
                        let x = spec_remove_path(rest, p)[c - 1];
                        assert(rest.contains(x));
                        let w = choose|w: int| 0 <= w < rest.len() && rest[w] == x;
                        assert(ks[w + 1] == x);
                        assert(ks[0].path != ks[w + 1].path);
                    }
                }
            }
        }
    }
}

/// Keyed insertion keeps paths pairwise distinct, and every record it
/// leaves behind is the inserted one or one of the originals.
proof fn lemma_insert_props(acc: Seq<KeyFileV>, k: KeyFileV)
    requires
        paths_distinct(acc),
    ensures
        paths_distinct(spec_insert(acc, k)),
        forall|j: int|
            0 <= j < spec_insert(acc, k).len() ==> (#[trigger] spec_insert(acc, k)[j]) == k
                || acc.contains(spec_insert(acc, k)[j]),
{
    lemma_remove_path_props(acc, k.path);
    let r = spec_remove_path(acc, k.path);
    assert(forall|j: int| 0 <= j < r.len() ==> #[trigger] r.push(k)[j] == r[j]);
    assert(r.push(k)[r.len() as int] == k);
}

/// Any sequence of records a parse run returns has pairwise distinct
/// paths, and each record has the parsed shape.
proof fn lemma_parse_keyfiles_shape(b: Seq<u8>, pos: int, n: u64, i: u64, acc: Seq<KeyFileV>)
    requires
        paths_distinct(acc),
        forall|j: int| 0 <= j < acc.len() ==> parsed_record_shape(#[trigger] acc[j]),
    ensures
        spec_parse_keyfiles(b, pos, n, i, acc) matches Ok(t) ==> paths_distinct(t.0) && forall|
            j: int,
        | 0 <= j < t.0.len() ==> parsed_record_shape(#[trigger] t.0[j]),
    decreases n - i,
{
    if i < n {
        match spec_parse_keyfile(b, pos) {
            Ok((k, p2)) => {
                assert(parsed_record_shape(k));
                lemma_insert_props(acc, k);
                assert(forall|j: int|
                    0 <= j < spec_insert(acc, k).len() ==> parsed_record_shape(
                        #[trigger] spec_insert(acc, k)[j],
                    ));
                lemma_parse_keyfiles_shape(b, p2, n, (i + 1) as u64, spec_insert(acc, k));
            },
            Err(_) => {},
        }
    }
}

/// Structural invariants of every successfully parsed block: the
/// supported version, a 32-byte secret, a 50-byte signature, pairwise
/// distinct record paths, and in every record a 32-byte secret and
/// exactly `length / 8` content bytes.
pub proof fn lemma_parsed_block_invariants(bytes: Seq<u8>)
    ensures
        spec_parse_keyblock(bytes) matches Ok(c) ==> {
            &&& c.format_specifier == FORMAT_SPECIFIER
            &&& c.secret.len() == SECRET_BYTES
            &&& c.signature.len() == SIGNATURE_BYTES
            &&& c.paths_unique()
            &&& forall|j: int|
                0 <= j < c.keys.len() ==> parsed_record_shape(#[trigger] c.keys[j])
        },
{
    if spec_parse_keyblock(bytes) is Ok {
        let p6 = spec_read_cstr(bytes, spec_read_cstr(bytes, 49).1).1;
        match spec_read_u64(bytes, p6) {
            Some((count, p7)) => {
                lemma_parse_keyfiles_shape(bytes, p7, count, 0, Seq::empty());
            },
            None => {},
        }
    }
}

/// An unexpected end of input wrapped together with a record index.
pub open spec fn wrapped_eof(e: ParseErrors) -> bool {
    e matches ParseErrors::KeyfileParseError(_idx, cause) && *cause == ParseErrors::UnexpectedEof
}

/// The errors a truncated block may parse to: an unexpected end of
/// input, bare or wrapped with the index of the record it fell in.
pub open spec fn truncation_error(e: ParseErrors) -> bool {
    e == ParseErrors::UnexpectedEof || wrapped_eof(e)
}

/// Parsing one record out of a buffer that ends strictly inside its
/// serialization fails with an unexpected end of input.
proof fn lemma_parse_keyfile_of_truncation(t: Seq<u8>, pos: int, k: KeyFileV)
    requires
        k.wf(),
        0 <= pos <= t.len(),
        t.len() < pos + spec_keyfile_bytes(k).len(),
        forall|j: int| pos <= j < t.len() ==> #[trigger] t[j] == spec_keyfile_bytes(k)[j - pos],
    ensures
        spec_parse_keyfile(t, pos) == Err::<(KeyFileV, int), _>(ParseErrors::UnexpectedEof),
{
    lemma_auto_spec_u16_to_from_le_bytes();
    lemma_auto_spec_u64_to_from_le_bytes();
    let z = spec_keyfile_bytes(k);
    let f = spec_u64_to_le_bytes(k.flags);
    let u = spec_u16_to_le_bytes(k.uid);
    let pth = spec_cstr_bytes(k.path);
    let nm = spec_cstr_bytes(k.name);
    let dsc = spec_cstr_bytes(k.description);
    let ln = spec_u64_to_le_bytes(k.length);
    let pl = k.path.len() as int;
    let nl = k.name.len() as int;
    let dl = k.description.len() as int;
    let cl = k.content.len() as int;
    let o4 = pos + 42 + pl + 1;
    let o5 = o4 + nl + 1;
    let o6 = o5 + dl + 1;
    let o7 = o6 + 8;
    let cut = t.len() as int;
    assert(f.len() == 8 && u.len() == 2 && ln.len() == 8);
    assert(pth.len() == pl + 1 && nm.len() == nl + 1 && dsc.len() == dl + 1);
    assert(z == f + k.secret + u + pth + nm + dsc + ln + k.content);
    assert(z.len() == 50 + pl + 1 + nl + 1 + dl + 1 + cl);
    if cut < pos + 8 {
        assert(spec_read_u64(t, pos) is None);
    } else {
        assert(t.subrange(pos, pos + 8) =~= f);
        lemma_read_u64_of_encoding(t, pos, k.flags);
        if cut < pos + 40 {
            assert(spec_read_bytes(t, pos + 8, SECRET_BYTES as int) is None);
        } else {
            assert(t.subrange(pos + 8, pos + 40) =~= k.secret);
            assert(spec_read_bytes(t, pos + 8, SECRET_BYTES as int) == Some(
                (k.secret, pos + 40 as int),
            ));
            if cut < pos + 42 {
                assert(spec_read_u16(t, pos + 40) is None);
            } else {
                assert(t.subrange(pos + 40, pos + 42) =~= u);
                lemma_read_u16_of_encoding(t, pos + 40, k.uid);
                if cut < o4 {
                    assert forall|j: int| pos + 42 <= j < t.len() implies t[j] != 0 by {
                        assert(t[j] == pth[j - pos - 42]);
                        assert(pth[j - pos - 42] == k.path[j - pos - 42] as u8);
                        assert('\0' <= k.path[j - pos - 42] <= '\u{7f}');
                    }
                    lemma_read_cstr_no_nul(t, pos + 42);
                    assert(spec_read_u64(t, spec_read_cstr(t, spec_read_cstr(t, cut).1).1)
                        is None);
                } else {
                    assert(t.subrange(pos + 42, o4) =~= pth);
                    lemma_read_cstr_of_encoding(t, pos + 42, k.path);
                    if cut < o5 {
                        assert forall|j: int| o4 <= j < t.len() implies t[j] != 0 by {
                            assert(t[j] == nm[j - o4]);
                            assert(nm[j - o4] == k.name[j - o4] as u8);
                            assert('\0' <= k.name[j - o4] <= '\u{7f}');
                        }
                        lemma_read_cstr_no_nul(t, o4);
                        assert(spec_read_u64(t, spec_read_cstr(t, cut).1) is None);
                    } else {
                        assert(t.subrange(o4, o5) =~= nm);
                        lemma_read_cstr_of_encoding(t, o4, k.name);
                        if cut < o6 {
                            assert forall|j: int| o5 <= j < t.len() implies t[j] != 0 by {
                                assert(t[j] == dsc[j - o5]);
                                assert(dsc[j - o5] == k.description[j - o5] as u8);
                                assert('\0' <= k.description[j - o5] <= '\u{7f}');
                            }
                            lemma_read_cstr_no_nul(t, o5);
                            assert(spec_read_u64(t, cut) is None);
                        } else {
                            assert(t.subrange(o5, o6) =~= dsc);
                            lemma_read_cstr_of_encoding(t, o5, k.description);
                            if cut < o7 {
                                assert(spec_read_u64(t, o6) is None);
                            } else {
                                assert(t.subrange(o6, o7) =~= ln);
                                lemma_read_u64_of_encoding(t, o6, k.length);
                                assert(cut < o7 + cl);
                                assert(spec_read_bytes(t, o7, k.length as int / 8) is None);
                            }
                        }
                    }
                }
            }
        }
    }
}

/// Parsing records out of a buffer that ends strictly inside their
/// serializations fails with an end of input wrapped with the index of
/// the record the end falls in.
proof fn lemma_parse_keyfiles_of_truncation(
    t: Seq<u8>,
    pos: int,
    n: u64,
    i: u64,
    acc: Seq<KeyFileV>,
    ks: Seq<KeyFileV>,
)
    requires
        0 <= pos <= t.len(),
        t.len() < pos + spec_keyfiles_bytes(ks).len(),
        forall|j: int| pos <= j < t.len() ==> #[trigger] t[j] == spec_keyfiles_bytes(ks)[j - pos],
        forall|j: int| 0 <= j < ks.len() ==> (#[trigger] ks[j]).wf(),
        i + ks.len() == n,
    ensures
        spec_parse_keyfiles(t, pos, n, i, acc) matches Err(e) && wrapped_eof(e),
    decreases ks.len(),
{
    assert(ks.len() > 0);
    let k = ks[0];
    let rest = ks.drop_first();
    let z = spec_keyfiles_bytes(ks);
    assert(z == spec_keyfile_bytes(k) + spec_keyfiles_bytes(rest));
    let l0 = spec_keyfile_bytes(k).len() as int;
    if t.len() < pos + l0 {
        assert forall|j: int| pos <= j < t.len() implies t[j] == spec_keyfile_bytes(k)[j
            - pos] by {
            assert(t[j] == z[j - pos]);
        }
        lemma_parse_keyfile_of_truncation(t, pos, k);
        assert(spec_parse_keyfiles(t, pos, n, i, acc) == Err::<(Seq<KeyFileV>, int), _>(
            ParseErrors::KeyfileParseError(i, Box::new(ParseErrors::UnexpectedEof)),
        ));
    } else {
        assert forall|j: int| 0 <= j < l0 implies t.subrange(pos, pos + l0)[j]
            == spec_keyfile_bytes(k)[j] by {
            assert(t[pos + j] == z[j]);
        }
        assert(t.subrange(pos, pos + l0) =~= spec_keyfile_bytes(k));
        lemma_parse_keyfile_of_encoding(t, pos, k);
        assert forall|j: int| pos + l0 <= j < t.len() implies t[j] == spec_keyfiles_bytes(rest)[j
            - (pos + l0)] by {
            assert(t[j] == z[j - pos]);
        }
        assert(forall|j: int| 0 <= j < rest.len() ==> (#[trigger] rest[j]).wf());
        lemma_parse_keyfiles_of_truncation(t, pos + l0, n, (i + 1) as u64, spec_insert(acc, k), rest);
    }
}

/// Truncation: cutting a serialized block anywhere after its magic tag
/// and before its final byte makes the parse fail with an unexpected
/// end of input, wrapped with a record index when the cut falls inside
/// a key record. (A cut inside the 5 magic bytes is instead rejected as
/// an invalid magic number, the way the magic check reads.)
pub proof fn lemma_truncation_rejected(b: KeyBlockV, cut: int)
    requires
        b.wf_fields(),
        5 <= cut < spec_keyblock_bytes(b).len(),
    ensures
        spec_parse_keyblock(spec_keyblock_bytes(b).take(cut)) matches Err(e) && truncation_error(
            e,
        ),
{
    lemma_auto_spec_u16_to_from_le_bytes();
    lemma_auto_spec_u64_to_from_le_bytes();
    let z = spec_keyblock_bytes(b);
    let t = z.take(cut);
    let m = spec_magic();
    let v = spec_u16_to_le_bytes(FORMAT_SPECIFIER);
    let fl = spec_u64_to_le_bytes(b.flags);
    let u = spec_u16_to_le_bytes(b.uid);
    let nm = spec_cstr_bytes(b.name);
    let dsc = spec_cstr_bytes(b.description);
    let cnt = spec_u64_to_le_bytes(b.keys.len() as u64);
    let recs = spec_keyfiles_bytes(b.keys);
    let nl = b.name.len() as int;
    let dl = b.description.len() as int;
    let rl = recs.len() as int;
    let o5 = 49 + nl + 1;
    let o6 = o5 + dl + 1;
    let o7 = o6 + 8;
    let o8 = o7 + rl;
    assert(v.len() == 2 && fl.len() == 8 && u.len() == 2 && cnt.len() == 8);
    assert(nm.len() == nl + 1 && dsc.len() == dl + 1);
    assert(z == m + v + fl + b.secret + u + nm + dsc + cnt + recs + b.signature);
    assert(z.len() == o8 + 50);
    assert(t.len() == cut);
    assert forall|j: int| 0 <= j < cut implies #[trigger] t[j] == z[j] by {}
    assert(t.subrange(0, 5) =~= m);
    if cut < 7 {
        assert(spec_read_u16(t, 5) is None);
    } else {
        assert(t.subrange(5, 7) =~= v);
        lemma_read_u16_of_encoding(t, 5, FORMAT_SPECIFIER);
        if cut < 15 {
            assert(spec_read_u64(t, 7) is None);
        } else {
            assert(t.subrange(7, 15) =~= fl);
            lemma_read_u64_of_encoding(t, 7, b.flags);
            if cut < 47 {
                assert(spec_read_bytes(t, 15, SECRET_BYTES as int) is None);
            } else {
                assert(t.subrange(15, 47) =~= b.secret);
                assert(spec_read_bytes(t, 15, SECRET_BYTES as int) == Some((b.secret, 47int)));
                if cut < 49 {
                    assert(spec_read_u16(t, 47) is None);
                } else {
                    assert(t.subrange(47, 49) =~= u);
                    lemma_read_u16_of_encoding(t, 47, b.uid);
                    if cut < o5 {
                        assert forall|j: int| 49 <= j < t.len() implies t[j] != 0 by {
                            assert(t[j] == nm[j - 49]);
                            assert(nm[j - 49] == b.name[j - 49] as u8);
                            assert('\0' <= b.name[j - 49] <= '\u{7f}');
                        }
                        lemma_read_cstr_no_nul(t, 49);
                        assert(spec_read_u64(t, spec_read_cstr(t, cut).1) is None);
                    } else {
                        assert(t.subrange(49, o5) =~= nm);
                        lemma_read_cstr_of_encoding(t, 49, b.name);
                        if cut < o6 {
                            assert forall|j: int| o5 <= j < t.len() implies t[j] != 0 by {
                                assert(t[j] == dsc[j - o5]);
                                assert(dsc[j - o5] == b.description[j - o5] as u8);
                                assert('\0' <= b.description[j - o5] <= '\u{7f}');
                            }
                            lemma_read_cstr_no_nul(t, o5);
                            assert(spec_read_u64(t, cut) is None);
                        } else {
                            assert(t.subrange(o5, o6) =~= dsc);
                            lemma_read_cstr_of_encoding(t, o5, b.description);
                            if cut < o7 {
                                assert(spec_read_u64(t, o6) is None);
                            } else {
                                assert(t.subrange(o6, o7) =~= cnt);
                                lemma_read_u64_of_encoding(t, o6, b.keys.len() as u64);
                                if cut < o8 {
                                    assert forall|j: int| o7 <= j < t.len() implies #[trigger] t[j]
                                        == recs[j - o7] by {
                                        assert(t[j] == z[j]);
                                    }
                                    lemma_parse_keyfiles_of_truncation(
                                        t,
                                        o7,
                                        b.keys.len() as u64,
                                        0,
                                        Seq::empty(),
                                        b.keys,
                                    );
                                } else {
                                    assert(t.subrange(o7, o7 + rl) =~= recs);
                                    lemma_parse_keyfiles_of_encoding(
                                        t,
                                        o7,
                                        b.keys.len() as u64,
                                        0,
                                        Seq::empty(),
                                        b.keys,
                                    );
                                    assert(spec_read_bytes(t, o8, SIGNATURE_BYTES as int)
                                        is None);
                                }
                            }
                        }
                    }
                }
            }
        }
    }
}

} // verus!

