use crate::codec::{
    compresses, cut_short, flate2compress2, is_stream_of, zlib_decode, zlib_deflate,
    zlib_inflate, zlib_read, zlib_stream,
};
use crate::codec::{sha1_digest, sha1hashing2};
use crate::git_transport::deltas::{
    apply_delta, get_offset, offset_at, read_varint, transform_delta, varint_at, varint_bytes,
    write_varint, lemma_varint_round_trip,
};
use crate::gitr_errors::GitrError;
use crate::objects::git_object::{
    lemma_parse_payload, object_from_payload, parse_payload, GitObject, GitObjectView, ObjectKind,
};
use crate::text::{
    ascii, bytes_eq, bytes_of, copy_range, dec_value, find_byte, find_from,
    hex_encode, is_dec, lemma_dec_round_trip, occurs_at, parse_decimal, push_all, stands_at,
    to_decimal, to_hex,
};
use vstd::prelude::*;

verus! {

/// The only format version that is read and written.
pub const PACK_VERSION: u32 = 2;

/// The four bytes that open a pack.
pub open spec fn magic() -> Seq<u8> {
    ascii("PACK"@)
}

/// The big-endian bytes of a 32-bit number.
pub open spec fn be32(n: u32) -> Seq<u8> {
    seq![
        (n / 0x1000000) as u8,
        ((n / 0x10000) % 0x100) as u8,
        ((n / 0x100) % 0x100) as u8,
        (n % 0x100) as u8,
    ]
}

/// The number that four big-endian bytes spell.
pub open spec fn be32_value(b: Seq<u8>) -> int {
    b[0] * 0x1000000 + b[1] * 0x10000 + b[2] * 0x100 + b[3]
}

/// The four bytes of a number, most significant first, give the number back.
pub proof fn lemma_be32(n: u32)
    ensures
        be32_value(be32(n)) == n,
        be32(n).len() == 4,
{
}

/// The header of a record: in the first byte the continuation flag, the
/// type tag in bits 4 to 6 and the low four bits of the size; the rest of
/// the size after it as a variable-length number.
pub open spec fn size_header(tag: u8, size: nat) -> Seq<u8> {
    if size < 16 {
        seq![(tag * 16 + size) as u8]
    } else {
        seq![(128 + tag * 16 + size % 16) as u8] + varint_bytes(size / 16)
    }
}

/// Reads the header of the record at `pos`: type tag, size, and the position
/// after the header. `TruncatedPack` when the bytes end inside it,
/// `MalformedObject` when the size does not fit.
pub open spec fn header_at(data: Seq<u8>, pos: int) -> Result<(u8, usize, int), GitrError> {
    if pos < 0 || pos >= data.len() {
        Err(GitrError::TruncatedPack)
    } else {
        let b = data[pos];
        let tag = (b / 16) % 8;
        let low = b % 16;
        if b < 128 {
            Ok((tag, low as usize, pos + 1))
        } else {
            match varint_at(data, pos + 1) {
                Err(e) => Err(e),
                Ok((high, next)) => if low + 16 * high > usize::MAX {
                    Err(GitrError::MalformedObject)
                } else {
                    Ok((tag, (low + 16 * high) as usize, next))
                },
            }
        }
    }
}

/// A header written after `prefix` is read back at `prefix.len()`.
pub proof fn lemma_header_round_trip(prefix: Seq<u8>, tag: u8, size: usize, rest: Seq<u8>)
    requires
        tag < 8,
    ensures
        header_at(prefix + size_header(tag, size as nat) + rest, prefix.len() as int) == Ok::<
            (u8, usize, int),
            GitrError,
        >((tag, size, (prefix + size_header(tag, size as nat)).len() as int)),
{
    let bytes = prefix + size_header(tag, size as nat) + rest;
    let pos = prefix.len() as int;
    if size < 16 {
        assert(bytes[pos] == (tag * 16 + size) as u8);
    } else {
        let first = (128 + tag * 16 + size % 16) as u8;
        let prefix2 = prefix.push(first);
        lemma_varint_round_trip(prefix2, (size / 16) as usize, rest);
        assert(bytes =~= prefix2 + varint_bytes((size / 16) as nat) + rest);
        assert(bytes[pos] == first);
        assert(prefix + size_header(tag, size as nat) =~= prefix2 + varint_bytes(
            (size / 16) as nat,
        ));
    }
}

/// Reads the size field at the start of a record: the size and the number of
/// bytes the header takes.
pub fn get_encoded_length(data: &[u8]) -> (r: Result<(usize, usize), GitrError>)
    ensures
        match r {
            Ok((size, cursor)) => header_at(data@, 0) matches Ok((tag, s, next)) && s == size
                && next == cursor && 0 < cursor <= data@.len(),
            Err(e) => header_at(data@, 0) == Err::<(u8, usize, int), GitrError>(e),
        },
{
    if data.len() == 0 {
        return Err(GitrError::TruncatedPack);
    }
    let b: u8 = data[0];
    let low: usize = (b % 16) as usize;
    if b < 128 {
        return Ok((low, 1));
    }
    match read_varint(data, 1) {
        Err(e) => Err(e),
        Ok((high, next)) => {
            if high > (usize::MAX - low) / 16 {
                return Err(GitrError::MalformedObject);
            }
            Ok((low + 16 * high, next))
        },
    }
}

/// Splits a record into its type tag, its declared size, the position where
/// its content starts, and that position again as the number of header bytes.
pub fn parse_git_object(data: &[u8]) -> (r: Result<(u8, usize, usize), GitrError>)
    ensures
        match r {
            Ok((tag, size, cursor)) => header_at(data@, 0) == Ok::<
                (u8, usize, int),
                GitrError,
            >((tag, size, cursor as int)) && 0 < cursor <= data@.len() && tag < 8,
            Err(e) => header_at(data@, 0) == Err::<(u8, usize, int), GitrError>(e),
        },
{
    match get_encoded_length(data) {
        Err(e) => Err(e),
        Ok((size, cursor)) => {
            let tag: u8 = (data[0] / 16) % 8;
            Ok((tag, size, cursor))
        },
    }
}

/// Checks that `header_slice` is the four bytes that open a pack.
pub fn verify_header(header_slice: &[u8]) -> (r: Result<(), GitrError>)
    ensures
        match r {
            Ok(_) => header_slice@ == magic(),
            Err(e) => header_slice@ != magic() && e == GitrError::BadMagic,
        },
{
    proof {
        reveal_strlit("PACK");
    }
    if bytes_eq(header_slice, bytes_of("PACK").as_slice()) {
        Ok(())
    } else {
        Err(GitrError::BadMagic)
    }
}

/// Reads four big-endian bytes as a number; `TruncatedPack` when the slice
/// is not four bytes long.
pub fn extract_version(version_slice: &[u8]) -> (r: Result<u32, GitrError>)
    ensures
        match r {
            Ok(v) => version_slice@.len() == 4 && v == be32_value(version_slice@),
            Err(e) => version_slice@.len() != 4 && e == GitrError::TruncatedPack,
        },
{
    if version_slice.len() != 4 {
        return Err(GitrError::TruncatedPack);
    }
    let b0: u32 = version_slice[0] as u32;
    let b1: u32 = version_slice[1] as u32;
    let b2: u32 = version_slice[2] as u32;
    let b3: u32 = version_slice[3] as u32;
    Ok(b0 * 0x1000000 + b1 * 0x10000 + b2 * 0x100 + b3)
}

/// An object decoded earlier in a pack, as later records may refer to it.
#[derive(Debug)]
pub struct SeenObject {
    pub offset: usize,
    pub id: Vec<u8>,
    pub kind: ObjectKind,
    pub payload: Vec<u8>,
}

/// The mathematical value of a `SeenObject`.
pub struct SeenView {
    pub offset: int,
    pub id: Seq<u8>,
    pub kind: ObjectKind,
    pub payload: Seq<u8>,
}

impl View for SeenObject {
    type V = SeenView;

    open spec fn view(&self) -> SeenView {
        SeenView { offset: self.offset as int, id: self.id@, kind: self.kind, payload: self.payload@ }
    }
}

/// The values of the objects seen so far.
pub open spec fn seen_view(index: Seq<SeenObject>) -> Seq<SeenView> {
    Seq::new(index.len(), |i: int| index[i]@)
}

/// What a decoded object leaves in the index.
pub open spec fn seen(offset: int, v: GitObjectView) -> SeenView {
    SeenView { offset, id: v.id(), kind: v.kind(), payload: v.payload() }
}

/// The object with id `id` that was seen last.
pub open spec fn find_by_id(index: Seq<SeenView>, id: Seq<u8>) -> Option<SeenView>
    decreases index.len(),
{
    if index.len() == 0 {
        None
    } else if index.last().id == id {
        Some(index.last())
    } else {
        find_by_id(index.drop_last(), id)
    }
}

/// The object whose record starts at `offset`.
pub open spec fn find_by_offset(index: Seq<SeenView>, offset: int) -> Option<SeenView>
    decreases index.len(),
{
    if index.len() == 0 {
        None
    } else if index.last().offset == offset {
        Some(index.last())
    } else {
        find_by_offset(index.drop_last(), offset)
    }
}

/// Decompresses the stream that starts at `p`: what it holds and where it
/// ends. `TruncatedPack` when the bytes end before the stream does, and
/// `CompressionError` when the bytes there are no stream.
pub open spec fn inflate_at(body: Seq<u8>, p: int) -> Result<(Seq<u8>, int), GitrError> {
    if p < 0 || p > body.len() {
        Err(GitrError::TruncatedPack)
    } else {
        match zlib_read(body.subrange(p, body.len() as int)) {
            Err(short) => if short {
                Err(GitrError::TruncatedPack)
            } else {
                Err(GitrError::CompressionError)
            },
            Ok((out, used)) => Ok((out, p + used)),
        }
    }
}

/// A record that holds an object itself: the payload must have the declared
/// size and be the payload of a well-formed object of the declared kind.
pub open spec fn plain_at(body: Seq<u8>, p: int, size: usize, kind: ObjectKind) -> Result<
    (GitObjectView, int),
    GitrError,
> {
    match inflate_at(body, p) {
        Err(e) => Err(e),
        Ok((payload, next)) => if payload.len() != size {
            Err(GitrError::MalformedObject)
        } else {
            match parse_payload(kind, payload) {
                None => Err(GitrError::MalformedObject),
                Some(v) => Ok((v, next)),
            }
        },
    }
}

/// The object that a delta makes of its base: the delta must have the
/// declared size, and its result must be the payload of a well-formed object
/// of the base's kind.
pub open spec fn from_delta(base: SeenView, delta: Seq<u8>, size: usize, next: int) -> Result<
    (GitObjectView, int),
    GitrError,
> {
    if delta.len() != size {
        Err(GitrError::MalformedObject)
    } else {
        match apply_delta(base.payload, delta) {
            Err(e) => Err(e),
            Ok(out) => match parse_payload(base.kind, out) {
                None => Err(GitrError::MalformedObject),
                Some(v) => Ok((v, next)),
            },
        }
    }
}

/// A record that holds a delta against the record that starts a given
/// number of bytes before it. `MissingDeltaBase` when no record was decoded
/// at that place.
pub open spec fn ofs_delta_at(
    body: Seq<u8>,
    pos: int,
    p: int,
    size: usize,
    index: Seq<SeenView>,
) -> Result<(GitObjectView, int), GitrError> {
    if p < 0 || p > body.len() {
        Err(GitrError::TruncatedPack)
    } else {
        match offset_at(body.subrange(p, body.len() as int)) {
            Err(e) => Err(e),
            Ok((ofs, used)) => match inflate_at(body, p + used) {
                Err(e) => Err(e),
                Ok((delta, next)) => match find_by_offset(index, pos - ofs) {
                    None => Err(GitrError::MissingDeltaBase),
                    Some(base) => from_delta(base, delta, size, next),
                },
            },
        }
    }
}

/// A record that holds a delta against the object with a given id, written
/// as 20 bytes. `MissingDeltaBase` when no object with that id was decoded
/// before.
pub open spec fn ref_delta_at(body: Seq<u8>, p: int, size: usize, index: Seq<SeenView>) -> Result<
    (GitObjectView, int),
    GitrError,
> {
    if p < 0 || p + 20 > body.len() {
        Err(GitrError::TruncatedPack)
    } else {
        match inflate_at(body, p + 20) {
            Err(e) => Err(e),
            Ok((delta, next)) => match find_by_id(index, hex_encode(body.subrange(p, p + 20))) {
                None => Err(GitrError::MissingDeltaBase),
                Some(base) => from_delta(base, delta, size, next),
            },
        }
    }
}

/// Decodes the record at `pos`: the object and the position after the
/// record. Type tags 1 to 4 hold an object, 6 an offset-delta, 7 a
/// hash-delta; any other tag is a `MalformedObject`.
#[verifier::opaque]
pub open spec fn record_at(body: Seq<u8>, pos: int, index: Seq<SeenView>) -> Result<
    (GitObjectView, int),
    GitrError,
> {
    match header_at(body, pos) {
        Err(e) => Err(e),
        Ok((tag, size, p)) => if tag == 6 {
            ofs_delta_at(body, pos, p, size, index)
        } else if tag == 7 {
            ref_delta_at(body, p, size, index)
        } else {
            match ObjectKind::of_tag(tag) {
                None => Err(GitrError::MalformedObject),
                Some(kind) => plain_at(body, p, size, kind),
            }
        },
    }
}

/// Decodes `n` records from `pos` on, in order; each one joins the index
/// that the later ones see. After the last one the bytes must be used up
/// (`MalformedObject` when they are not).
pub open spec fn records_from(body: Seq<u8>, pos: int, n: nat, index: Seq<SeenView>) -> Result<
    Seq<GitObjectView>,
    GitrError,
>
    decreases n,
{
    if n == 0 {
        if pos == body.len() {
            Ok(Seq::empty())
        } else {
            Err(GitrError::MalformedObject)
        }
    } else {
        match record_at(body, pos, index) {
            Err(e) => Err(e),
            Ok((v, next)) => match records_from(
                body,
                next,
                (n - 1) as nat,
                index.push(seen(pos, v)),
            ) {
                Err(e) => Err(e),
                Ok(rest) => Ok(seq![v] + rest),
            },
        }
    }
}

/// What unpacking makes of a pack: `TruncatedPack` when it is shorter than
/// header and trailer, `BadMagic` when it does not open with the magic
/// bytes, `UnsupportedVersion` when its version is not `PACK_VERSION`, and
/// otherwise what its records decode to, in order.
pub open spec fn unpacked(bytes: Seq<u8>) -> Result<Seq<GitObjectView>, GitrError> {
    if bytes.len() < 32 {
        Err(GitrError::TruncatedPack)
    } else if bytes.subrange(0, 4) != magic() {
        Err(GitrError::BadMagic)
    } else if be32_value(bytes.subrange(4, 8)) != PACK_VERSION {
        Err(GitrError::UnsupportedVersion)
    } else {
        records_from(
            bytes.subrange(0, bytes.len() - 20),
            12,
            be32_value(bytes.subrange(8, 12)) as nat,
            Seq::empty(),
        )
    }
}

/// The values of a sequence of objects.
pub open spec fn objects_view(objects: Seq<GitObject>) -> Seq<GitObjectView> {
    Seq::new(objects.len(), |i: int| objects[i]@)
}

/// Decompresses the stream at the start of `input`: what it holds and how
/// many bytes of `input` it takes.
pub fn decode(input: &[u8]) -> (r: Result<(Vec<u8>, usize), GitrError>)
    ensures
        match r {
            Ok((out, used)) => zlib_inflate(input@) == Some((out@, used as nat)) && used
                <= input@.len(),
            Err(e) => zlib_inflate(input@) is None && e == GitrError::CompressionError,
        },
{
    match zlib_decode(input) {
        Ok(v) => Ok(v),
        Err(_) => Err(GitrError::CompressionError),
    }
}

/// Compresses `input` into a zlib stream.
pub fn code(input: &[u8]) -> (r: Result<Vec<u8>, GitrError>)
    ensures
        match r {
            Ok(v) => zlib_deflate(input@) == Some(v@) && v@ == zlib_stream(input@) && is_stream_of(
                v@,
                input@,
            ),
            Err(e) => e == GitrError::CompressionError && !compresses(input@),
        },
{
    flate2compress2(input)
}

/// Executable `inflate_at`.
fn inflate_from(body: &[u8], p: usize) -> (r: Result<(Vec<u8>, usize), GitrError>)
    ensures
        match r {
            Ok((out, next)) => inflate_at(body@, p as int) == Ok::<(Seq<u8>, int), GitrError>(
                (out@, next as int),
            ) && p <= next <= body@.len(),
            Err(e) => inflate_at(body@, p as int) == Err::<(Seq<u8>, int), GitrError>(e),
        },
{
    if p > body.len() {
        return Err(GitrError::TruncatedPack);
    }
    match zlib_decode(vstd::slice::slice_subrange(body, p, body.len())) {
        Ok((out, used)) => Ok((out, p + used)),
        Err(short) => if short {
            Err(GitrError::TruncatedPack)
        } else {
            Err(GitrError::CompressionError)
        },
    }
}

/// Executable `find_by_id`.
fn seen_by_id(index: &Vec<SeenObject>, id: &[u8]) -> (r: Option<usize>)
    ensures
        match r {
            Some(i) => i < index@.len() && find_by_id(seen_view(index@), id@) == Some(
                index@[i as int]@,
            ),
            None => find_by_id(seen_view(index@), id@) is None,
        },
{
    let mut i: usize = index.len();
    let ghost all = seen_view(index@);
    assert(all.subrange(0, i as int) =~= all);
    while i > 0
        invariant
            i <= index@.len(),
            all == seen_view(index@),
            find_by_id(all, id@) == find_by_id(all.subrange(0, i as int), id@),
        decreases i,
    {
        let ghost cur = all.subrange(0, i as int);
        assert(cur.last() == all[i - 1]);
        assert(cur.drop_last() =~= all.subrange(0, i - 1));
        if bytes_eq(index[i - 1].id.as_slice(), id) {
            return Some(i - 1);
        }
        i = i - 1;
    }
    None
}

/// Executable `find_by_offset`.
fn seen_by_offset(index: &Vec<SeenObject>, offset: usize) -> (r: Option<usize>)
    ensures
        match r {
            Some(i) => i < index@.len() && find_by_offset(seen_view(index@), offset as int)
                == Some(index@[i as int]@),
            None => find_by_offset(seen_view(index@), offset as int) is None,
        },
{
    let mut i: usize = index.len();
    let ghost all = seen_view(index@);
    assert(all.subrange(0, i as int) =~= all);
    while i > 0
        invariant
            i <= index@.len(),
            all == seen_view(index@),
            find_by_offset(all, offset as int) == find_by_offset(
                all.subrange(0, i as int),
                offset as int,
            ),
        decreases i,
    {
        let ghost cur = all.subrange(0, i as int);
        assert(cur.last() == all[i - 1]);
        assert(cur.drop_last() =~= all.subrange(0, i - 1));
        if index[i - 1].offset == offset {
            return Some(i - 1);
        }
        i = i - 1;
    }
    None
}

/// The object of the kind with type tag `object_type` whose payload is
/// `decoded_data`; `MalformedObject` when the tag names no kind or the bytes
/// are not the payload of a well-formed object of that kind.
pub fn git_valid_object_from_packfile(object_type: u8, decoded_data: &[u8]) -> (r: Result<
    GitObject,
    GitrError,
>)
    ensures
        match r {
            Ok(obj) => ObjectKind::of_tag(object_type) matches Some(kind) && parse_payload(
                kind,
                decoded_data@,
            ) == Some(obj@),
            Err(e) => e == GitrError::MalformedObject && match ObjectKind::of_tag(object_type) {
                Some(kind) => parse_payload(kind, decoded_data@) is None,
                None => true,
            },
        },
{
    match ObjectKind::from_tag(object_type) {
        Some(kind) => object_from_payload(kind, decoded_data),
        None => Err(GitrError::MalformedObject),
    }
}

/// Executable `from_delta`.
fn object_from_delta(base: &SeenObject, delta: &[u8], size: usize, next: usize) -> (r: Result<
    (GitObject, usize),
    GitrError,
>)
    ensures
        match r {
            Ok((obj, n)) => from_delta(base@, delta@, size, next as int) == Ok::<
                (GitObjectView, int),
                GitrError,
            >((obj@, n as int)) && n == next,
            Err(e) => from_delta(base@, delta@, size, next as int) == Err::<
                (GitObjectView, int),
                GitrError,
            >(e),
        },
{
    if delta.len() != size {
        return Err(GitrError::MalformedObject);
    }
    let out = match transform_delta(delta, base.payload.as_slice()) {
        Ok(out) => out,
        Err(e) => {
            return Err(e);
        },
    };
    match object_from_payload(base.kind, out.as_slice()) {
        Ok(obj) => Ok((obj, next)),
        Err(e) => Err(e),
    }
}

/// Decodes an offset-delta record whose header ends at `p` and whose first
/// byte stands at `index`: the object and the position after the record.
pub fn delta_ofs_from_packfile(
    buffer: &[u8],
    index: usize,
    p: usize,
    size: usize,
    objects_dir: &Vec<SeenObject>,
) -> (r: Result<(GitObject, usize), GitrError>)
    ensures
        match r {
            Ok((obj, next)) => ofs_delta_at(
                buffer@,
                index as int,
                p as int,
                size,
                seen_view(objects_dir@),
            ) == Ok::<(GitObjectView, int), GitrError>((obj@, next as int)) && p < next
                <= buffer@.len(),
            Err(e) => ofs_delta_at(
                buffer@,
                index as int,
                p as int,
                size,
                seen_view(objects_dir@),
            ) == Err::<(GitObjectView, int), GitrError>(e),
        },
{
    if p > buffer.len() {
        return Err(GitrError::TruncatedPack);
    }
    let (ofs, used) = match get_offset(vstd::slice::slice_subrange(buffer, p, buffer.len())) {
        Ok(v) => v,
        Err(e) => {
            return Err(e);
        },
    };
    let (delta, next) = match inflate_from(buffer, p + used) {
        Ok(v) => v,
        Err(e) => {
            return Err(e);
        },
    };
    if ofs > index {
        proof {
            lemma_offsets_not_negative(seen_view(objects_dir@), index - ofs);
        }
        return Err(GitrError::MissingDeltaBase);
    }
    match seen_by_offset(objects_dir, index - ofs) {
        None => Err(GitrError::MissingDeltaBase),
        Some(i) => object_from_delta(&objects_dir[i], delta.as_slice(), size, next),
    }
}

/// No object was seen at a negative offset.
proof fn lemma_offsets_not_negative(index: Seq<SeenView>, offset: int)
    requires
        offset < 0,
        forall|i: int| 0 <= i < index.len() ==> #[trigger] index[i].offset >= 0,
    ensures
        find_by_offset(index, offset) is None,
    decreases index.len(),
{
    if index.len() > 0 {
        assert(index.last() == index[index.len() - 1]);
        assert forall|i: int| 0 <= i < index.drop_last().len() implies #[trigger] index.drop_last()[i].offset
            >= 0 by {
            assert(index.drop_last()[i] == index[i]);
        }
        lemma_offsets_not_negative(index.drop_last(), offset);
    }
}

/// Decodes a hash-delta record whose header ends at `p`: the object and the
/// position after the record.
pub fn delta_ref_from_packfile(
    buffer: &[u8],
    p: usize,
    size: usize,
    objects_dir: &Vec<SeenObject>,
) -> (r: Result<(GitObject, usize), GitrError>)
    ensures
        match r {
            Ok((obj, next)) => ref_delta_at(buffer@, p as int, size, seen_view(objects_dir@))
                == Ok::<(GitObjectView, int), GitrError>((obj@, next as int)) && p < next
                <= buffer@.len(),
            Err(e) => ref_delta_at(buffer@, p as int, size, seen_view(objects_dir@)) == Err::<
                (GitObjectView, int),
                GitrError,
            >(e),
        },
{
    if buffer.len() < 20 || p > buffer.len() - 20 {
        return Err(GitrError::TruncatedPack);
    }
    let raw = copy_range(buffer, p, p + 20);
    let id = to_hex(raw.as_slice());
    let (delta, next) = match inflate_from(buffer, p + 20) {
        Ok(v) => v,
        Err(e) => {
            return Err(e);
        },
    };
    match seen_by_id(objects_dir, id.as_slice()) {
        None => Err(GitrError::MissingDeltaBase),
        Some(i) => object_from_delta(&objects_dir[i], delta.as_slice(), size, next),
    }
}

/// Decodes the record at `index` and adds the object to `objects_dir`: the
/// object and the position after the record.
pub fn read_object(buffer: &[u8], index: usize, objects_dir: &mut Vec<SeenObject>) -> (r: Result<
    (GitObject, usize),
    GitrError,
>)
    ensures
        match r {
            Ok((obj, next)) => {
                &&& record_at(buffer@, index as int, seen_view(old(objects_dir)@)) == Ok::<
                    (GitObjectView, int),
                    GitrError,
                >((obj@, next as int))
                &&& index < next <= buffer@.len()
                &&& seen_view(final(objects_dir)@) == seen_view(old(objects_dir)@).push(
                    seen(index as int, obj@),
                )
            },
            Err(e) => record_at(buffer@, index as int, seen_view(old(objects_dir)@)) == Err::<
                (GitObjectView, int),
                GitrError,
            >(e) && final(objects_dir)@ == old(objects_dir)@,
        },
{
    reveal(record_at);
    if index > buffer.len() {
        return Err(GitrError::TruncatedPack);
    }
    let (tag, size, cursor) = match parse_git_object(
        vstd::slice::slice_subrange(buffer, index, buffer.len()),
    ) {
        Ok(v) => v,
        Err(e) => {
            proof {
                lemma_header_in_suffix(buffer@, index as int);
            }
            return Err(e);
        },
    };
    proof {
        lemma_header_in_suffix(buffer@, index as int);
    }
    let p: usize = index + cursor;
    let (obj, next) = if tag == 6 {
        match delta_ofs_from_packfile(buffer, index, p, size, objects_dir) {
            Ok(v) => v,
            Err(e) => {
                return Err(e);
            },
        }
    } else if tag == 7 {
        match delta_ref_from_packfile(buffer, p, size, objects_dir) {
            Ok(v) => v,
            Err(e) => {
                return Err(e);
            },
        }
    } else {
        let (payload, next) = match inflate_from(buffer, p) {
            Ok(v) => v,
            Err(e) => {
                if ObjectKind::from_tag(tag).is_none() {
                    return Err(GitrError::MalformedObject);
                }
                return Err(e);
            },
        };
        if ObjectKind::from_tag(tag).is_none() || payload.len() != size {
            return Err(GitrError::MalformedObject);
        }
        match git_valid_object_from_packfile(tag, payload.as_slice()) {
            Ok(obj) => (obj, next),
            Err(e) => {
                return Err(e);
            },
        }
    };
    let entry = SeenObject {
        offset: index,
        id: obj.get_hash(),
        kind: obj.get_kind(),
        payload: obj.get_content(),
    };
    assert(entry@ == seen(index as int, obj@));
    objects_dir.push(entry);
    assert(seen_view(objects_dir@) =~= seen_view(old(objects_dir)@).push(seen(index as int, obj@)));
    Ok((obj, next))
}

/// Reading a header in a suffix is reading it in the whole, shifted.
proof fn lemma_header_in_suffix(data: Seq<u8>, pos: int)
    requires
        0 <= pos <= data.len(),
    ensures
        header_at(data, pos) == match header_at(data.subrange(pos, data.len() as int), 0) {
            Ok((tag, size, next)) => Ok::<(u8, usize, int), GitrError>((tag, size, next + pos)),
            Err(e) => Err::<(u8, usize, int), GitrError>(e),
        },
{
    let suffix = data.subrange(pos, data.len() as int);
    if pos < data.len() {
        assert(suffix[0] == data[pos]);
        if data[pos] >= 128 {
            crate::git_transport::deltas::lemma_varint_in_suffix(data, pos, 1);
        }
    }
}

/// Unpacks a pack: the objects of its records, in order, as many as its
/// header declares.
pub fn read_pack_file(buffer: &[u8]) -> (r: Result<Vec<GitObject>, GitrError>)
    ensures
        match r {
            Ok(objects) => unpacked(buffer@) == Ok::<Seq<GitObjectView>, GitrError>(
                objects_view(objects@),
            ) && objects@.len() == declared_count(buffer@),
            Err(e) => unpacked(buffer@) == Err::<Seq<GitObjectView>, GitrError>(e),
        },
{
    proof {
        if unpacked(buffer@) is Ok {
            lemma_unpacked_count(buffer@);
        }
    }
    if buffer.len() < 32 {
        return Err(GitrError::TruncatedPack);
    }
    match verify_header(vstd::slice::slice_subrange(buffer, 0, 4)) {
        Ok(_) => {},
        Err(e) => {
            return Err(e);
        },
    }
    let version = match extract_version(vstd::slice::slice_subrange(buffer, 4, 8)) {
        Ok(v) => v,
        Err(e) => {
            return Err(e);
        },
    };
    if version != PACK_VERSION {
        return Err(GitrError::UnsupportedVersion);
    }
    let count = match extract_version(vstd::slice::slice_subrange(buffer, 8, 12)) {
        Ok(v) => v,
        Err(e) => {
            return Err(e);
        },
    };
    let body = vstd::slice::slice_subrange(buffer, 0, buffer.len() - 20);
    let mut objects: Vec<GitObject> = Vec::new();
    let mut seen_objects: Vec<SeenObject> = Vec::new();
    let mut pos: usize = 12;
    let mut i: u32 = 0;
    proof {
        assert(seen_view(seen_objects@) =~= Seq::<SeenView>::empty());
        assert(objects_view(objects@) =~= Seq::<GitObjectView>::empty());
        match records_from(body@, 12, count as nat, Seq::empty()) {
            Ok(rest) => {
                assert(objects_view(objects@) + rest =~= rest);
            },
            Err(_) => {},
        }
    }
    while i < count
        invariant
            i <= count,
            pos <= body@.len(),
            unpacked(buffer@) == records_from(body@, 12, count as nat, Seq::empty()),
            records_from(body@, 12, count as nat, Seq::empty()) == match records_from(
                body@,
                pos as int,
                (count - i) as nat,
                seen_view(seen_objects@),
            ) {
                Ok(rest) => Ok::<Seq<GitObjectView>, GitrError>(objects_view(objects@) + rest),
                Err(e) => Err::<Seq<GitObjectView>, GitrError>(e),
            },
        decreases count - i,
    {
        let ghost before = objects_view(objects@);
        match read_object(body, pos, &mut seen_objects) {
            Err(e) => {
                return Err(e);
            },
            Ok((obj, next)) => {
                proof {
                    match records_from(
                        body@,
                        next as int,
                        (count - i - 1) as nat,
                        seen_view(seen_objects@),
                    ) {
                        Ok(rest) => {
                            assert(objects_view(objects@.push(obj)) + rest =~= before + (seq![
                                obj@,
                            ] + rest));
                        },
                        Err(_) => {},
                    }
                }
                objects.push(obj);
                pos = next;
            },
        }
        i = i + 1;
    }
    if pos != body.len() {
        return Err(GitrError::MalformedObject);
    }
    proof {
        assert(objects_view(objects@) + Seq::<GitObjectView>::empty() =~= objects_view(objects@));
    }
    Ok(objects)
}

/// The objects that a pack held.
#[derive(Debug)]
pub struct PackFile {
    pub version: u32,
    pub objects: Vec<GitObject>,
}

impl PackFile {
    /// Unpacks `buffer`: the objects that it holds, in order, and the one
    /// format version that is read.
    pub fn new_from_server_packfile(buffer: &[u8]) -> (r: Result<PackFile, GitrError>)
        ensures
            match r {
                Ok(pack) => pack.version == PACK_VERSION && unpacked(buffer@) == Ok::<
                    Seq<GitObjectView>,
                    GitrError,
                >(objects_view(pack.objects@)),
                Err(e) => unpacked(buffer@) == Err::<Seq<GitObjectView>, GitrError>(e),
            },
    {
        match read_pack_file(buffer) {
            Ok(objects) => Ok(PackFile { version: PACK_VERSION, objects }),
            Err(e) => Err(e),
        }
    }
}

/// What is packed for one object: its type tag, the length that its
/// header declares, and its payload.
pub struct PackEntry {
    pub tag: u8,
    pub size: nat,
    pub payload: Seq<u8>,
}

/// The records of a pack: for each entry its header and its compressed payload.
pub open spec fn packed_records(entries: Seq<PackEntry>, streams: Seq<Seq<u8>>) -> Seq<u8>
    decreases entries.len(),
{
    if entries.len() == 0 || streams.len() == 0 {
        Seq::empty()
    } else {
        packed_records(entries.drop_last(), streams.drop_last()) + size_header(
            entries.last().tag,
            entries.last().size,
        ) + streams.last()
    }
}

/// What comes before the trailer of a pack of `entries`: magic, version,
/// count and records.
pub open spec fn packed_body(entries: Seq<PackEntry>, streams: Seq<Seq<u8>>) -> Seq<u8> {
    magic() + be32(PACK_VERSION) + be32(entries.len() as u32) + packed_records(entries, streams)
}

/// A pack of `entries`, each compressed to the stream of the same index:
/// the body and, as trailer, its digest.
pub open spec fn packed(entries: Seq<PackEntry>, streams: Seq<Seq<u8>>) -> Seq<u8> {
    packed_body(entries, streams) + sha1_digest(packed_body(entries, streams))
}

/// The entry packed for an object.
pub open spec fn entry_of(v: GitObjectView) -> PackEntry {
    PackEntry { tag: v.kind().tag(), size: v.payload().len(), payload: v.payload() }
}

/// The entries packed for a sequence of objects.
pub open spec fn entries_of(objs: Seq<GitObjectView>) -> Seq<PackEntry> {
    Seq::new(objs.len(), |i: int| entry_of(objs[i]))
}

/// The records of a first entry and of the rest, one after the other.
pub proof fn lemma_records_cons(
    e: PackEntry,
    st: Seq<u8>,
    entries: Seq<PackEntry>,
    streams: Seq<Seq<u8>>,
)
    requires
        entries.len() == streams.len(),
    ensures
        packed_records(seq![e] + entries, seq![st] + streams) == size_header(
            e.tag,
            e.size,
        ) + st + packed_records(entries, streams),
    decreases entries.len(),
{
    let es = seq![e] + entries;
    let ss = seq![st] + streams;
    if entries.len() == 0 {
        assert(es.drop_last() =~= Seq::<PackEntry>::empty());
        assert(ss.drop_last() =~= Seq::<Seq<u8>>::empty());
        assert(es.last() == e);
        assert(ss.last() == st);
        assert(packed_records(es.drop_last(), ss.drop_last()) =~= Seq::<u8>::empty());
        assert(packed_records(es, ss) =~= size_header(e.tag, e.size) + st);
        assert(packed_records(entries, streams) =~= Seq::<u8>::empty());
    } else {
        lemma_records_cons(e, st, entries.drop_last(), streams.drop_last());
        assert(es.drop_last() =~= seq![e] + entries.drop_last());
        assert(ss.drop_last() =~= seq![st] + streams.drop_last());
        assert(es.last() == entries.last());
        assert(ss.last() == streams.last());
        assert(packed_records(es, ss) =~= size_header(e.tag, e.size) + st
            + packed_records(entries, streams));
    }
}

/// The record of a well-formed object, written after `prefix`, decodes at
/// `prefix.len()` to that object, whatever follows it.
pub proof fn lemma_record_round_trip(
    prefix: Seq<u8>,
    v: GitObjectView,
    st: Seq<u8>,
    tail: Seq<u8>,
    index: Seq<SeenView>,
)
    requires
        v.wf(),
        v.payload().len() <= usize::MAX,
        is_stream_of(st, v.payload()),
    ensures
        record_at(
            prefix + size_header(v.kind().tag(), v.payload().len()) + st + tail,
            prefix.len() as int,
            index,
        ) == Ok::<(GitObjectView, int), GitrError>(
            (v, (prefix + size_header(v.kind().tag(), v.payload().len()) + st).len() as int),
        ),
{
    let tag = v.kind().tag();
    let size = v.payload().len() as usize;
    let header = size_header(tag, size as nat);
    let body = prefix + header + st + tail;
    let pos = prefix.len() as int;
    assert(body =~= prefix + header + (st + tail));
    lemma_header_round_trip(prefix, tag, size, st + tail);
    let p = (prefix + header).len() as int;
    v.kind().lemma_names();
    assert(body.subrange(p, body.len() as int) =~= st + tail);
    assert(zlib_inflate(st + tail) == Some((v.payload(), st.len())));
    lemma_parse_payload(v);
    assert(inflate_at(body, p) == Ok::<(Seq<u8>, int), GitrError>((v.payload(), p + st.len())));
    assert(plain_at(body, p, size, v.kind()) == Ok::<(GitObjectView, int), GitrError>(
        (v, p + st.len()),
    ));
    reveal(record_at);
}

/// Records written after `prefix` decode, from `prefix.len()` on, to the
/// objects they were made of.
pub proof fn lemma_records_round_trip(
    prefix: Seq<u8>,
    objs: Seq<GitObjectView>,
    streams: Seq<Seq<u8>>,
    index: Seq<SeenView>,
)
    requires
        objs.len() == streams.len(),
        forall|i: int|
            0 <= i < objs.len() ==> (#[trigger] objs[i]).wf() && objs[i].payload().len()
                <= usize::MAX,
        forall|i: int| 0 <= i < objs.len() ==> is_stream_of(#[trigger] streams[i], objs[i].payload()),
    ensures
        records_from(
            prefix + packed_records(entries_of(objs), streams),
            prefix.len() as int,
            objs.len(),
            index,
        ) == Ok::<Seq<GitObjectView>, GitrError>(objs),
    decreases objs.len(),
{
    let entries = entries_of(objs);
    let body = prefix + packed_records(entries, streams);
    let pos = prefix.len() as int;
    if objs.len() == 0 {
        assert(body =~= prefix);
        assert(objs =~= Seq::<GitObjectView>::empty());
    } else {
        let v = objs[0];
        let st = streams[0];
        let rest_objs = objs.subrange(1, objs.len() as int);
        let rest_streams = streams.subrange(1, streams.len() as int);
        let rest_entries = entries_of(rest_objs);
        assert(entries =~= seq![entry_of(v)] + rest_entries);
        assert(streams =~= seq![st] + rest_streams);
        lemma_records_cons(entry_of(v), st, rest_entries, rest_streams);
        let header = size_header(v.kind().tag(), v.payload().len());
        let tail = packed_records(rest_entries, rest_streams);
        assert(body =~= prefix + header + st + tail);
        assert(objs[0].wf());
        assert(is_stream_of(streams[0], objs[0].payload()));
        lemma_record_round_trip(prefix, v, st, tail, index);
        let prefix2 = prefix + header + st;
        assert forall|i: int| 0 <= i < rest_objs.len() implies (#[trigger] rest_objs[i]).wf()
            && rest_objs[i].payload().len() <= usize::MAX by {
            assert(rest_objs[i] == objs[i + 1]);
        }
        assert forall|i: int| 0 <= i < rest_objs.len() implies is_stream_of(
            #[trigger] rest_streams[i],
            rest_objs[i].payload(),
        ) by {
            assert(rest_streams[i] == streams[i + 1]);
            assert(rest_objs[i] == objs[i + 1]);
        }
        lemma_records_round_trip(prefix2, rest_objs, rest_streams, index.push(seen(pos, v)));
        assert(seq![v] + rest_objs =~= objs);
        assert(records_from(body, prefix2.len() as int, rest_objs.len(), index.push(seen(pos, v)))
            == Ok::<Seq<GitObjectView>, GitrError>(rest_objs));
    }
}

/// Packing then unpacking: a pack of well-formed objects, each compressed to
/// a zlib stream of its payload, unpacks to the same objects in the same order.
pub proof fn lemma_unpack_packed(objs: Seq<GitObjectView>, streams: Seq<Seq<u8>>)
    requires
        objs.len() == streams.len(),
        objs.len() <= u32::MAX,
        forall|i: int|
            0 <= i < objs.len() ==> (#[trigger] objs[i]).wf() && objs[i].payload().len()
                <= usize::MAX,
        forall|i: int| 0 <= i < objs.len() ==> is_stream_of(#[trigger] streams[i], objs[i].payload()),
        sha1_digest(packed_body(entries_of(objs), streams)).len() == 20,
    ensures
        unpacked(packed(entries_of(objs), streams)) == Ok::<Seq<GitObjectView>, GitrError>(objs),
{
    let entries = entries_of(objs);
    let head = magic() + be32(PACK_VERSION) + be32(entries.len() as u32);
    let body = packed_body(entries, streams);
    let bytes = packed(entries, streams);
    reveal_strlit("PACK");
    assert(magic().len() == 4);
    lemma_be32(PACK_VERSION);
    lemma_be32(entries.len() as u32);
    assert(head.len() == 12);
    assert(bytes.subrange(0, 4) =~= magic());
    assert(bytes.subrange(4, 8) =~= be32(PACK_VERSION));
    assert(bytes.subrange(8, 12) =~= be32(entries.len() as u32));
    assert(bytes.subrange(0, bytes.len() - 20) =~= body);
    lemma_records_round_trip(head, objs, streams, Seq::empty());
}

/// When some records decode and use up the bytes, asking for more records
/// than that fails with `TruncatedPack`.
pub proof fn lemma_count_exceeds(body: Seq<u8>, pos: int, present: nat, declared: nat, index: Seq<SeenView>)
    requires
        records_from(body, pos, present, index) is Ok,
        declared > present,
    ensures
        records_from(body, pos, declared, index) == Err::<Seq<GitObjectView>, GitrError>(
            GitrError::TruncatedPack,
        ),
    decreases present,
{
    reveal(record_at);
    if present > 0 {
        let (v, next) = record_at(body, pos, index).unwrap();
        lemma_count_exceeds(
            body,
            next,
            (present - 1) as nat,
            (declared - 1) as nat,
            index.push(seen(pos, v)),
        );
    }
}

/// Records that decode are as many as were asked for: no shorter list
/// comes out.
pub proof fn lemma_records_count(body: Seq<u8>, pos: int, n: nat, index: Seq<SeenView>)
    requires
        records_from(body, pos, n, index) is Ok,
    ensures
        records_from(body, pos, n, index).unwrap().len() == n,
    decreases n,
{
    if n > 0 {
        let (v, next) = record_at(body, pos, index).unwrap();
        lemma_records_count(body, next, (n - 1) as nat, index.push(seen(pos, v)));
    }
}

/// The count that the header of a pack declares.
pub open spec fn declared_count(bytes: Seq<u8>) -> int {
    be32_value(bytes.subrange(8, 12))
}

/// A pack that unpacks gives as many objects as its header declares,
/// never fewer.
pub proof fn lemma_unpacked_count(bytes: Seq<u8>)
    requires
        unpacked(bytes) is Ok,
    ensures
        unpacked(bytes).unwrap().len() == declared_count(bytes),
{
    lemma_records_count(
        bytes.subrange(0, bytes.len() - 20),
        12,
        be32_value(bytes.subrange(8, 12)) as nat,
        Seq::empty(),
    );
}

/// A stream that the bytes cut short cannot be read: reading it fails
/// with `TruncatedPack`.
pub proof fn lemma_cut_stream(body: Seq<u8>, p: int)
    requires
        0 <= p <= body.len(),
        cut_short(body.subrange(p, body.len() as int)),
    ensures
        inflate_at(body, p) == Err::<(Seq<u8>, int), GitrError>(GitrError::TruncatedPack),
{
}

/// Where the bytes end inside a record that holds an object itself, be
/// it in its header or, as the decompressor tells it, in its stream, no
/// count of records that includes it can be read: unpacking fails with
/// `TruncatedPack`, whatever was read before the record.
pub proof fn lemma_cut_record(body: Seq<u8>, pos: int, n: nat, index: Seq<SeenView>)
    requires
        n > 0,
        match header_at(body, pos) {
            Err(e) => e == GitrError::TruncatedPack,
            Ok((tag, size, p)) => 1 <= tag <= 4 && 0 <= p <= body.len() && cut_short(
                body.subrange(p, body.len() as int),
            ),
        },
    ensures
        records_from(body, pos, n, index) == Err::<Seq<GitObjectView>, GitrError>(
            GitrError::TruncatedPack,
        ),
{
    reveal(record_at);
    match header_at(body, pos) {
        Err(_) => {},
        Ok((tag, size, p)) => {
            lemma_cut_stream(body, p);
            assert(ObjectKind::of_tag(tag) is Some);
        },
    }
}

/// Whether the bytes run out before `n` records are read from `pos` on:
/// some records are read whole, and then the bytes end, at the start of
/// the next record, inside its header, or, as the decompressor tells it,
/// inside the stream of a record that holds an object itself.
pub open spec fn runs_out(body: Seq<u8>, pos: int, n: nat, index: Seq<SeenView>) -> bool
    decreases n,
{
    n > 0 && match header_at(body, pos) {
        Err(e) => e == GitrError::TruncatedPack,
        Ok((tag, size, p)) => (1 <= tag <= 4 && 0 <= p <= body.len() && cut_short(
            body.subrange(p, body.len() as int),
        )) || match record_at(body, pos, index) {
            Err(_) => false,
            Ok((v, next)) => runs_out(body, next, (n - 1) as nat, index.push(seen(pos, v))),
        },
    }
}

/// Where the bytes run out before the declared number of records is
/// read, be it after some whole records or inside one, unpacking fails
/// with `TruncatedPack`: no shorter list of objects comes out.
pub proof fn lemma_runs_out(body: Seq<u8>, pos: int, n: nat, index: Seq<SeenView>)
    requires
        runs_out(body, pos, n, index),
    ensures
        records_from(body, pos, n, index) == Err::<Seq<GitObjectView>, GitrError>(
            GitrError::TruncatedPack,
        ),
    decreases n,
{
    match header_at(body, pos) {
        Err(_) => {
            reveal(record_at);
        },
        Ok((tag, size, p)) => {
            if 1 <= tag <= 4 && 0 <= p <= body.len() && cut_short(
                body.subrange(p, body.len() as int),
            ) {
                lemma_cut_record(body, pos, n, index);
            } else {
                let (v, next) = record_at(body, pos, index).unwrap();
                lemma_runs_out(body, next, (n - 1) as nat, index.push(seen(pos, v)));
            }
        },
    }
}

/// What `prepare_contents` makes of a canonical form: the kind's name, the
/// length field and the payload. Name and length are empty when the header
/// holds no space; the payload is empty when there is no NUL.
pub open spec fn prepared(data: Seq<u8>) -> (Seq<u8>, Seq<u8>, Seq<u8>) {
    let nul = find_from(data, 0, 0);
    let header = data.subrange(0, nul);
    let sp = find_from(header, 32, 0);
    let raw = if nul < data.len() {
        data.subrange(nul + 1, data.len() as int)
    } else {
        Seq::empty()
    };
    if sp < header.len() {
        (header.subrange(0, sp), header.subrange(sp + 1, header.len() as int), raw)
    } else {
        (Seq::empty(), Seq::empty(), raw)
    }
}

/// The byte strings of a triple.
pub open spec fn triple_view(t: (Vec<u8>, Vec<u8>, Vec<u8>)) -> (Seq<u8>, Seq<u8>, Seq<u8>) {
    (t.0@, t.1@, t.2@)
}

/// Splits each canonical form into the kind's name, the length field and the payload.
pub fn prepare_contents(datos: Vec<Vec<u8>>) -> (r: Vec<(Vec<u8>, Vec<u8>, Vec<u8>)>)
    ensures
        r@.len() == datos@.len(),
        forall|i: int| 0 <= i < r@.len() ==> triple_view(#[trigger] r@[i]) == prepared(datos@[i]@),
{
    let mut contents: Vec<(Vec<u8>, Vec<u8>, Vec<u8>)> = Vec::new();
    let mut i: usize = 0;
    while i < datos.len()
        invariant
            i <= datos@.len(),
            contents@.len() == i,
            forall|j: int|
                0 <= j < i ==> triple_view(#[trigger] contents@[j]) == prepared(datos@[j]@),
        decreases datos@.len() - i,
    {
        let data = datos[i].as_slice();
        let nul = find_byte(data, 0u8, 0);
        let header = copy_range(data, 0, nul);
        let sp = find_byte(header.as_slice(), 32u8, 0);
        let raw = if nul < data.len() {
            copy_range(data, nul + 1, data.len())
        } else {
            Vec::new()
        };
        let triple = if sp < header.len() {
            (
                copy_range(header.as_slice(), 0, sp),
                copy_range(header.as_slice(), sp + 1, header.len()),
                raw,
            )
        } else {
            (Vec::new(), Vec::new(), raw)
        };
        contents.push(triple);
        i = i + 1;
    }
    contents
}

/// The number that a length field stands for: a run of decimal digits,
/// with or without a plus sign before it, whose value fits the machine.
pub open spec fn length_of(field: Seq<u8>) -> Option<nat> {
    let digits = if field.len() > 0 && field[0] == 43 {
        field.subrange(1, field.len() as int)
    } else {
        field
    };
    if is_dec(digits) && dec_value(digits) <= usize::MAX {
        Some(dec_value(digits))
    } else {
        None
    }
}

/// Executable `length_of`.
pub fn parse_length(field: &[u8]) -> (r: Option<usize>)
    ensures
        match r {
            Some(n) => length_of(field@) == Some(n as nat),
            None => length_of(field@) is None,
        },
{
    if field.len() > 0 && field[0] == 43u8 {
        let digits = copy_range(field, 1, field.len());
        parse_decimal(digits.as_slice())
    } else {
        parse_decimal(field)
    }
}

/// A triple that can be packed: a known kind, and a length field that
/// stands for a number. The number need not be the length of the payload:
/// it is what the header of the record declares.
pub open spec fn entry_ok(t: (Seq<u8>, Seq<u8>, Seq<u8>)) -> bool {
    ObjectKind::of_name(t.0) is Some && length_of(t.1) is Some
}

/// What is packed for a triple.
pub open spec fn triple_entry(t: (Seq<u8>, Seq<u8>, Seq<u8>)) -> PackEntry {
    PackEntry {
        tag: match ObjectKind::of_name(t.0) {
            Some(kind) => kind.tag(),
            None => 0,
        },
        size: match length_of(t.1) {
            Some(n) => n,
            None => 0,
        },
        payload: t.2,
    }
}

/// Whether the compressor succeeds on the payload of each entry.
pub open spec fn all_compress(entries: Seq<PackEntry>) -> bool {
    forall|i: int| 0 <= i < entries.len() ==> compresses(#[trigger] entries[i].payload)
}

/// What is packed for a list of triples.
pub open spec fn contents_entries(contents: Seq<(Vec<u8>, Vec<u8>, Vec<u8>)>) -> Seq<PackEntry> {
    Seq::new(contents.len(), |i: int| triple_entry(triple_view(contents[i])))
}

/// Each payload compressed by the compressor.
pub open spec fn deflated(entries: Seq<PackEntry>) -> Seq<Seq<u8>> {
    Seq::new(entries.len(), |i: int| zlib_stream(entries[i].payload))
}

/// Whether a list of triples can be packed.
pub open spec fn contents_ok(contents: Seq<(Vec<u8>, Vec<u8>, Vec<u8>)>) -> bool {
    forall|i: int| 0 <= i < contents.len() ==> entry_ok(triple_view(#[trigger] contents[i]))
}

fn push_be32(out: &mut Vec<u8>, n: u32)
    ensures
        final(out)@ == old(out)@ + be32(n),
{
    out.push((n / 0x1000000) as u8);
    out.push(((n / 0x10000) % 0x100) as u8);
    out.push(((n / 0x100) % 0x100) as u8);
    out.push((n % 0x100) as u8);
    assert(out@ =~= old(out)@ + be32(n));
}

fn push_size_header(out: &mut Vec<u8>, tag: u8, size: usize)
    requires
        tag < 8,
    ensures
        final(out)@ == old(out)@ + size_header(tag, size as nat),
{
    if size < 16 {
        out.push(tag * 16 + size as u8);
        assert(out@ =~= old(out)@ + size_header(tag, size as nat));
    } else {
        out.push(128 + tag * 16 + (size % 16) as u8);
        write_varint(out, size / 16);
        assert(out@ =~= old(out)@ + size_header(tag, size as nat));
    }
}

/// Packs the given objects, each given as the name of its kind, its length
/// in decimal, and its payload. Always writes whole objects, never deltas;
/// the header of each record declares the length that the triple gives.
/// Fails with `InvalidArgumentError` when there are more objects than the
/// count field can hold, with `MalformedObject` when a triple names no kind
/// or its length field stands for no number, and with `CompressionError`
/// when the compressor fails on one of the payloads.
pub fn create_packfile(contents: Vec<(Vec<u8>, Vec<u8>, Vec<u8>)>) -> (r: Result<
    Vec<u8>,
    GitrError,
>)
    ensures
        match r {
            Ok(v) => {
                let entries = contents_entries(contents@);
                &&& contents@.len() <= u32::MAX
                &&& contents_ok(contents@)
                &&& all_compress(entries)
                &&& v@ == packed(entries, deflated(entries))
                &&& sha1_digest(packed_body(entries, deflated(entries))).len() == 20
                &&& forall|i: int|
                    0 <= i < entries.len() ==> is_stream_of(
                        #[trigger] deflated(entries)[i],
                        entries[i].payload,
                    )
            },
            Err(e) => if contents@.len() > u32::MAX {
                e == GitrError::InvalidArgumentError
            } else if !contents_ok(contents@) {
                e == GitrError::MalformedObject
            } else {
                e == GitrError::CompressionError && !all_compress(contents_entries(contents@))
            },
        },
{
    if contents.len() > u32::MAX as usize {
        return Err(GitrError::InvalidArgumentError);
    }
    let mut k: usize = 0;
    while k < contents.len()
        invariant
            k <= contents@.len(),
            contents@.len() <= u32::MAX,
            forall|j: int| 0 <= j < k ==> entry_ok(triple_view(#[trigger] contents@[j])),
        decreases contents@.len() - k,
    {
        let known = ObjectKind::from_name(contents[k].0.as_slice()).is_some();
        if !known || parse_length(contents[k].1.as_slice()).is_none() {
            assert(!entry_ok(triple_view(contents@[k as int])));
            return Err(GitrError::MalformedObject);
        }
        k = k + 1;
    }
    proof {
        reveal_strlit("PACK");
    }
    let ghost entries = contents_entries(contents@);
    let ghost streams = deflated(entries);
    let mut out = bytes_of("PACK");
    push_be32(&mut out, PACK_VERSION);
    push_be32(&mut out, contents.len() as u32);
    let ghost head = out@;
    let mut i: usize = 0;
    proof {
        assert(entries.subrange(0, 0) =~= Seq::<PackEntry>::empty());
    }
    while i < contents.len()
        invariant
            i <= contents@.len(),
            contents@.len() <= u32::MAX,
            contents_ok(contents@),
            entries == contents_entries(contents@),
            streams == deflated(entries),
            out@ == head + packed_records(entries.subrange(0, i as int), streams.subrange(0, i as int)),
            forall|j: int| 0 <= j < i ==> is_stream_of(#[trigger] streams[j], entries[j].payload),
            forall|j: int| 0 <= j < i ==> compresses(#[trigger] entries[j].payload),
        decreases contents@.len() - i,
    {
        assert(entry_ok(triple_view(contents@[i as int])));
        let kind = match ObjectKind::from_name(contents[i].0.as_slice()) {
            Some(kind) => kind,
            None => {
                return Err(GitrError::MalformedObject);
            },
        };
        let size = match parse_length(contents[i].1.as_slice()) {
            Some(size) => size,
            None => {
                return Err(GitrError::MalformedObject);
            },
        };
        let compressed = match code(contents[i].2.as_slice()) {
            Ok(v) => v,
            Err(e) => {
                assert(!compresses(entries[i as int].payload));
                return Err(e);
            },
        };
        let ghost before = out@;
        push_size_header(&mut out, kind.get_tag(), size);
        push_all(&mut out, compressed.as_slice());
        proof {
            let es = entries.subrange(0, i as int + 1);
            let ss = streams.subrange(0, i as int + 1);
            assert(es.drop_last() =~= entries.subrange(0, i as int));
            assert(ss.drop_last() =~= streams.subrange(0, i as int));
            assert(es.last() == entries[i as int]);
            assert(ss.last() == streams[i as int]);
            assert(entries[i as int].tag == kind.tag());
            assert(entries[i as int].size == size);
            assert(out@ =~= head + packed_records(es, ss));
        }
        i = i + 1;
    }
    proof {
        assert(entries.subrange(0, contents@.len() as int) =~= entries);
        assert(streams.subrange(0, contents@.len() as int) =~= streams);
        assert(out@ =~= packed_body(entries, streams));
    }
    let trailer = sha1hashing2(out.as_slice());
    push_all(&mut out, trailer.as_slice());
    Ok(out)
}

/// Whether each of the canonical forms `contents` splits into a triple
/// that can be packed.
pub open spec fn forms_ok(contents: Seq<Vec<u8>>) -> bool {
    forall|i: int| 0 <= i < contents.len() ==> entry_ok(prepared(#[trigger] contents[i]@))
}

/// Whether the compressor succeeds on the payload of each of the canonical
/// forms `contents`.
pub open spec fn forms_compress(contents: Seq<Vec<u8>>) -> bool {
    forall|i: int| 0 <= i < contents.len() ==> compresses(prepared(#[trigger] contents[i]@).2)
}

/// Packs canonical forms: each is split into kind, length and payload, and
/// the triples are packed. Fails with `InvalidArgumentError` when there are
/// more forms than the count field can hold, with `MalformedObject` when
/// one of them does not split into a triple that can be packed, and with
/// `CompressionError` when the compressor fails.
pub fn pack_data_bruno(contents: Vec<Vec<u8>>) -> (r: Result<Vec<u8>, GitrError>)
    ensures
        match r {
            Ok(v) => contents@.len() <= u32::MAX && forms_ok(contents@) && forms_compress(
                contents@,
            ) && exists|
                triples: Seq<(Vec<u8>, Vec<u8>, Vec<u8>)>,
            |
                {
                    &&& triples.len() == contents@.len()
                    &&& forall|i: int|
                        0 <= i < triples.len() ==> triple_view(#[trigger] triples[i]) == prepared(
                            contents@[i]@,
                        )
                    &&& contents_ok(triples)
                    &&& v@ == packed(
                        contents_entries(triples),
                        deflated(contents_entries(triples)),
                    )
                },
            Err(e) => if contents@.len() > u32::MAX {
                e == GitrError::InvalidArgumentError
            } else if !forms_ok(contents@) {
                e == GitrError::MalformedObject
            } else {
                e == GitrError::CompressionError && !forms_compress(contents@)
            },
        },
{
    let triples = prepare_contents(contents);
    proof {
        if contents_ok(triples@) {
            assert forall|i: int| 0 <= i < contents@.len() implies entry_ok(
                prepared(#[trigger] contents@[i]@),
            ) by {
                assert(entry_ok(triple_view(triples@[i])));
            }
        }
        if forms_ok(contents@) {
            assert forall|i: int| 0 <= i < triples@.len() implies entry_ok(
                triple_view(#[trigger] triples@[i]),
            ) by {
                assert(entry_ok(prepared(contents@[i]@)));
            }
        }
        let entries = contents_entries(triples@);
        if all_compress(entries) {
            assert forall|i: int| 0 <= i < contents@.len() implies compresses(
                prepared(#[trigger] contents@[i]@).2,
            ) by {
                assert(compresses(entries[i].payload));
                assert(triple_view(triples@[i]) == prepared(contents@[i]@));
            }
        }
        if forms_compress(contents@) {
            assert forall|i: int| 0 <= i < entries.len() implies compresses(
                #[trigger] entries[i].payload,
            ) by {
                assert(compresses(prepared(contents@[i]@).2));
                assert(triple_view(triples@[i]) == prepared(contents@[i]@));
            }
        }
    }
    create_packfile(triples)
}

/// Packs the given objects. What comes out unpacks to the same objects, in
/// the same order. Fails with `InvalidArgumentError` when there are more
/// objects than the count field can hold, and with `CompressionError` when
/// the compressor fails on one of the payloads.
pub fn pack_objects(objects: &Vec<GitObject>) -> (r: Result<Vec<u8>, GitrError>)
    ensures
        match r {
            Ok(v) => {
                &&& v@ == packed(
                    entries_of(objects_view(objects@)),
                    deflated(entries_of(objects_view(objects@))),
                )
                &&& unpacked(v@) == Ok::<Seq<GitObjectView>, GitrError>(objects_view(objects@))
                &&& all_compress(entries_of(objects_view(objects@)))
            },
            Err(e) => if objects@.len() > u32::MAX {
                e == GitrError::InvalidArgumentError
            } else {
                e == GitrError::CompressionError && !all_compress(
                    entries_of(objects_view(objects@)),
                )
            },
        },
{
    let mut triples: Vec<(Vec<u8>, Vec<u8>, Vec<u8>)> = Vec::new();
    let ghost objs = objects_view(objects@);
    let mut i: usize = 0;
    while i < objects.len()
        invariant
            i <= objects@.len(),
            objs == objects_view(objects@),
            triples@.len() == i,
            forall|j: int|
                0 <= j < i ==> {
                    &&& entry_ok(triple_view(#[trigger] triples@[j]))
                    &&& triple_entry(triple_view(triples@[j])) == entry_of(objs[j])
                    &&& objs[j].wf()
                    &&& objs[j].payload().len() <= usize::MAX
                },
        decreases objects@.len() - i,
    {
        let payload = objects[i].get_content();
        let kind = objects[i].get_kind();
        proof {
            kind.lemma_names();
        }
        let digits = to_decimal(payload.len());
        proof {
            lemma_dec_round_trip(payload@.len());
            assert(digits@.len() > 0 && digits@[0] != 43);
            assert(length_of(digits@) == Some(payload@.len()));
        }
        triples.push((kind.get_name(), digits, payload));
        i = i + 1;
    }
    proof {
        assert(contents_entries(triples@) =~= entries_of(objs));
    }
    let ghost triples_seq = triples@;
    match create_packfile(triples) {
        Ok(v) => {
            proof {
                let entries = entries_of(objs);
                let streams = deflated(entries);
                assert forall|j: int| 0 <= j < objs.len() implies (#[trigger] objs[j]).wf()
                    && objs[j].payload().len() <= usize::MAX by {
                    assert(entry_ok(triple_view(triples_seq[j])));
                    assert(triple_entry(triple_view(triples_seq[j])) == entry_of(objs[j]));
                }
                assert forall|j: int| 0 <= j < objs.len() implies is_stream_of(
                    #[trigger] streams[j],
                    objs[j].payload(),
                ) by {
                    assert(entries[j].payload == objs[j].payload());
                }
                lemma_unpack_packed(objs, streams);
            }
            Ok(v)
        },
        Err(e) => Err(e),
    }
}

/// Where a pack starts in what was received: the first place where the
/// magic bytes stand, from index `from` on; the length of what was received
/// where they stand nowhere.
pub open spec fn pack_start_from(received: Seq<u8>, from: int) -> int
    decreases received.len() - from,
{
    if from < 0 || from >= received.len() {
        received.len() as int
    } else if occurs_at(received, magic(), from) {
        from
    } else {
        pack_start_from(received, from + 1)
    }
}

/// Finds where a pack starts in what was received: the first place where
/// the magic bytes stand, or the length of what was received.
pub fn pack_start(received: &[u8]) -> (r: usize)
    ensures
        r == pack_start_from(received@, 0),
        r <= received@.len(),
        r < received@.len() ==> occurs_at(received@, magic(), r as int),
        forall|k: int| 0 <= k < r ==> !occurs_at(received@, magic(), k),
{
    proof {
        reveal_strlit("PACK");
    }
    let mark = bytes_of("PACK");
    let mut i: usize = 0;
    while i < received.len()
        invariant
            i <= received@.len(),
            mark@ == magic(),
            pack_start_from(received@, 0) == pack_start_from(received@, i as int),
            forall|k: int| 0 <= k < i ==> !occurs_at(received@, magic(), k),
        decreases received@.len() - i,
    {
        if stands_at(received, mark.as_slice(), i) {
            return i;
        }
        i = i + 1;
    }
    i
}

} // verus!
