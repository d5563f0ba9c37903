use crate::codec::{
    compresses, decode, flate2compress2, inflated, is_stream_of, sha1_digest, sha1hashing2,
    zlib_stream,
};
use crate::gitr_errors::GitrError;
use crate::objects::blob::Blob;
use crate::objects::commit::{
    commit_payload, commit_wf, lemma_parse_commit_payload, lemma_parse_commit_sound, parse_commit,
    Commit, CommitView,
};
use crate::objects::tag::{
    lemma_parse_tag_payload, lemma_parse_tag_sound, parse_tag, tag_payload, tag_wf, Tag, TagView,
};
use crate::objects::tree::{
    lemma_parse_tree_payload, lemma_parse_tree_sound, parse_tree, tree_payload, tree_wf, Tree,
    TreeItemView,
};
use crate::text::{
    ascii, bytes_eq, bytes_of, copy_range, dec_digits, find_byte, find_from, from_hex, hex_encode,
    hex_value, is_digit, is_hex, lacks, lemma_dec_round_trip, lemma_find_from, lemma_find_unique, lemma_hex_round_trip,
    push_all, to_decimal, to_hex,
};
use vstd::prelude::*;

verus! {

/// The four kinds of stored object.
#[derive(Debug, Clone, Copy, PartialEq, Eq, Structural)]
pub enum ObjectKind {
    Commit,
    Tree,
    Blob,
    Tag,
}

impl ObjectKind {
    /// The type tag that a pack record carries for this kind.
    pub open spec fn tag(self) -> u8 {
        match self {
            ObjectKind::Commit => 1,
            ObjectKind::Tree => 2,
            ObjectKind::Blob => 3,
            ObjectKind::Tag => 4,
        }
    }

    /// The word that opens the canonical form of an object of this kind.
    pub open spec fn name(self) -> Seq<u8> {
        match self {
            ObjectKind::Commit => ascii("commit"@),
            ObjectKind::Tree => ascii("tree"@),
            ObjectKind::Blob => ascii("blob"@),
            ObjectKind::Tag => ascii("tag"@),
        }
    }

    /// The kind with type tag `t`, if there is one.
    pub open spec fn of_tag(t: u8) -> Option<ObjectKind> {
        if t == 1 {
            Some(ObjectKind::Commit)
        } else if t == 2 {
            Some(ObjectKind::Tree)
        } else if t == 3 {
            Some(ObjectKind::Blob)
        } else if t == 4 {
            Some(ObjectKind::Tag)
        } else {
            None
        }
    }

    /// The kind named `name`, if there is one.
    pub open spec fn of_name(name: Seq<u8>) -> Option<ObjectKind> {
        if name == ObjectKind::Commit.name() {
            Some(ObjectKind::Commit)
        } else if name == ObjectKind::Tree.name() {
            Some(ObjectKind::Tree)
        } else if name == ObjectKind::Blob.name() {
            Some(ObjectKind::Blob)
        } else if name == ObjectKind::Tag.name() {
            Some(ObjectKind::Tag)
        } else {
            None
        }
    }

    /// Names are distinct, non-empty and hold neither a space nor a NUL.
    pub proof fn lemma_names(self)
        ensures
            ObjectKind::of_name(self.name()) == Some(self),
            ObjectKind::of_tag(self.tag()) == Some(self),
            lacks(self.name(), 32),
            lacks(self.name(), 0),
            0 < self.name().len() <= 6,
    {
        reveal_strlit("commit");
        reveal_strlit("tree");
        reveal_strlit("blob");
        reveal_strlit("tag");
        assert(ObjectKind::Commit.name().len() == 6);
        assert(ObjectKind::Tree.name().len() == 4);
        assert(ObjectKind::Blob.name().len() == 4);
        assert(ObjectKind::Tag.name().len() == 3);
        assert(ObjectKind::Tree.name()[0] == 116);
        assert(ObjectKind::Blob.name()[0] == 98);
    }

    /// The type tag of this kind in a pack.
    pub fn get_tag(self) -> (r: u8)
        ensures
            r == self.tag(),
    {
        match self {
            ObjectKind::Commit => 1,
            ObjectKind::Tree => 2,
            ObjectKind::Blob => 3,
            ObjectKind::Tag => 4,
        }
    }

    /// The kind with the type tag `t`, if there is one.
    pub fn from_tag(t: u8) -> (r: Option<ObjectKind>)
        ensures
            r == ObjectKind::of_tag(t),
    {
        if t == 1 {
            Some(ObjectKind::Commit)
        } else if t == 2 {
            Some(ObjectKind::Tree)
        } else if t == 3 {
            Some(ObjectKind::Blob)
        } else if t == 4 {
            Some(ObjectKind::Tag)
        } else {
            None
        }
    }

    /// The name of this kind as canonical forms write it.
    pub fn get_name(self) -> (r: Vec<u8>)
        ensures
            r@ == self.name(),
    {
        proof {
            reveal_strlit("commit");
            reveal_strlit("tree");
            reveal_strlit("blob");
            reveal_strlit("tag");
        }
        match self {
            ObjectKind::Commit => bytes_of("commit"),
            ObjectKind::Tree => bytes_of("tree"),
            ObjectKind::Blob => bytes_of("blob"),
            ObjectKind::Tag => bytes_of("tag"),
        }
    }

    /// The kind named `name`, if there is one.
    pub fn from_name(name: &[u8]) -> (r: Option<ObjectKind>)
        ensures
            r == ObjectKind::of_name(name@),
    {
        if bytes_eq(name, ObjectKind::Commit.get_name().as_slice()) {
            Some(ObjectKind::Commit)
        } else if bytes_eq(name, ObjectKind::Tree.get_name().as_slice()) {
            Some(ObjectKind::Tree)
        } else if bytes_eq(name, ObjectKind::Blob.get_name().as_slice()) {
            Some(ObjectKind::Blob)
        } else if bytes_eq(name, ObjectKind::Tag.get_name().as_slice()) {
            Some(ObjectKind::Tag)
        } else {
            None
        }
    }
}

/// The canonical form of an object: its kind's name, a space, the payload's
/// length in decimal, a NUL, and the payload.
pub open spec fn canonical(kind: ObjectKind, payload: Seq<u8>) -> Seq<u8> {
    kind.name() + seq![32u8] + dec_digits(payload.len()) + seq![0u8] + payload
}

/// The id of an object: the hex rendering of the digest of its canonical form.
pub open spec fn object_id(kind: ObjectKind, payload: Seq<u8>) -> Seq<u8> {
    hex_encode(sha1_digest(canonical(kind, payload)))
}

/// Whether `id` has the shape of an object id: 40 lowercase hex digits.
pub open spec fn is_object_id(id: Seq<u8>) -> bool {
    id.len() == 40 && is_hex(id)
}

/// Splits a canonical form into kind and payload. `None` when there is no NUL,
/// no space before it, an unknown kind, or a length field that is not the
/// decimal length of the payload.
pub open spec fn parse_canonical(bytes: Seq<u8>) -> Option<(ObjectKind, Seq<u8>)> {
    let nul = find_from(bytes, 0, 0);
    let header = bytes.subrange(0, nul);
    let sp = find_from(header, 32, 0);
    if nul >= bytes.len() || sp >= header.len() {
        None
    } else {
        let payload = bytes.subrange(nul + 1, bytes.len() as int);
        match ObjectKind::of_name(header.subrange(0, sp)) {
            None => None,
            Some(kind) => if header.subrange(sp + 1, header.len() as int) == dec_digits(
                payload.len(),
            ) {
                Some((kind, payload))
            } else {
                None
            },
        }
    }
}

/// Digits hold neither a space nor a NUL.
pub proof fn lemma_digits_plain(n: nat)
    ensures
        lacks(dec_digits(n), 32),
        lacks(dec_digits(n), 0),
{
    lemma_dec_round_trip(n);
    let d = dec_digits(n);
    assert forall|i: int| 0 <= i < d.len() implies d[i] != 32 && d[i] != 0 by {
        assert(is_digit(d[i]));
    }
}

/// A canonical form splits into the kind and payload it was made from.
pub proof fn lemma_parse_canonical(kind: ObjectKind, payload: Seq<u8>)
    ensures
        parse_canonical(canonical(kind, payload)) == Some((kind, payload)),
{
    kind.lemma_names();
    lemma_digits_plain(payload.len());
    let name = kind.name();
    let digits = dec_digits(payload.len());
    let bytes = canonical(kind, payload);
    let h = name + seq![32u8] + digits;
    let at = h.len() as int;
    assert(bytes =~= h + seq![0u8] + payload);
    assert forall|j: int| 0 <= j < at implies bytes[j] != 0 by {
        if j < name.len() {
            assert(bytes[j] == name[j]);
        } else if j > name.len() {
            assert(bytes[j] == digits[j - name.len() - 1]);
        }
    }
    lemma_find_unique(bytes, 0, 0, at);
    assert(bytes.subrange(0, at) =~= h);
    lemma_find_unique(h, 32, 0, name.len() as int);
    assert(h.subrange(0, name.len() as int) =~= name);
    assert(h.subrange(name.len() as int + 1, h.len() as int) =~= digits);
    assert(bytes.subrange(at + 1, bytes.len() as int) =~= payload);
}

/// Bytes that split into a kind and a payload are the canonical form of these.
pub proof fn lemma_canonical_of_parsed(bytes: Seq<u8>)
    requires
        parse_canonical(bytes) is Some,
    ensures
        canonical(parse_canonical(bytes).unwrap().0, parse_canonical(bytes).unwrap().1) == bytes,
{
    let nul = find_from(bytes, 0, 0);
    lemma_find_from(bytes, 0, 0);
    let header = bytes.subrange(0, nul);
    let sp = find_from(header, 32, 0);
    lemma_find_from(header, 32, 0);
    let (kind, payload) = parse_canonical(bytes).unwrap();
    assert(header.subrange(0, sp) == kind.name());
    assert(canonical(kind, payload) =~= bytes) by {
        let c = canonical(kind, payload);
        assert(header =~= header.subrange(0, sp) + seq![32u8] + header.subrange(
            sp + 1,
            header.len() as int,
        ));
        assert(bytes =~= header + seq![0u8] + payload);
    }
}

/// The canonical form of an object of kind `kind` with payload `payload`.
pub fn canonical_bytes(kind: ObjectKind, payload: &[u8]) -> (r: Vec<u8>)
    ensures
        r@ == canonical(kind, payload@),
{
    let mut out = kind.get_name();
    out.push(32u8);
    let digits = to_decimal(payload.len());
    push_all(&mut out, digits.as_slice());
    out.push(0u8);
    push_all(&mut out, payload);
    assert(out@ =~= canonical(kind, payload@));
    out
}

/// The id of the object of kind `kind` with payload `payload`.
pub fn hash_object(kind: ObjectKind, payload: &[u8]) -> (r: Vec<u8>)
    ensures
        r@ == object_id(kind, payload@),
        is_object_id(r@),
{
    let bytes = canonical_bytes(kind, payload);
    let d = sha1hashing2(bytes.as_slice());
    proof {
        lemma_hex_round_trip(d@);
    }
    to_hex(d.as_slice())
}

/// Splits canonical bytes into kind and payload.
pub fn split_canonical(bytes: &[u8]) -> (r: Option<(ObjectKind, Vec<u8>)>)
    ensures
        match r {
            Some((kind, payload)) => parse_canonical(bytes@) == Some((kind, payload@)),
            None => parse_canonical(bytes@) is None,
        },
{
    let nul = find_byte(bytes, 0u8, 0);
    if nul >= bytes.len() {
        return None;
    }
    let header = copy_range(bytes, 0, nul);
    let sp = find_byte(header.as_slice(), 32u8, 0);
    if sp >= header.len() {
        return None;
    }
    let name = copy_range(header.as_slice(), 0, sp);
    let len_field = copy_range(header.as_slice(), sp + 1, header.len());
    let payload = copy_range(bytes, nul + 1, bytes.len());
    match ObjectKind::from_name(name.as_slice()) {
        None => None,
        Some(kind) => {
            let digits = to_decimal(payload.len());
            if bytes_eq(len_field.as_slice(), digits.as_slice()) {
                Some((kind, payload))
            } else {
                None
            }
        },
    }
}

/// Whether `id` has the shape of an object id.
pub fn is_valid_id(id: &[u8]) -> (r: bool)
    ensures
        r == is_object_id(id@),
{
    if id.len() != 40 {
        return false;
    }
    from_hex(id).is_some()
}

/// An id holds no line feed, space or NUL.
pub proof fn lemma_id_plain(id: Seq<u8>)
    requires
        is_object_id(id),
    ensures
        lacks(id, 10),
        lacks(id, 32),
        lacks(id, 0),
{
    assert forall|i: int| 0 <= i < id.len() implies id[i] != 10 && id[i] != 32 && id[i] != 0 by {
        assert(hex_value(id[i]) >= 0);
    }
}

/// A stored object of any kind.
#[derive(Debug)]
pub enum GitObject {
    Blob(Blob),
    Commit(Commit),
    Tree(Tree),
    Tag(Tag),
}

/// The mathematical value of a stored object.
pub enum GitObjectView {
    Blob(Seq<u8>),
    Commit(CommitView),
    Tree(Seq<TreeItemView>),
    Tag(TagView),
}

impl View for GitObject {
    type V = GitObjectView;

    open spec fn view(&self) -> GitObjectView {
        match self {
            GitObject::Blob(b) => GitObjectView::Blob(b@),
            GitObject::Commit(c) => GitObjectView::Commit(c@),
            GitObject::Tree(t) => GitObjectView::Tree(t@),
            GitObject::Tag(t) => GitObjectView::Tag(t@),
        }
    }
}

impl GitObjectView {
    /// The kind of the object.
    pub open spec fn kind(self) -> ObjectKind {
        match self {
            GitObjectView::Blob(_) => ObjectKind::Blob,
            GitObjectView::Commit(_) => ObjectKind::Commit,
            GitObjectView::Tree(_) => ObjectKind::Tree,
            GitObjectView::Tag(_) => ObjectKind::Tag,
        }
    }

    /// The payload of the object.
    pub open spec fn payload(self) -> Seq<u8> {
        match self {
            GitObjectView::Blob(b) => b,
            GitObjectView::Commit(c) => commit_payload(c),
            GitObjectView::Tree(t) => tree_payload(t),
            GitObjectView::Tag(t) => tag_payload(t),
        }
    }

    /// Whether the object can be written down and read back.
    pub open spec fn wf(self) -> bool {
        match self {
            GitObjectView::Blob(_) => true,
            GitObjectView::Commit(c) => commit_wf(c),
            GitObjectView::Tree(t) => tree_wf(t),
            GitObjectView::Tag(t) => tag_wf(t),
        }
    }

    /// The canonical form of the object.
    pub open spec fn canonical(self) -> Seq<u8> {
        canonical(self.kind(), self.payload())
    }

    /// The id of the object.
    pub open spec fn id(self) -> Seq<u8> {
        object_id(self.kind(), self.payload())
    }
}

/// Reads the payload of an object of kind `kind`.
pub open spec fn parse_payload(kind: ObjectKind, payload: Seq<u8>) -> Option<GitObjectView> {
    match kind {
        ObjectKind::Blob => Some(GitObjectView::Blob(payload)),
        ObjectKind::Commit => match parse_commit(payload) {
            Some(c) => Some(GitObjectView::Commit(c)),
            None => None,
        },
        ObjectKind::Tree => match parse_tree(payload) {
            Some(t) => Some(GitObjectView::Tree(t)),
            None => None,
        },
        ObjectKind::Tag => match parse_tag(payload) {
            Some(t) => Some(GitObjectView::Tag(t)),
            None => None,
        },
    }
}

/// Reads an object from its canonical form.
pub open spec fn parse_object(bytes: Seq<u8>) -> Option<GitObjectView> {
    match parse_canonical(bytes) {
        Some((kind, payload)) => parse_payload(kind, payload),
        None => None,
    }
}

/// What decoding makes of stored bytes: `CompressionError` when they do not
/// decompress, `MalformedObject` when what they decompress to is not the
/// canonical form of an object, and that object otherwise.
pub open spec fn decoded(stored: Seq<u8>) -> Result<GitObjectView, GitrError> {
    match inflated(stored) {
        Err(e) => Err(e),
        Ok(bytes) => match parse_object(bytes) {
            Some(v) => Ok(v),
            None => Err(GitrError::MalformedObject),
        },
    }
}

/// The payload of a well-formed object reads back as that object.
pub proof fn lemma_parse_payload(v: GitObjectView)
    requires
        v.wf(),
    ensures
        parse_payload(v.kind(), v.payload()) == Some(v),
{
    match v {
        GitObjectView::Blob(_) => {},
        GitObjectView::Commit(c) => lemma_parse_commit_payload(c),
        GitObjectView::Tree(t) => lemma_parse_tree_payload(t),
        GitObjectView::Tag(t) => lemma_parse_tag_payload(t),
    }
}

/// What reads as an object of kind `kind` is a well-formed object of that
/// kind whose payload is what was read.
pub proof fn lemma_parse_payload_sound(kind: ObjectKind, payload: Seq<u8>)
    requires
        parse_payload(kind, payload) is Some,
    ensures
        parse_payload(kind, payload).unwrap().wf(),
        parse_payload(kind, payload).unwrap().kind() == kind,
        parse_payload(kind, payload).unwrap().payload() == payload,
{
    match kind {
        ObjectKind::Blob => {},
        ObjectKind::Commit => lemma_parse_commit_sound(payload),
        ObjectKind::Tree => lemma_parse_tree_sound(payload),
        ObjectKind::Tag => lemma_parse_tag_sound(payload),
    }
}

/// Round trip, on canonical forms: the canonical form of a well-formed
/// object reads back as that object.
pub proof fn lemma_parse_object_canonical(v: GitObjectView)
    requires
        v.wf(),
    ensures
        parse_object(v.canonical()) == Some(v),
{
    lemma_parse_canonical(v.kind(), v.payload());
    lemma_parse_payload(v);
}

/// Round trip: decoding any zlib stream of the canonical form of a
/// well-formed object gives back that object.
pub proof fn lemma_decode_encode(v: GitObjectView, stored: Seq<u8>)
    requires
        v.wf(),
        is_stream_of(stored, v.canonical()),
    ensures
        decoded(stored) == Ok::<GitObjectView, GitrError>(v),
{
    assert(stored + Seq::<u8>::empty() =~= stored);
    lemma_parse_object_canonical(v);
}

/// Hash determinism: objects with the same canonical form have the same id,
/// and an object's id depends on nothing but its canonical form.
pub proof fn lemma_hash_determinism(a: GitObjectView, b: GitObjectView)
    requires
        a.canonical() == b.canonical(),
    ensures
        a.id() == b.id(),
        a.id() == hex_encode(sha1_digest(a.canonical())),
{
}

/// The object of kind `kind` whose payload is `payload`; `MalformedObject`
/// when the bytes are not the payload of a well-formed object of that kind.
pub fn object_from_payload(kind: ObjectKind, payload: &[u8]) -> (r: Result<GitObject, GitrError>)
    ensures
        match r {
            Ok(obj) => parse_payload(kind, payload@) == Some(obj@),
            Err(e) => parse_payload(kind, payload@) is None && e == GitrError::MalformedObject,
        },
{
    match kind {
        ObjectKind::Blob => {
            let content = copy_range(payload, 0, payload.len());
            assert(content@ =~= payload@);
            match Blob::new(content) {
                Ok(b) => Ok(GitObject::Blob(b)),
                Err(e) => Err(e),
            }
        },
        ObjectKind::Commit => match Commit::new_commit_from_string(payload) {
            Ok(c) => Ok(GitObject::Commit(c)),
            Err(e) => Err(e),
        },
        ObjectKind::Tree => match Tree::new_from_packfile(payload) {
            Ok(t) => Ok(GitObject::Tree(t)),
            Err(e) => Err(e),
        },
        ObjectKind::Tag => match Tag::new_tag_from_string(payload) {
            Ok(t) => Ok(GitObject::Tag(t)),
            Err(e) => Err(e),
        },
    }
}

impl GitObject {
    /// The object whose canonical form is `bytes`; `MalformedObject` when
    /// the bytes are not the canonical form of a well-formed object.
    pub fn from_canonical(bytes: &[u8]) -> (r: Result<GitObject, GitrError>)
        ensures
            match r {
                Ok(obj) => parse_object(bytes@) == Some(obj@),
                Err(e) => parse_object(bytes@) is None && e == GitrError::MalformedObject,
            },
    {
        match split_canonical(bytes) {
            Some((kind, payload)) => object_from_payload(kind, payload.as_slice()),
            None => Err(GitrError::MalformedObject),
        }
    }

    /// Decodes stored bytes into the object they hold.
    pub fn decode(stored: &[u8]) -> (r: Result<GitObject, GitrError>)
        ensures
            match r {
                Ok(obj) => decoded(stored@) == Ok::<GitObjectView, GitrError>(obj@),
                Err(e) => decoded(stored@) == Err::<GitObjectView, GitrError>(e),
            },
    {
        match decode(stored) {
            Ok(bytes) => GitObject::from_canonical(bytes.as_slice()),
            Err(e) => Err(e),
        }
    }

    /// The kind of this object.
    pub fn get_kind(&self) -> (r: ObjectKind)
        ensures
            r == self@.kind(),
    {
        match self {
            GitObject::Blob(_) => ObjectKind::Blob,
            GitObject::Commit(_) => ObjectKind::Commit,
            GitObject::Tree(_) => ObjectKind::Tree,
            GitObject::Tag(_) => ObjectKind::Tag,
        }
    }

    /// The type tag that a pack record carries for this object.
    pub fn get_type(&self) -> (r: u8)
        ensures
            r == self@.kind().tag(),
    {
        self.get_kind().get_tag()
    }

    /// The id of this object.
    pub fn get_hash(&self) -> (r: Vec<u8>)
        ensures
            r@ == self@.id(),
            is_object_id(r@),
    {
        match self {
            GitObject::Blob(b) => b.get_hash(),
            GitObject::Commit(c) => c.get_hash(),
            GitObject::Tree(t) => t.get_hash(),
            GitObject::Tag(t) => t.get_hash(),
        }
    }

    /// The payload of this object. Every object is well-formed.
    pub fn get_content(&self) -> (r: Vec<u8>)
        ensures
            r@ == self@.payload(),
            self@.wf(),
    {
        match self {
            GitObject::Blob(b) => b.get_content(),
            GitObject::Commit(c) => c.get_content(),
            GitObject::Tree(t) => t.get_content(),
            GitObject::Tag(t) => t.get_content(),
        }
    }

    /// The canonical form of this object.
    pub fn get_canonical(&self) -> (r: Vec<u8>)
        ensures
            r@ == self@.canonical(),
            self@.wf(),
    {
        let payload = self.get_content();
        canonical_bytes(self.get_kind(), payload.as_slice())
    }

    /// The stored form of this object: its canonical form, compressed.
    /// `CompressionError` when the compressor fails.
    pub fn get_data(&self) -> (r: Result<Vec<u8>, GitrError>)
        ensures
            match r {
                Ok(v) => compresses(self@.canonical()) && v@ == zlib_stream(self@.canonical())
                    && is_stream_of(v@, self@.canonical()) && decoded(v@) == Ok::<
                    GitObjectView,
                    GitrError,
                >(self@),
                Err(e) => e == GitrError::CompressionError && !compresses(self@.canonical()),
            },
    {
        let bytes = self.get_canonical();
        match flate2compress2(bytes.as_slice()) {
            Ok(v) => {
                proof {
                    lemma_decode_encode(self@, v@);
                }
                Ok(v)
            },
            Err(e) => Err(e),
        }
    }

    /// Encodes this object: its id and its stored form.
    pub fn encode(&self) -> (r: Result<(Vec<u8>, Vec<u8>), GitrError>)
        ensures
            match r {
                Ok((id, stored)) => {
                    &&& id@ == self@.id()
                    &&& compresses(self@.canonical())
                    &&& stored@ == zlib_stream(self@.canonical())
                    &&& decoded(stored@) == Ok::<GitObjectView, GitrError>(self@)
                },
                Err(e) => e == GitrError::CompressionError && !compresses(self@.canonical()),
            },
    {
        match self.get_data() {
            Ok(stored) => Ok((self.get_hash(), stored)),
            Err(e) => Err(e),
        }
    }
}

} // verus!
