use crate::gitr_errors::GitrError;
use crate::objects::git_object::{
    canonical, canonical_bytes, hash_object, is_object_id, is_valid_id, lemma_id_plain,
    object_id, parse_canonical, split_canonical, ObjectKind,
};
use crate::text::{
    ascii, bytes_eq, bytes_of, copy_range, field_at, find_byte, lacks, lemma_field_complete,
    lemma_field_sound, lemma_find_from, line, push_all, push_line, read_field,
};
use crate::codec::{compresses, flate2compress2, is_stream_of, zlib_stream};
use crate::file_manager::{holds, written, ObjectStore};
use vstd::prelude::*;

verus! {

/// The mathematical value of an annotated tag.
pub struct TagView {
    pub target: Seq<u8>,
    pub name: Seq<u8>,
    pub tagger: Seq<u8>,
    pub message: Seq<u8>,
}

/// A tag that can be written down and read back: the target is an id, and
/// neither the name nor the tagger line holds a line feed.
pub open spec fn tag_wf(t: TagView) -> bool {
    &&& is_object_id(t.target)
    &&& lacks(t.name, 10)
    &&& lacks(t.tagger, 10)
}

/// The key of the header line that names the target.
pub open spec fn key_object() -> Seq<u8> {
    ascii("object"@)
}

/// The key of the header line that names the kind of the target.
pub open spec fn key_type() -> Seq<u8> {
    ascii("type"@)
}

/// The key of the header line that names the tag.
pub open spec fn key_tag() -> Seq<u8> {
    ascii("tag"@)
}

/// The key of the header line that names the tagger.
pub open spec fn key_tagger() -> Seq<u8> {
    ascii("tagger"@)
}

/// The payload of a tag: the target, the target's kind (always a commit), the
/// name, the tagger, an empty line, and the message.
pub open spec fn tag_payload(t: TagView) -> Seq<u8> {
    line(key_object(), t.target) + line(key_type(), ascii("commit"@)) + line(key_tag(), t.name)
        + line(key_tagger(), t.tagger) + seq![10u8] + t.message
}

/// Reads a tag's payload. `None` when a line is missing or out of order, when
/// the target's kind is not a commit, or when what was read is not
/// well-formed.
pub open spec fn parse_tag(bytes: Seq<u8>) -> Option<TagView> {
    match field_at(bytes, 0, key_object()) {
        None => None,
        Some((target, at1)) => match field_at(bytes, at1, key_type()) {
            None => None,
            Some((kind, at2)) => match field_at(bytes, at2, key_tag()) {
                None => None,
                Some((name, at3)) => match field_at(bytes, at3, key_tagger()) {
                    None => None,
                    Some((tagger, at4)) => {
                        let t = TagView {
                            target,
                            name,
                            tagger,
                            message: bytes.subrange(at4 + 1, bytes.len() as int),
                        };
                        if kind == ascii("commit"@) && at4 < bytes.len() && bytes[at4] == 10
                            && tag_wf(t) {
                            Some(t)
                        } else {
                            None
                        }
                    },
                },
            },
        },
    }
}

proof fn lemma_commit_word()
    ensures
        lacks(ascii("commit"@), 10),
{
    reveal_strlit("commit");
    assert(ascii("commit"@).len() == 6);
}

/// The payload of a well-formed tag reads back as that tag.
pub proof fn lemma_parse_tag_payload(t: TagView)
    requires
        tag_wf(t),
    ensures
        parse_tag(tag_payload(t)) == Some(t),
{
    lemma_id_plain(t.target);
    lemma_commit_word();
    let bytes = tag_payload(t);
    let l1 = line(key_object(), t.target);
    let l2 = line(key_type(), ascii("commit"@));
    let l3 = line(key_tag(), t.name);
    let l4 = line(key_tagger(), t.tagger);
    let tail = seq![10u8] + t.message;
    let e = Seq::<u8>::empty();
    assert(bytes =~= e + l1 + (l2 + l3 + l4 + tail));
    lemma_field_complete(e, key_object(), t.target, l2 + l3 + l4 + tail);
    assert(e + l1 =~= l1);
    assert(bytes =~= l1 + l2 + (l3 + l4 + tail));
    lemma_field_complete(l1, key_type(), ascii("commit"@), l3 + l4 + tail);
    assert(bytes =~= (l1 + l2) + l3 + (l4 + tail));
    lemma_field_complete(l1 + l2, key_tag(), t.name, l4 + tail);
    assert(bytes =~= (l1 + l2 + l3) + l4 + tail);
    lemma_field_complete(l1 + l2 + l3, key_tagger(), t.tagger, tail);
    let at4 = (l1 + l2 + l3 + l4).len() as int;
    assert(bytes[at4] == 10);
    assert(bytes.subrange(at4 + 1, bytes.len() as int) =~= t.message);
}

/// What reads as a tag is well-formed and is the payload of what was read.
pub proof fn lemma_parse_tag_sound(bytes: Seq<u8>)
    requires
        parse_tag(bytes) is Some,
    ensures
        tag_wf(parse_tag(bytes).unwrap()),
        tag_payload(parse_tag(bytes).unwrap()) == bytes,
{
    let (target, at1) = field_at(bytes, 0, key_object()).unwrap();
    lemma_field_sound(bytes, 0, key_object());
    let (kind, at2) = field_at(bytes, at1, key_type()).unwrap();
    lemma_field_sound(bytes, at1, key_type());
    let (name, at3) = field_at(bytes, at2, key_tag()).unwrap();
    lemma_field_sound(bytes, at2, key_tag());
    let (tagger, at4) = field_at(bytes, at3, key_tagger()).unwrap();
    lemma_field_sound(bytes, at3, key_tagger());
    assert(bytes =~= bytes.subrange(0, at1) + bytes.subrange(at1, at2) + bytes.subrange(at2, at3)
        + bytes.subrange(at3, at4) + seq![10u8] + bytes.subrange(at4 + 1, bytes.len() as int));
}

/// An annotated tag. Its view is a `TagView`.
#[derive(Debug)]
pub struct Tag {
    hash: Vec<u8>,
    commit_hash: Vec<u8>,
    name: Vec<u8>,
    tagger: Vec<u8>,
    message: Vec<u8>,
}

impl View for Tag {
    type V = TagView;

    closed spec fn view(&self) -> TagView {
        TagView {
            target: self.commit_hash@,
            name: self.name@,
            tagger: self.tagger@,
            message: self.message@,
        }
    }
}

/// The payload of the tag with the given fields.
fn payload_bytes(target: &[u8], name: &[u8], tagger: &[u8], message: &[u8]) -> (r: Vec<u8>)
    ensures
        r@ == tag_payload(
            TagView { target: target@, name: name@, tagger: tagger@, message: message@ },
        ),
{
    proof {
        reveal_strlit("object");
        reveal_strlit("type");
        reveal_strlit("tag");
        reveal_strlit("tagger");
        reveal_strlit("commit");
    }
    let mut out: Vec<u8> = Vec::new();
    push_line(&mut out, bytes_of("object").as_slice(), target);
    push_line(&mut out, bytes_of("type").as_slice(), bytes_of("commit").as_slice());
    push_line(&mut out, bytes_of("tag").as_slice(), name);
    push_line(&mut out, bytes_of("tagger").as_slice(), tagger);
    out.push(10u8);
    push_all(&mut out, message);
    assert(out@ =~= tag_payload(
        TagView { target: target@, name: name@, tagger: tagger@, message: message@ },
    ));
    out
}

/// Whether the fields make a well-formed tag.
fn fields_ok(target: &[u8], name: &[u8], tagger: &[u8]) -> (r: bool)
    ensures
        r == tag_wf(
            TagView { target: target@, name: name@, tagger: tagger@, message: Seq::empty() },
        ),
{
    proof {
        lemma_find_from(name@, 10, 0);
        lemma_find_from(tagger@, 10, 0);
    }
    is_valid_id(target) && find_byte(name, 10u8, 0) == name.len() && find_byte(tagger, 10u8, 0)
        == tagger.len()
}

impl Tag {
    #[verifier::type_invariant]
    spec fn inv(&self) -> bool {
        &&& tag_wf(self@)
        &&& self.hash@ == object_id(ObjectKind::Tag, tag_payload(self@))
        &&& is_object_id(self.hash@)
    }

    /// The tag with the given fields. Fails with `MalformedObject` exactly
    /// when the fields are not well-formed.
    pub fn new_from_packfile(
        tag_name: Vec<u8>,
        tag_message: Vec<u8>,
        commit: Vec<u8>,
        tagger: Vec<u8>,
    ) -> (r: Result<Tag, GitrError>)
        ensures
            ({
                let t = TagView {
                    target: commit@,
                    name: tag_name@,
                    tagger: tagger@,
                    message: tag_message@,
                };
                match r {
                    Ok(tag) => tag_wf(t) && tag@ == t,
                    Err(e) => !tag_wf(t) && e == GitrError::MalformedObject,
                }
            }),
    {
        if !fields_ok(commit.as_slice(), tag_name.as_slice(), tagger.as_slice()) {
            return Err(GitrError::MalformedObject);
        }
        let payload = payload_bytes(
            commit.as_slice(),
            tag_name.as_slice(),
            tagger.as_slice(),
            tag_message.as_slice(),
        );
        let hash = hash_object(ObjectKind::Tag, payload.as_slice());
        Ok(Tag { hash, commit_hash: commit, name: tag_name, tagger, message: tag_message })
    }

    /// The tag whose payload is `data`; `MalformedObject` when the bytes are
    /// not the payload of a well-formed tag.
    pub fn new_tag_from_string(data: &[u8]) -> (r: Result<Tag, GitrError>)
        ensures
            match r {
                Ok(tag) => parse_tag(data@) == Some(tag@),
                Err(e) => parse_tag(data@) is None && e == GitrError::MalformedObject,
            },
    {
        proof {
            reveal_strlit("object");
            reveal_strlit("type");
            reveal_strlit("tag");
            reveal_strlit("tagger");
            reveal_strlit("commit");
        }
        let (target, at1) = match read_field(data, 0, bytes_of("object").as_slice()) {
            Some(f) => f,
            None => {
                return Err(GitrError::MalformedObject);
            },
        };
        let (kind, at2) = match read_field(data, at1, bytes_of("type").as_slice()) {
            Some(f) => f,
            None => {
                return Err(GitrError::MalformedObject);
            },
        };
        let (name, at3) = match read_field(data, at2, bytes_of("tag").as_slice()) {
            Some(f) => f,
            None => {
                return Err(GitrError::MalformedObject);
            },
        };
        let (tagger, at4) = match read_field(data, at3, bytes_of("tagger").as_slice()) {
            Some(f) => f,
            None => {
                return Err(GitrError::MalformedObject);
            },
        };
        proof {
            lemma_field_sound(data@, at3 as int, key_tagger());
        }
        if !bytes_eq(kind.as_slice(), bytes_of("commit").as_slice()) || at4 >= data.len()
            || data[at4] != 10u8 {
            return Err(GitrError::MalformedObject);
        }
        let message = copy_range(data, at4 + 1, data.len());
        if !fields_ok(target.as_slice(), name.as_slice(), tagger.as_slice()) {
            return Err(GitrError::MalformedObject);
        }
        proof {
            lemma_parse_tag_sound(data@);
        }
        let hash = hash_object(ObjectKind::Tag, data);
        Ok(Tag { hash, commit_hash: target, name, tagger, message })
    }

    /// The tag whose canonical form is `data`; `MalformedObject` when the
    /// bytes are not the canonical form of a well-formed tag.
    pub fn new_tag_from_data(data: &[u8]) -> (r: Result<Tag, GitrError>)
        ensures
            match r {
                Ok(tag) => exists|payload: Seq<u8>|
                    parse_canonical(data@) == Some((ObjectKind::Tag, payload)) && parse_tag(
                        payload,
                    ) == Some(tag@),
                Err(e) => e == GitrError::MalformedObject && match parse_canonical(data@) {
                    Some((kind, payload)) => kind != ObjectKind::Tag || parse_tag(payload)
                        is None,
                    None => true,
                },
            },
    {
        match split_canonical(data) {
            Some((ObjectKind::Tag, payload)) => Tag::new_tag_from_string(payload.as_slice()),
            _ => Err(GitrError::MalformedObject),
        }
    }

    /// The id of the commit that this tag names.
    pub fn get_commit_hash(&self) -> (r: Vec<u8>)
        ensures
            r@ == self@.target,
            is_object_id(r@),
    {
        proof {
            use_type_invariant(self);
        }
        self.commit_hash.clone()
    }

    /// The id of this tag.
    pub fn get_hash(&self) -> (r: Vec<u8>)
        ensures
            r@ == object_id(ObjectKind::Tag, tag_payload(self@)),
            is_object_id(r@),
    {
        proof {
            use_type_invariant(self);
        }
        self.hash.clone()
    }

    /// The stored form of this tag: its canonical form, compressed;
    /// `CompressionError` when the compressor fails.
    pub fn get_data(&self) -> (r: Result<Vec<u8>, GitrError>)
        ensures
            match r {
                Ok(v) => compresses(canonical(ObjectKind::Tag, tag_payload(self@))) && v@ == zlib_stream(
                    canonical(ObjectKind::Tag, tag_payload(self@)),
                )
                    && is_stream_of(v@, canonical(ObjectKind::Tag, tag_payload(self@))),
                Err(e) => e == GitrError::CompressionError && !compresses(
                    canonical(ObjectKind::Tag, tag_payload(self@)),
                ),
            },
    {
        let payload = self.get_content();
        let bytes = canonical_bytes(ObjectKind::Tag, payload.as_slice());
        flate2compress2(bytes.as_slice())
    }

    /// Saves this tag in `store`, unless its id is held there already.
    /// On `CompressionError` the store is unchanged.
    pub fn save(&self, store: &mut ObjectStore) -> (r: Result<(), GitrError>)
        ensures
            match r {
                Ok(_) => (holds(old(store)@, object_id(ObjectKind::Tag, tag_payload(self@))) || compresses(
                    canonical(ObjectKind::Tag, tag_payload(self@)),
                )) && final(store)@ == written(
                    old(store)@,
                    object_id(ObjectKind::Tag, tag_payload(self@)),
                    zlib_stream(canonical(ObjectKind::Tag, tag_payload(self@))),
                ),
                Err(e) => {
                    &&& e == GitrError::CompressionError
                    &&& final(store)@ == old(store)@
                    &&& !holds(old(store)@, object_id(ObjectKind::Tag, tag_payload(self@)))
                    &&& !compresses(canonical(ObjectKind::Tag, tag_payload(self@)))
                },
            },
    {
        let payload = self.get_content();
        match store.put_payload(ObjectKind::Tag, payload.as_slice()) {
            Ok(_) => Ok(()),
            Err(e) => Err(e),
        }
    }

    /// The payload of this tag.
    pub fn get_content(&self) -> (r: Vec<u8>)
        ensures
            r@ == tag_payload(self@),
            tag_wf(self@),
    {
        proof {
            use_type_invariant(self);
        }
        payload_bytes(
            self.commit_hash.as_slice(),
            self.name.as_slice(),
            self.tagger.as_slice(),
            self.message.as_slice(),
        )
    }
}

impl Tag {
    /// The tag named `tag_name` that `username`, written to with `mail`,
    /// puts on the commit `commit_hash` at `timestamp`, with the message
    /// `tag_message` and a line feed at its end. Fails with
    /// `MalformedObject` exactly when the fields are not well-formed.
    pub fn new(
        tag_name: Vec<u8>,
        tag_message: &[u8],
        commit_hash: Vec<u8>,
        username: &[u8],
        mail: &[u8],
        timestamp: usize,
    ) -> (r: Result<Tag, GitrError>)
        ensures
            ({
                let t = TagView {
                    target: commit_hash@,
                    name: tag_name@,
                    tagger: crate::objects::commit::identity_line(
                        username@,
                        mail@,
                        timestamp as nat,
                    ),
                    message: tag_message@ + seq![10u8],
                };
                match r {
                    Ok(tag) => tag_wf(t) && tag@ == t,
                    Err(e) => !tag_wf(t) && e == GitrError::MalformedObject,
                }
            }),
    {
        let mut text = copy_range(tag_message, 0, tag_message.len());
        text.push(10u8);
        assert(text@ =~= tag_message@ + seq![10u8]);
        Tag::new_from_packfile(
            tag_name,
            text,
            commit_hash,
            crate::objects::commit::build_identity(username, mail, timestamp),
        )
    }
}

} // verus!
