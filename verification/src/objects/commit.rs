use crate::gitr_errors::GitrError;
use crate::objects::git_object::{
    canonical, canonical_bytes, hash_object, is_object_id, is_valid_id, lemma_id_plain,
    object_id, ObjectKind,
};
use crate::text::{
    ascii, bytes_eq, bytes_of, clone_list, copy_range, field_at, find_byte, lacks,
    lemma_field_complete, lemma_field_other, lemma_field_sound, lemma_find_from, line, push_all,
    push_line, read_field, seqs,
};
use crate::objects::git_object::{parse_canonical, split_canonical};
use crate::codec::{compresses, flate2compress2, is_stream_of, zlib_stream};
use crate::file_manager::{holds, written, ObjectStore};
use vstd::prelude::*;

verus! {

/// The mathematical value of a commit.
pub struct CommitView {
    pub tree: Seq<u8>,
    pub parents: Seq<Seq<u8>>,
    pub author: Seq<u8>,
    pub committer: Seq<u8>,
    pub message: Seq<u8>,
}

/// A commit that can be written down and read back: ids where ids belong, at
/// most two parents, and no line feed inside the author or committer line.
pub open spec fn commit_wf(c: CommitView) -> bool {
    &&& is_object_id(c.tree)
    &&& c.parents.len() <= 2
    &&& forall|i: int| 0 <= i < c.parents.len() ==> is_object_id(#[trigger] c.parents[i])
    &&& lacks(c.author, 10)
    &&& lacks(c.committer, 10)
}

/// The key of the header line that names the tree.
pub open spec fn key_tree() -> Seq<u8> {
    ascii("tree"@)
}

/// The key of a header line that names a parent.
pub open spec fn key_parent() -> Seq<u8> {
    ascii("parent"@)
}

/// The key of the header line that names the author.
pub open spec fn key_author() -> Seq<u8> {
    ascii("author"@)
}

/// The key of the header line that names the committer.
pub open spec fn key_committer() -> Seq<u8> {
    ascii("committer"@)
}

/// The parent lines of a commit with at most two parents.
pub open spec fn parents_bytes(parents: Seq<Seq<u8>>) -> Seq<u8> {
    if parents.len() == 0 {
        Seq::empty()
    } else if parents.len() == 1 {
        line(key_parent(), parents[0])
    } else {
        line(key_parent(), parents[0]) + line(key_parent(), parents[1])
    }
}

/// The payload of a commit: the tree line, the parent lines, the author and
/// committer lines, an empty line, and the message.
pub open spec fn commit_payload(c: CommitView) -> Seq<u8> {
    line(key_tree(), c.tree) + parents_bytes(c.parents) + line(key_author(), c.author) + line(
        key_committer(),
        c.committer,
    ) + seq![10u8] + c.message
}

/// Reads up to two parent lines at `pos`: the parents and the position after them.
pub open spec fn parse_parents(bytes: Seq<u8>, pos: int) -> (Seq<Seq<u8>>, int) {
    match field_at(bytes, pos, key_parent()) {
        None => (Seq::empty(), pos),
        Some((first, next)) => match field_at(bytes, next, key_parent()) {
            None => (seq![first], next),
            Some((second, last)) => (seq![first, second], last),
        },
    }
}

/// Reads a commit's payload. `None` when a line is missing or out of order,
/// or when what was read is not well-formed.
pub open spec fn parse_commit(bytes: Seq<u8>) -> Option<CommitView> {
    match field_at(bytes, 0, key_tree()) {
        None => None,
        Some((tree, at1)) => {
            let (parents, at2) = parse_parents(bytes, at1);
            match field_at(bytes, at2, key_author()) {
                None => None,
                Some((author, at3)) => match field_at(bytes, at3, key_committer()) {
                    None => None,
                    Some((committer, at4)) => {
                        let c = CommitView {
                            tree,
                            parents,
                            author,
                            committer,
                            message: bytes.subrange(at4 + 1, bytes.len() as int),
                        };
                        if at4 < bytes.len() && bytes[at4] == 10 && commit_wf(c) {
                            Some(c)
                        } else {
                            None
                        }
                    },
                },
            }
        },
    }
}

proof fn lemma_keys()
    ensures
        key_tree().len() == 4,
        key_parent().len() == 6,
        key_author().len() == 6,
        key_committer().len() == 9,
        key_parent()[0] == 112,
        key_author()[0] == 97,
{
    reveal_strlit("tree");
    reveal_strlit("parent");
    reveal_strlit("author");
    reveal_strlit("committer");
    assert(key_tree().len() == 4);
    assert(key_parent().len() == 6);
    assert(key_author().len() == 6);
    assert(key_committer().len() == 9);
}

/// Parent lines written after `prefix` and followed by an author line are
/// read back at `prefix.len()`.
proof fn lemma_parents_complete(
    prefix: Seq<u8>,
    parents: Seq<Seq<u8>>,
    author: Seq<u8>,
    rest: Seq<u8>,
)
    requires
        parents.len() <= 2,
        forall|i: int| 0 <= i < parents.len() ==> is_object_id(#[trigger] parents[i]),
    ensures
        parse_parents(
            prefix + parents_bytes(parents) + line(key_author(), author) + rest,
            prefix.len() as int,
        ) == (parents, (prefix + parents_bytes(parents)).len() as int),
{
    lemma_keys();
    let l_author = line(key_author(), author);
    let bytes = prefix + parents_bytes(parents) + l_author + rest;
    if parents.len() == 0 {
        assert(prefix + parents_bytes(parents) =~= prefix);
        lemma_field_other(prefix, key_author(), author, rest, key_parent());
        assert(parents =~= Seq::<Seq<u8>>::empty());
    } else if parents.len() == 1 {
        lemma_id_plain(parents[0]);
        let l0 = line(key_parent(), parents[0]);
        assert(bytes =~= prefix + l0 + (l_author + rest));
        lemma_field_complete(prefix, key_parent(), parents[0], l_author + rest);
        assert(bytes =~= (prefix + l0) + l_author + rest);
        lemma_field_other(prefix + l0, key_author(), author, rest, key_parent());
        assert(parents =~= seq![parents[0]]);
    } else {
        lemma_id_plain(parents[0]);
        lemma_id_plain(parents[1]);
        let l0 = line(key_parent(), parents[0]);
        let l1 = line(key_parent(), parents[1]);
        assert(bytes =~= prefix + l0 + (l1 + l_author + rest));
        lemma_field_complete(prefix, key_parent(), parents[0], l1 + l_author + rest);
        assert(bytes =~= (prefix + l0) + l1 + (l_author + rest));
        lemma_field_complete(prefix + l0, key_parent(), parents[1], l_author + rest);
        assert(parents =~= seq![parents[0], parents[1]]);
        assert(prefix + parents_bytes(parents) =~= prefix + l0 + l1);
    }
}

/// The payload of a well-formed commit reads back as that commit.
pub proof fn lemma_parse_commit_payload(c: CommitView)
    requires
        commit_wf(c),
    ensures
        parse_commit(commit_payload(c)) == Some(c),
{
    lemma_id_plain(c.tree);
    let bytes = commit_payload(c);
    let l_tree = line(key_tree(), c.tree);
    let pb = parents_bytes(c.parents);
    let l_author = line(key_author(), c.author);
    let l_committer = line(key_committer(), c.committer);
    let tail = seq![10u8] + c.message;
    let e = Seq::<u8>::empty();
    assert(bytes =~= e + l_tree + (pb + l_author + l_committer + tail));
    lemma_field_complete(e, key_tree(), c.tree, pb + l_author + l_committer + tail);
    assert(e + l_tree =~= l_tree);
    let at1 = l_tree.len() as int;
    assert(field_at(bytes, 0, key_tree()) == Some((c.tree, at1)));
    let after_author = l_committer + tail;
    assert(bytes =~= l_tree + pb + l_author + after_author);
    lemma_parents_complete(l_tree, c.parents, c.author, after_author);
    let pre2 = l_tree + pb;
    let at2 = pre2.len() as int;
    assert(parse_parents(bytes, at1) == (c.parents, at2));
    lemma_field_complete(pre2, key_author(), c.author, after_author);
    let pre3 = pre2 + l_author;
    let at3 = pre3.len() as int;
    assert(field_at(bytes, at2, key_author()) == Some((c.author, at3)));
    assert(bytes =~= pre3 + l_committer + tail);
    lemma_field_complete(pre3, key_committer(), c.committer, tail);
    let at4 = (pre3 + l_committer).len() as int;
    assert(field_at(bytes, at3, key_committer()) == Some((c.committer, at4)));
    assert(bytes[at4] == 10);
    assert(bytes.subrange(at4 + 1, bytes.len() as int) =~= c.message);
}

/// What reads as a commit is well-formed and is the payload of what was read.
pub proof fn lemma_parse_commit_sound(bytes: Seq<u8>)
    requires
        parse_commit(bytes) is Some,
    ensures
        commit_wf(parse_commit(bytes).unwrap()),
        commit_payload(parse_commit(bytes).unwrap()) == bytes,
{
    let c = parse_commit(bytes).unwrap();
    let (tree, at1) = field_at(bytes, 0, key_tree()).unwrap();
    lemma_field_sound(bytes, 0, key_tree());
    let (parents, at2) = parse_parents(bytes, at1);
    assert(bytes.subrange(at1, at2) == parents_bytes(parents) && at1 <= at2 <= bytes.len()) by {
        match field_at(bytes, at1, key_parent()) {
            None => {
                assert(bytes.subrange(at1, at1) =~= Seq::<u8>::empty());
            },
            Some((first, next)) => {
                lemma_field_sound(bytes, at1, key_parent());
                match field_at(bytes, next, key_parent()) {
                    None => {},
                    Some((second, last)) => {
                        lemma_field_sound(bytes, next, key_parent());
                        assert(bytes.subrange(at1, last) =~= bytes.subrange(at1, next)
                            + bytes.subrange(next, last));
                    },
                }
            },
        }
    }
    let (author, at3) = field_at(bytes, at2, key_author()).unwrap();
    lemma_field_sound(bytes, at2, key_author());
    let (committer, at4) = field_at(bytes, at3, key_committer()).unwrap();
    lemma_field_sound(bytes, at3, key_committer());
    assert(bytes =~= bytes.subrange(0, at1) + bytes.subrange(at1, at2) + bytes.subrange(at2, at3)
        + bytes.subrange(at3, at4) + seq![10u8] + bytes.subrange(at4 + 1, bytes.len() as int));
}

/// The marker that stands for "no parent" in a list of parent ids.
pub open spec fn no_parent() -> Seq<u8> {
    ascii("None"@)
}

/// The parents that a list of ids stands for: none when the list is empty or
/// starts with the "no parent" marker, the list itself otherwise.
pub open spec fn real_parents(parents: Seq<Seq<u8>>) -> Seq<Seq<u8>> {
    if parents.len() > 0 && parents[0] == no_parent() {
        Seq::empty()
    } else {
        parents
    }
}

/// A point in history. Its view is a `CommitView`.
#[derive(Debug)]
pub struct Commit {
    hash: Vec<u8>,
    tree: Vec<u8>,
    parents: Vec<Vec<u8>>,
    author: Vec<u8>,
    committer: Vec<u8>,
    message: Vec<u8>,
}

impl View for Commit {
    type V = CommitView;

    closed spec fn view(&self) -> CommitView {
        CommitView {
            tree: self.tree@,
            parents: seqs(self.parents@),
            author: self.author@,
            committer: self.committer@,
            message: self.message@,
        }
    }
}

/// The payload of the commit with the given fields.
fn payload_bytes(
    tree: &[u8],
    parents: &Vec<Vec<u8>>,
    author: &[u8],
    committer: &[u8],
    message: &[u8],
) -> (r: Vec<u8>)
    requires
        parents@.len() <= 2,
    ensures
        r@ == commit_payload(
            CommitView {
                tree: tree@,
                parents: seqs(parents@),
                author: author@,
                committer: committer@,
                message: message@,
            },
        ),
{
    proof {
        reveal_strlit("tree");
        reveal_strlit("parent");
        reveal_strlit("author");
        reveal_strlit("committer");
    }
    let mut out: Vec<u8> = Vec::new();
    push_line(&mut out, bytes_of("tree").as_slice(), tree);
    let ghost head = out@;
    if parents.len() >= 1 {
        push_line(&mut out, bytes_of("parent").as_slice(), parents[0].as_slice());
    }
    if parents.len() >= 2 {
        push_line(&mut out, bytes_of("parent").as_slice(), parents[1].as_slice());
    }
    assert(out@ =~= head + parents_bytes(seqs(parents@)));
    push_line(&mut out, bytes_of("author").as_slice(), author);
    push_line(&mut out, bytes_of("committer").as_slice(), committer);
    out.push(10u8);
    push_all(&mut out, message);
    assert(out@ =~= commit_payload(
        CommitView {
            tree: tree@,
            parents: seqs(parents@),
            author: author@,
            committer: committer@,
            message: message@,
        },
    ));
    out
}

/// Whether the fields make a well-formed commit.
fn fields_ok(tree: &[u8], parents: &Vec<Vec<u8>>, author: &[u8], committer: &[u8]) -> (r: bool)
    ensures
        r == commit_wf(
            CommitView {
                tree: tree@,
                parents: seqs(parents@),
                author: author@,
                committer: committer@,
                message: Seq::empty(),
            },
        ),
{
    if !is_valid_id(tree) || parents.len() > 2 {
        return false;
    }
    let mut i: usize = 0;
    while i < parents.len()
        invariant
            i <= parents@.len(),
            forall|j: int| 0 <= j < i ==> is_object_id(#[trigger] seqs(parents@)[j]),
        decreases parents@.len() - i,
    {
        if !is_valid_id(parents[i].as_slice()) {
            assert(!is_object_id(seqs(parents@)[i as int]));
            return false;
        }
        i = i + 1;
    }
    proof {
        lemma_find_from(author@, 10, 0);
        lemma_find_from(committer@, 10, 0);
    }
    find_byte(author, 10u8, 0) == author.len() && find_byte(committer, 10u8, 0) == committer.len()
}

impl Commit {
    #[verifier::type_invariant]
    spec fn inv(&self) -> bool {
        &&& commit_wf(self@)
        &&& self.hash@ == object_id(ObjectKind::Commit, commit_payload(self@))
        &&& is_object_id(self.hash@)
    }

    /// The commit with the given fields. A list of parents that is empty or
    /// starts with the "no parent" marker stands for no parents. Fails with
    /// `MalformedObject` exactly when the fields are not well-formed.
    pub fn new_from_packfile(
        tree: Vec<u8>,
        parents: Vec<Vec<u8>>,
        author: Vec<u8>,
        committer: Vec<u8>,
        message: Vec<u8>,
    ) -> (r: Result<Commit, GitrError>)
        ensures
            ({
                let c = CommitView {
                    tree: tree@,
                    parents: real_parents(seqs(parents@)),
                    author: author@,
                    committer: committer@,
                    message: message@,
                };
                match r {
                    Ok(commit) => commit_wf(c) && commit@ == c,
                    Err(e) => !commit_wf(c) && e == GitrError::MalformedObject,
                }
            }),
    {
        proof {
            reveal_strlit("None");
        }
        let none = bytes_of("None");
        let parents = if parents.len() > 0 && bytes_eq(parents[0].as_slice(), none.as_slice()) {
            let empty: Vec<Vec<u8>> = Vec::new();
            assert(seqs(empty@) =~= real_parents(seqs(parents@)));
            empty
        } else {
            assert(seqs(parents@) =~= real_parents(seqs(parents@))) by {
                if parents@.len() > 0 {
                    assert(seqs(parents@)[0] == parents@[0]@);
                }
            }
            parents
        };
        if !fields_ok(tree.as_slice(), &parents, author.as_slice(), committer.as_slice()) {
            return Err(GitrError::MalformedObject);
        }
        let payload = payload_bytes(
            tree.as_slice(),
            &parents,
            author.as_slice(),
            committer.as_slice(),
            message.as_slice(),
        );
        let hash = hash_object(ObjectKind::Commit, payload.as_slice());
        Ok(Commit { hash, tree, parents, author, committer, message })
    }

    /// The commit whose payload is `data`; `MalformedObject` when the bytes
    /// are not the payload of a well-formed commit.
    pub fn new_commit_from_string(data: &[u8]) -> (r: Result<Commit, GitrError>)
        ensures
            match r {
                Ok(commit) => parse_commit(data@) == Some(commit@),
                Err(e) => parse_commit(data@) is None && e == GitrError::MalformedObject,
            },
    {
        proof {
            reveal_strlit("tree");
            reveal_strlit("parent");
            reveal_strlit("author");
            reveal_strlit("committer");
        }
        let (tree, at1) = match read_field(data, 0, bytes_of("tree").as_slice()) {
            Some(f) => f,
            None => {
                return Err(GitrError::MalformedObject);
            },
        };
        let mut parents: Vec<Vec<u8>> = Vec::new();
        let mut at2: usize = at1;
        match read_field(data, at1, bytes_of("parent").as_slice()) {
            None => {},
            Some((first, next)) => {
                parents.push(first);
                at2 = next;
                match read_field(data, next, bytes_of("parent").as_slice()) {
                    None => {},
                    Some((second, last)) => {
                        parents.push(second);
                        at2 = last;
                    },
                }
            },
        }
        assert(parse_parents(data@, at1 as int) == (seqs(parents@), at2 as int)) by {
            assert(seqs(parents@) =~= parse_parents(data@, at1 as int).0);
        }
        let (author, at3) = match read_field(data, at2, bytes_of("author").as_slice()) {
            Some(f) => f,
            None => {
                return Err(GitrError::MalformedObject);
            },
        };
        let (committer, at4) = match read_field(data, at3, bytes_of("committer").as_slice()) {
            Some(f) => f,
            None => {
                return Err(GitrError::MalformedObject);
            },
        };
        proof {
            lemma_field_sound(data@, at3 as int, key_committer());
        }
        if at4 >= data.len() || data[at4] != 10u8 {
            return Err(GitrError::MalformedObject);
        }
        let message = copy_range(data, at4 + 1, data.len());
        if !fields_ok(tree.as_slice(), &parents, author.as_slice(), committer.as_slice()) {
            return Err(GitrError::MalformedObject);
        }
        proof {
            lemma_parse_commit_sound(data@);
        }
        let hash = hash_object(ObjectKind::Commit, data);
        Ok(Commit { hash, tree, parents, author, committer, message })
    }

    /// The commit whose canonical form is `data`; `MalformedObject` when the
    /// bytes are not the canonical form of a well-formed commit.
    pub fn new_commit_from_data(data: &[u8]) -> (r: Result<Commit, GitrError>)
        ensures
            match r {
                Ok(commit) => exists|payload: Seq<u8>|
                    parse_canonical(data@) == Some((ObjectKind::Commit, payload)) && parse_commit(
                        payload,
                    ) == Some(commit@),
                Err(e) => e == GitrError::MalformedObject && match parse_canonical(data@) {
                    Some((kind, payload)) => kind != ObjectKind::Commit || parse_commit(payload)
                        is None,
                    None => true,
                },
            },
    {
        match split_canonical(data) {
            Some((ObjectKind::Commit, payload)) => Commit::new_commit_from_string(
                payload.as_slice(),
            ),
            _ => Err(GitrError::MalformedObject),
        }
    }

    /// The id of this commit.
    pub fn get_hash(&self) -> (r: Vec<u8>)
        ensures
            r@ == object_id(ObjectKind::Commit, commit_payload(self@)),
            is_object_id(r@),
    {
        proof {
            use_type_invariant(self);
        }
        self.hash.clone()
    }

    /// The stored form of this commit: its canonical form, compressed;
    /// `CompressionError` when the compressor fails.
    pub fn get_data(&self) -> (r: Result<Vec<u8>, GitrError>)
        ensures
            match r {
                Ok(v) => compresses(canonical(ObjectKind::Commit, commit_payload(self@))) && v@ == zlib_stream(
                    canonical(ObjectKind::Commit, commit_payload(self@)),
                )
                    && is_stream_of(v@, canonical(ObjectKind::Commit, commit_payload(self@))),
                Err(e) => e == GitrError::CompressionError && !compresses(
                    canonical(ObjectKind::Commit, commit_payload(self@)),
                ),
            },
    {
        let payload = self.get_content();
        let bytes = canonical_bytes(ObjectKind::Commit, payload.as_slice());
        flate2compress2(bytes.as_slice())
    }

    /// Saves this commit in `store`, unless its id is held there already.
    /// On `CompressionError` the store is unchanged.
    pub fn save(&self, store: &mut ObjectStore) -> (r: Result<(), GitrError>)
        ensures
            match r {
                Ok(_) => (holds(old(store)@, object_id(ObjectKind::Commit, commit_payload(self@))) || compresses(
                    canonical(ObjectKind::Commit, commit_payload(self@)),
                )) && final(store)@ == written(
                    old(store)@,
                    object_id(ObjectKind::Commit, commit_payload(self@)),
                    zlib_stream(canonical(ObjectKind::Commit, commit_payload(self@))),
                ),
                Err(e) => {
                    &&& e == GitrError::CompressionError
                    &&& final(store)@ == old(store)@
                    &&& !holds(old(store)@, object_id(ObjectKind::Commit, commit_payload(self@)))
                    &&& !compresses(canonical(ObjectKind::Commit, commit_payload(self@)))
                },
            },
    {
        let payload = self.get_content();
        match store.put_payload(ObjectKind::Commit, payload.as_slice()) {
            Ok(_) => Ok(()),
            Err(e) => Err(e),
        }
    }

    /// The payload of this commit.
    pub fn get_content(&self) -> (r: Vec<u8>)
        ensures
            r@ == commit_payload(self@),
            commit_wf(self@),
    {
        proof {
            use_type_invariant(self);
        }
        payload_bytes(
            self.tree.as_slice(),
            &self.parents,
            self.author.as_slice(),
            self.committer.as_slice(),
            self.message.as_slice(),
        )
    }

    /// The id of the tree that this commit records.
    pub fn get_tree(&self) -> (r: Vec<u8>)
        ensures
            r@ == self@.tree,
            is_object_id(r@),
    {
        proof {
            use_type_invariant(self);
        }
        self.tree.clone()
    }

    /// The ids of this commit's parents, in order.
    pub fn get_parent_ids(&self) -> (r: Vec<Vec<u8>>)
        ensures
            seqs(r@) == self@.parents,
            commit_wf(self@),
    {
        proof {
            use_type_invariant(self);
        }
        clone_list(&self.parents)
    }

    /// The author line of this commit.
    pub fn get_author(&self) -> (r: Vec<u8>)
        ensures
            r@ == self@.author,
    {
        self.author.clone()
    }

    /// The committer line of this commit.
    pub fn get_committer(&self) -> (r: Vec<u8>)
        ensures
            r@ == self@.committer,
    {
        self.committer.clone()
    }

    /// The message of this commit.
    pub fn get_message(&self) -> (r: Vec<u8>)
        ensures
            r@ == self@.message,
    {
        self.message.clone()
    }
}

/// The line that tells who did something and when: the name, the mail in
/// angle brackets, the time in seconds since 1970, and the zone.
pub open spec fn identity_line(name: Seq<u8>, mail: Seq<u8>, timestamp: nat) -> Seq<u8> {
    name + seq![32u8, 60u8] + mail + seq![62u8, 32u8] + crate::text::dec_digits(timestamp)
        + ascii(" -0300"@)
}

/// A text without its double quotes.
pub open spec fn unquoted(text: Seq<u8>) -> Seq<u8>
    decreases text.len(),
{
    if text.len() == 0 {
        Seq::empty()
    } else if text.last() == 34 {
        unquoted(text.drop_last())
    } else {
        unquoted(text.drop_last()).push(text.last())
    }
}

/// Executable `identity_line`.
pub fn build_identity(name: &[u8], mail: &[u8], timestamp: usize) -> (r: Vec<u8>)
    ensures
        r@ == identity_line(name@, mail@, timestamp as nat),
{
    proof {
        reveal_strlit(" -0300");
    }
    let mut out: Vec<u8> = Vec::new();
    push_all(&mut out, name);
    out.push(32u8);
    out.push(60u8);
    push_all(&mut out, mail);
    out.push(62u8);
    out.push(32u8);
    push_all(&mut out, crate::text::to_decimal(timestamp).as_slice());
    push_all(&mut out, bytes_of(" -0300").as_slice());
    assert(out@ =~= identity_line(name@, mail@, timestamp as nat));
    out
}

/// Executable `unquoted`.
pub fn without_quotes(text: &[u8]) -> (r: Vec<u8>)
    ensures
        r@ == unquoted(text@),
{
    let mut out: Vec<u8> = Vec::new();
    let mut i: usize = 0;
    proof {
        assert(text@.subrange(0, 0) =~= Seq::<u8>::empty());
    }
    while i < text.len()
        invariant
            i <= text@.len(),
            out@ == unquoted(text@.subrange(0, i as int)),
        decreases text@.len() - i,
    {
        proof {
            let before = text@.subrange(0, i as int);
            let after = text@.subrange(0, i as int + 1);
            assert(after.drop_last() =~= before);
            assert(after.last() == text@[i as int]);
        }
        if text[i] != 34u8 {
            out.push(text[i]);
        }
        i = i + 1;
    }
    assert(text@.subrange(0, text@.len() as int) =~= text@);
    out
}

impl Commit {
    /// The commit that `author` makes and `committer` commits at
    /// `timestamp`, both written to with `mail`, with the message `message`
    /// without its double quotes and with a line feed at its end. Fails with
    /// `MalformedObject` exactly when the fields are not well-formed.
    pub fn new(
        tree: Vec<u8>,
        parents: Vec<Vec<u8>>,
        author: &[u8],
        committer: &[u8],
        message: &[u8],
        mail: &[u8],
        timestamp: usize,
    ) -> (r: Result<Commit, GitrError>)
        ensures
            ({
                let c = CommitView {
                    tree: tree@,
                    parents: real_parents(seqs(parents@)),
                    author: identity_line(author@, mail@, timestamp as nat),
                    committer: identity_line(committer@, mail@, timestamp as nat),
                    message: unquoted(message@) + seq![10u8],
                };
                match r {
                    Ok(commit) => commit_wf(c) && commit@ == c,
                    Err(e) => !commit_wf(c) && e == GitrError::MalformedObject,
                }
            }),
    {
        let mut text = without_quotes(message);
        text.push(10u8);
        assert(text@ =~= unquoted(message@) + seq![10u8]);
        Commit::new_from_packfile(
            tree,
            parents,
            build_identity(author, mail, timestamp),
            build_identity(committer, mail, timestamp),
            text,
        )
    }
}

} // verus!
