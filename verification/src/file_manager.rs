use crate::codec::{
    compresses, decode, flate2compress2, format_time, formatted_time, inflated, zlib_stream,
};
use crate::objects::commit::{no_parent, Commit, CommitView};
use crate::text::seqs;
use crate::gitr_errors::GitrError;
use crate::objects::git_object::{
    canonical, canonical_bytes, decoded, hash_object, object_id, GitObject, GitObjectView,
    ObjectKind,
};
use crate::server::server_utils::{ref_current, ref_index, ref_put, refs_view};
use crate::text::{ascii, bytes_eq, bytes_of, copy_range, push_all};
use vstd::prelude::*;

verus! {

/// One stored object: its id and its stored form.
#[derive(Debug)]
pub struct StoredObject {
    pub id: Vec<u8>,
    pub data: Vec<u8>,
}

/// A content-addressable store, held in memory: stored forms keyed by id, in
/// the order in which they were written.
#[derive(Debug)]
pub struct ObjectStore {
    pub objects: Vec<StoredObject>,
}

/// The stored form under `id` among `entries`, the first if there are several.
pub open spec fn lookup(entries: Seq<(Seq<u8>, Seq<u8>)>, id: Seq<u8>) -> Option<Seq<u8>>
    decreases entries.len(),
{
    if entries.len() == 0 {
        None
    } else if entries[0].0 == id {
        Some(entries[0].1)
    } else {
        lookup(entries.subrange(1, entries.len() as int), id)
    }
}

/// Whether `entries` holds something under `id`.
pub open spec fn holds(entries: Seq<(Seq<u8>, Seq<u8>)>, id: Seq<u8>) -> bool {
    exists|i: int| 0 <= i < entries.len() && #[trigger] entries[i].0 == id
}

/// Write-if-absent: `entries` with `data` added under `id`, unless something
/// is stored under `id` already.
pub open spec fn written(entries: Seq<(Seq<u8>, Seq<u8>)>, id: Seq<u8>, data: Seq<u8>) -> Seq<
    (Seq<u8>, Seq<u8>),
> {
    if holds(entries, id) {
        entries
    } else {
        entries.push((id, data))
    }
}

/// What is found under an id is what `lookup` gives, and there is something
/// exactly when the id is held.
pub proof fn lemma_lookup(entries: Seq<(Seq<u8>, Seq<u8>)>, id: Seq<u8>)
    ensures
        holds(entries, id) <==> lookup(entries, id) is Some,
        lookup(entries, id) matches Some(data) ==> exists|i: int|
            0 <= i < entries.len() && #[trigger] entries[i] == (id, data) && forall|j: int|
                0 <= j < i ==> (#[trigger] entries[j]).0 != id,
    decreases entries.len(),
{
    if entries.len() > 0 {
        let rest = entries.subrange(1, entries.len() as int);
        lemma_lookup(rest, id);
        if entries[0].0 == id {
            assert(entries[0] == (id, entries[0].1));
        } else {
            if holds(entries, id) {
                let i = choose|i: int| 0 <= i < entries.len() && #[trigger] entries[i].0 == id;
                assert(rest[i - 1].0 == id);
            }
            if holds(rest, id) {
                let i = choose|i: int| 0 <= i < rest.len() && #[trigger] rest[i].0 == id;
                assert(entries[i + 1].0 == id);
            }
            match lookup(rest, id) {
                Some(data) => {
                    let i = choose|i: int|
                        0 <= i < rest.len() && #[trigger] rest[i] == (id, data) && forall|j: int|
                            0 <= j < i ==> (#[trigger] rest[j]).0 != id;
                    assert(entries[i + 1] == (id, data));
                    assert forall|j: int| 0 <= j < i + 1 implies (#[trigger] entries[j]).0
                        != id by {
                        if j > 0 {
                            assert(entries[j] == rest[j - 1]);
                        }
                    }
                },
                None => {},
            }
        }
    }
}

/// Looking up in a store with one more entry at the end.
pub proof fn lemma_lookup_push(
    entries: Seq<(Seq<u8>, Seq<u8>)>,
    id: Seq<u8>,
    data: Seq<u8>,
    other: Seq<u8>,
)
    ensures
        lookup(entries.push((id, data)), other) == if lookup(entries, other) is Some {
            lookup(entries, other)
        } else if other == id {
            Some(data)
        } else {
            None
        },
    decreases entries.len(),
{
    let more = entries.push((id, data));
    let e = Seq::<(Seq<u8>, Seq<u8>)>::empty();
    if entries.len() == 0 {
        assert(more.subrange(1, more.len() as int) =~= e);
        assert(more[0] == (id, data));
        assert(lookup(e, other) is None);
        assert(lookup(entries, other) is None);
    } else {
        let rest = entries.subrange(1, entries.len() as int);
        assert(more.subrange(1, more.len() as int) =~= rest.push((id, data)));
        assert(more[0] == entries[0]);
        lemma_lookup_push(rest, id, data, other);
    }
}

/// Idempotence: writing under an id that was just written changes nothing,
/// and what was written first stays.
pub proof fn lemma_write_twice(
    entries: Seq<(Seq<u8>, Seq<u8>)>,
    id: Seq<u8>,
    data: Seq<u8>,
    again: Seq<u8>,
)
    ensures
        written(written(entries, id, data), id, again) == written(entries, id, data),
        holds(written(entries, id, data), id),
        !holds(entries, id) ==> lookup(written(entries, id, data), id) == Some(data),
        holds(entries, id) ==> lookup(written(entries, id, data), id) == lookup(entries, id),
{
    let once = written(entries, id, data);
    if !holds(entries, id) {
        assert(once[entries.len() as int].0 == id);
        lemma_lookup(entries, id);
        lemma_lookup_push(entries, id, data, id);
    }
}

/// Writing under one id leaves what is stored under the others.
pub proof fn lemma_write_other(
    entries: Seq<(Seq<u8>, Seq<u8>)>,
    id: Seq<u8>,
    data: Seq<u8>,
    other: Seq<u8>,
)
    requires
        other != id,
    ensures
        lookup(written(entries, id, data), other) == lookup(entries, other),
{
    if !holds(entries, id) {
        lemma_lookup_push(entries, id, data, other);
    }
}

impl View for ObjectStore {
    type V = Seq<(Seq<u8>, Seq<u8>)>;

    open spec fn view(&self) -> Seq<(Seq<u8>, Seq<u8>)> {
        Seq::new(self.objects@.len(), |i: int| (self.objects@[i].id@, self.objects@[i].data@))
    }
}

impl ObjectStore {
    /// An empty store.
    pub fn new() -> (r: ObjectStore)
        ensures
            r@ == Seq::<(Seq<u8>, Seq<u8>)>::empty(),
    {
        let r = ObjectStore { objects: Vec::new() };
        assert(r@ =~= Seq::<(Seq<u8>, Seq<u8>)>::empty());
        r
    }

    /// Where the first entry under `id` stands.
    pub fn position(&self, id: &[u8]) -> (r: Option<usize>)
        ensures
            match r {
                Some(i) => i < self@.len() && self@[i as int].0 == id@ && lookup(self@, id@)
                    == Some(self@[i as int].1) && forall|j: int|
                    0 <= j < i ==> (#[trigger] self@[j]).0 != id@,
                None => lookup(self@, id@) is None && !holds(self@, id@),
            },
    {
        let mut i: usize = 0;
        proof {
            lemma_lookup(self@, id@);
        }
        while i < self.objects.len()
            invariant
                i <= self.objects@.len(),
                forall|j: int| 0 <= j < i ==> (#[trigger] self@[j]).0 != id@,
            decreases self.objects@.len() - i,
        {
            if bytes_eq(self.objects[i].id.as_slice(), id) {
                proof {
                    lemma_lookup(self@, id@);
                    assert(self@[i as int].0 == id@);
                    let data = lookup(self@, id@).unwrap();
                    let k = choose|k: int|
                        0 <= k < self@.len() && #[trigger] self@[k] == (id@, data) && forall|j: int|
                            0 <= j < k ==> (#[trigger] self@[j]).0 != id@;
                    assert(k == i) by {
                        if k < i {
                            assert(self@[k].0 != id@);
                        }
                        if i < k {
                            assert(self@[i as int].0 != id@);
                        }
                    }
                }
                return Some(i);
            }
            i = i + 1;
        }
        proof {
            assert(!holds(self@, id@)) by {
                if holds(self@, id@) {
                    let k = choose|k: int| 0 <= k < self@.len() && #[trigger] self@[k].0 == id@;
                    assert(self@[k].0 != id@);
                }
            }
        }
        None
    }

    /// Whether something is stored under `id`.
    pub fn contains(&self, id: &[u8]) -> (r: bool)
        ensures
            r == holds(self@, id@),
    {
        match self.position(id) {
            Some(i) => {
                assert(self@[i as int].0 == id@);
                true
            },
            None => false,
        }
    }

    /// Stores `data` under `hashed_name` unless something is stored under it
    /// already.
    pub fn write_object(&mut self, data: Vec<u8>, hashed_name: Vec<u8>)
        ensures
            final(self)@ == written(old(self)@, hashed_name@, data@),
    {
        if !self.contains(hashed_name.as_slice()) {
            self.objects.push(StoredObject { id: hashed_name, data });
            assert(self@ =~= old(self)@.push((hashed_name@, data@)));
        }
    }

    /// Puts the object of kind `kind` with payload `payload` in the store:
    /// compresses its canonical form and writes it unless its id is held
    /// already. Returns the id. On `CompressionError` the store is unchanged.
    pub fn put_payload(&mut self, kind: ObjectKind, payload: &[u8]) -> (r: Result<
        Vec<u8>,
        GitrError,
    >)
        ensures
            match r {
                Ok(id) => {
                    &&& id@ == object_id(kind, payload@)
                    &&& holds(old(self)@, id@) || compresses(canonical(kind, payload@))
                    &&& final(self)@ == written(
                        old(self)@,
                        object_id(kind, payload@),
                        zlib_stream(canonical(kind, payload@)),
                    )
                    &&& !holds(old(self)@, id@) ==> lookup(final(self)@, id@) == Some(
                        zlib_stream(canonical(kind, payload@)),
                    ) && inflated(zlib_stream(canonical(kind, payload@))) == Ok::<
                        Seq<u8>,
                        GitrError,
                    >(canonical(kind, payload@))
                },
                Err(e) => {
                    &&& e == GitrError::CompressionError
                    &&& final(self)@ == old(self)@
                    &&& !holds(old(self)@, object_id(kind, payload@))
                    &&& !compresses(canonical(kind, payload@))
                },
            },
    {
        let id = hash_object(kind, payload);
        if self.contains(id.as_slice()) {
            return Ok(id);
        }
        let bytes = canonical_bytes(kind, payload);
        match flate2compress2(bytes.as_slice()) {
            Ok(data) => {
                proof {
                    lemma_write_twice(self@, id@, data@, data@);
                    assert(data@ + Seq::<u8>::empty() =~= data@);
                }
                self.write_object(data, copy_range(id.as_slice(), 0, id.len()));
                assert(id@.subrange(0, id@.len() as int) =~= id@);
                Ok(id)
            },
            Err(e) => Err(e),
        }
    }

    /// Puts an object in the store: encodes it and writes it unless its id
    /// is held already. Returns the id. On `CompressionError` the store is
    /// unchanged.
    pub fn put(&mut self, object: &GitObject) -> (r: Result<Vec<u8>, GitrError>)
        ensures
            match r {
                Ok(id) => {
                    &&& id@ == object@.id()
                    &&& holds(old(self)@, id@) || compresses(object@.canonical())
                    &&& final(self)@ == written(
                        old(self)@,
                        object@.id(),
                        zlib_stream(object@.canonical()),
                    )
                    &&& !holds(old(self)@, object@.id()) ==> stored_object(
                        final(self)@,
                        object@.id(),
                    ) == Ok::<GitObjectView, GitrError>(object@)
                },
                Err(e) => {
                    &&& e == GitrError::CompressionError
                    &&& final(self)@ == old(self)@
                    &&& !holds(old(self)@, object@.id())
                    &&& !compresses(object@.canonical())
                },
            },
    {
        let payload = object.get_content();
        let r = self.put_payload(object.get_kind(), payload.as_slice());
        proof {
            crate::objects::git_object::lemma_parse_object_canonical(object@);
        }
        r
    }

    /// The stored form under `id`, decompressed; `ObjectNotFound` when
    /// nothing is stored under `id`.
    pub fn get_object_bytes(&self, id: &[u8]) -> (r: Result<Vec<u8>, GitrError>)
        ensures
            match r {
                Ok(v) => lookup(self@, id@) matches Some(data) && inflated(data) == Ok::<
                    Seq<u8>,
                    GitrError,
                >(v@),
                Err(e) => match lookup(self@, id@) {
                    None => e == GitrError::ObjectNotFound,
                    Some(data) => inflated(data) == Err::<Seq<u8>, GitrError>(e),
                },
            },
    {
        match self.position(id) {
            None => Err(GitrError::ObjectNotFound),
            Some(i) => decode(self.objects[i].data.as_slice()),
        }
    }

    /// Gets the object stored under `id`: `ObjectNotFound` when there is
    /// none, and otherwise what decoding makes of the stored form.
    pub fn get(&self, id: &[u8]) -> (r: Result<GitObject, GitrError>)
        ensures
            match r {
                Ok(obj) => stored_object(self@, id@) == Ok::<GitObjectView, GitrError>(obj@),
                Err(e) => stored_object(self@, id@) == Err::<GitObjectView, GitrError>(e),
            },
    {
        match self.position(id) {
            None => Err(GitrError::ObjectNotFound),
            Some(i) => GitObject::decode(self.objects[i].data.as_slice()),
        }
    }

    /// The ids of everything in the store, in the order of writing.
    pub fn get_all_objects_hashes(&self) -> (r: Vec<Vec<u8>>)
        ensures
            r@.len() == self@.len(),
            forall|i: int| 0 <= i < r@.len() ==> (#[trigger] r@[i])@ == self@[i].0,
    {
        let mut out: Vec<Vec<u8>> = Vec::new();
        let mut i: usize = 0;
        while i < self.objects.len()
            invariant
                i <= self.objects@.len(),
                out@.len() == i,
                forall|j: int| 0 <= j < i ==> (#[trigger] out@[j])@ == self@[j].0,
            decreases self.objects@.len() - i,
        {
            out.push(self.objects[i].id.clone());
            i = i + 1;
        }
        out
    }
}

/// The object stored under `id`: `ObjectNotFound` when nothing is stored
/// under it, and otherwise what decoding makes of the stored form.
pub open spec fn stored_object(entries: Seq<(Seq<u8>, Seq<u8>)>, id: Seq<u8>) -> Result<
    GitObjectView,
    GitrError,
> {
    match lookup(entries, id) {
        None => Err(GitrError::ObjectNotFound),
        Some(data) => decoded(data),
    }
}

/// The path of the file that holds the object with the given id: below
/// `path`, and below `gitr` inside it when `add_gitr` is set and `path` does
/// not start with `server`, the directory `objects`, a directory named by the
/// first two characters of the id, and a file named by the rest.
pub open spec fn object_path(object: Seq<u8>, path: Seq<u8>, add_gitr: bool) -> Seq<u8> {
    path + (if add_gitr && !crate::text::has_prefix(path, ascii("server"@)) {
        ascii("/gitr"@)
    } else {
        Seq::empty()
    }) + ascii("/objects/"@) + object.subrange(0, 2) + seq![47u8] + object.subrange(
        2,
        object.len() as int,
    )
}

/// Where the object with the given id is kept on disk; `ObjectNotFound` for
/// an id shorter than three characters.
pub fn parse_object_hash(object: &[u8], path: &[u8], add_gitr: bool) -> (r: Result<
    Vec<u8>,
    GitrError,
>)
    ensures
        match r {
            Ok(p) => object@.len() >= 3 && p@ == object_path(object@, path@, add_gitr),
            Err(e) => object@.len() < 3 && e == GitrError::ObjectNotFound,
        },
{
    if object.len() < 3 {
        return Err(GitrError::ObjectNotFound);
    }
    proof {
        reveal_strlit("server");
        reveal_strlit("/gitr");
        reveal_strlit("/objects/");
    }
    let mut out = copy_range(path, 0, path.len());
    assert(out@ =~= path@);
    if add_gitr && !crate::text::starts_with(path, bytes_of("server").as_slice()) {
        push_all(&mut out, bytes_of("/gitr").as_slice());
    }
    push_all(&mut out, bytes_of("/objects/").as_slice());
    crate::text::push_range(&mut out, object, 0, 2);
    out.push(47u8);
    crate::text::push_range(&mut out, object, 2, object.len());
    assert(out@ =~= object_path(object@, path@, add_gitr));
    Ok(out)
}

/// A repository, held in memory: its objects, its references (pairs of id
/// and full name, such as `refs/heads/master`), the name of the reference
/// that `HEAD` points at, the text of its index, and its remote.
#[derive(Debug)]
pub struct Repository {
    pub name: Vec<u8>,
    pub objects: ObjectStore,
    pub refs: Vec<(Vec<u8>, Vec<u8>)>,
    pub head: Vec<u8>,
    pub index: Vec<u8>,
    pub remote: Vec<u8>,
}

/// The reference that `HEAD` points at in a new repository.
pub open spec fn default_head() -> Seq<u8> {
    ascii("refs/heads/master"@)
}

/// The prefix of the full name of a branch.
pub open spec fn heads_prefix() -> Seq<u8> {
    ascii("refs/heads/"@)
}

/// A new repository named `name`: no objects, no references, `HEAD`
/// pointing at the branch `master`, an empty index and no remote.
pub fn init_repository(name: &[u8]) -> (r: Result<Repository, GitrError>)
    ensures
        r matches Ok(repo) && repo.name@ == name@ && repo.objects@.len() == 0 && repo.refs@.len()
            == 0 && repo.head@ == default_head() && repo.index@.len() == 0 && repo.remote@.len()
            == 0,
{
    proof {
        reveal_strlit("refs/heads/master");
    }
    let repo_name = copy_range(name, 0, name.len());
    assert(repo_name@ =~= name@);
    Ok(
        Repository {
            name: repo_name,
            objects: ObjectStore::new(),
            refs: Vec::new(),
            head: bytes_of("refs/heads/master"),
            index: Vec::new(),
            remote: Vec::new(),
        },
    )
}

/// The path of the repository in use: `cliente` itself when it holds a
/// slash, and otherwise `cliente`, a slash, and the name of the repository
/// in use, `current_repo`.
pub fn get_current_repo(cliente: &[u8], current_repo: &[u8]) -> (r: Result<Vec<u8>, GitrError>)
    ensures
        r matches Ok(path) && path@ == if crate::text::find_from(cliente@, 47, 0) < cliente@.len() {
            cliente@
        } else {
            cliente@ + seq![47u8] + current_repo@
        },
{
    let mut out = copy_range(cliente, 0, cliente.len());
    assert(out@ =~= cliente@);
    if crate::text::find_byte(cliente, 47u8, 0) < cliente.len() {
        return Ok(out);
    }
    out.push(47u8);
    push_all(&mut out, current_repo);
    assert(out@ =~= cliente@ + seq![47u8] + current_repo@);
    Ok(out)
}

/// The remote of the repository.
pub fn get_remote(repo: &Repository) -> (r: Result<Vec<u8>, GitrError>)
    ensures
        r matches Ok(remote) && remote@ == repo.remote@,
{
    Ok(repo.remote.clone())
}

/// The text of the index of the repository.
pub fn read_index(repo: &Repository) -> (r: Result<Vec<u8>, GitrError>)
    ensures
        r matches Ok(index) && index@ == repo.index@,
{
    Ok(repo.index.clone())
}

/// The name of the reference that `HEAD` points at.
pub fn get_head(repo: &Repository) -> (r: Result<Vec<u8>, GitrError>)
    ensures
        r matches Ok(head) && head@ == repo.head@,
{
    Ok(repo.head.clone())
}

/// Makes `HEAD` point at the reference named `head`.
pub fn update_head(head: &[u8], repo: &mut Repository) -> (r: Result<(), GitrError>)
    ensures
        r is Ok,
        final(repo).head@ == head@,
        final(repo).refs@ == old(repo).refs@,
        final(repo).objects@ == old(repo).objects@,
        final(repo).index@ == old(repo).index@,
        final(repo).remote@ == old(repo).remote@,
        final(repo).name@ == old(repo).name@,
{
    let new_head = copy_range(head, 0, head.len());
    assert(new_head@ =~= head@);
    repo.head = new_head;
    Ok(())
}

/// The references of the repository as byte strings.
pub open spec fn repo_refs(repo: Repository) -> Seq<(Seq<u8>, Seq<u8>)> {
    refs_view(repo.refs@)
}

/// Those of the first `n` of the references `after` that `before` does not
/// hold with the same id: the references to write when `before` is what
/// is kept and `after` what is to be kept.
pub open spec fn refs_to_write(
    before: Seq<(Seq<u8>, Seq<u8>)>,
    after: Seq<(Seq<u8>, Seq<u8>)>,
    n: int,
) -> Seq<(Seq<u8>, Seq<u8>)>
    decreases n,
{
    if n <= 0 {
        Seq::empty()
    } else if ref_current(before, after[n - 1].1) == Some(after[n - 1].0) {
        refs_to_write(before, after, n - 1)
    } else {
        refs_to_write(before, after, n - 1).push(after[n - 1])
    }
}

/// The names of those of the first `n` of the references `before` that
/// `after` does not hold: the references to remove.
pub open spec fn refs_to_remove(
    before: Seq<(Seq<u8>, Seq<u8>)>,
    after: Seq<(Seq<u8>, Seq<u8>)>,
    n: int,
) -> Seq<Seq<u8>>
    decreases n,
{
    if n <= 0 {
        Seq::empty()
    } else if ref_current(after, before[n - 1].1) is Some {
        refs_to_remove(before, after, n - 1)
    } else {
        refs_to_remove(before, after, n - 1).push(before[n - 1].1)
    }
}

/// What has to be done to the references that are kept, `before`, to make
/// them `after`: the references to write, each with its id, and the names
/// of those to remove. What did not change is in neither.
pub fn ref_changes(before: &Vec<(Vec<u8>, Vec<u8>)>, after: &Vec<(Vec<u8>, Vec<u8>)>) -> (r: (
    Vec<(Vec<u8>, Vec<u8>)>,
    Vec<Vec<u8>>,
))
    ensures
        refs_view(r.0@) == refs_to_write(refs_view(before@), refs_view(after@), after@.len() as int),
        seqs(r.1@) == refs_to_remove(refs_view(before@), refs_view(after@), before@.len() as int),
{
    let ghost bv = refs_view(before@);
    let ghost av = refs_view(after@);
    let mut to_write: Vec<(Vec<u8>, Vec<u8>)> = Vec::new();
    let mut i: usize = 0;
    assert(refs_view(to_write@) =~= refs_to_write(bv, av, 0));
    while i < after.len()
        invariant
            i <= after@.len(),
            bv == refs_view(before@),
            av == refs_view(after@),
            refs_view(to_write@) == refs_to_write(bv, av, i as int),
        decreases after@.len() - i,
    {
        let ghost had = refs_view(to_write@);
        assert(av[i as int] == (after@[i as int].0@, after@[i as int].1@));
        let same = match ref_lookup(before, after[i].1.as_slice()) {
            Some(id) => bytes_eq(id.as_slice(), after[i].0.as_slice()),
            None => false,
        };
        if !same {
            to_write.push((after[i].0.clone(), after[i].1.clone()));
            assert(refs_view(to_write@) =~= had.push(av[i as int]));
        }
        i = i + 1;
    }
    let mut to_remove: Vec<Vec<u8>> = Vec::new();
    let mut k: usize = 0;
    assert(seqs(to_remove@) =~= refs_to_remove(bv, av, 0));
    while k < before.len()
        invariant
            k <= before@.len(),
            bv == refs_view(before@),
            av == refs_view(after@),
            seqs(to_remove@) == refs_to_remove(bv, av, k as int),
        decreases before@.len() - k,
    {
        let ghost had = seqs(to_remove@);
        assert(bv[k as int] == (before@[k as int].0@, before@[k as int].1@));
        if ref_lookup(after, before[k].1.as_slice()).is_none() {
            to_remove.push(before[k].1.clone());
            assert(seqs(to_remove@) =~= had.push(bv[k as int].1));
        }
        k = k + 1;
    }
    (to_write, to_remove)
}

/// The id of the first of `refs` named `name`.
pub(crate) fn ref_lookup(refs: &Vec<(Vec<u8>, Vec<u8>)>, name: &[u8]) -> (r: Option<Vec<u8>>)
    ensures
        match r {
            Some(id) => ref_current(refs_view(refs@), name@) == Some(id@),
            None => ref_current(refs_view(refs@), name@) is None,
        },
{
    let mut i: usize = 0;
    while i < refs.len()
        invariant
            i <= refs@.len(),
            ref_index(refs_view(refs@), name@, 0) == ref_index(refs_view(refs@), name@, i as int),
        decreases refs@.len() - i,
    {
        if bytes_eq(refs[i].1.as_slice(), name) {
            assert(refs_view(refs@)[i as int].0 == refs@[i as int].0@);
            return Some(refs[i].0.clone());
        }
        i = i + 1;
    }
    None
}

/// The id of the commit that `HEAD` resolves to. `NoHead` when `HEAD`
/// points at `None`; `FileReadError` when it points at a reference that is
/// not there.
pub fn get_current_commit(repo: &Repository) -> (r: Result<Vec<u8>, GitrError>)
    ensures
        match r {
            Ok(id) => repo.head@ != ascii("None"@) && ref_current(repo_refs(*repo), repo.head@)
                == Some(id@),
            Err(e) => if repo.head@ == ascii("None"@) {
                e == GitrError::NoHead
            } else {
                e == GitrError::FileReadError && ref_current(repo_refs(*repo), repo.head@)
                    is None
            },
        },
{
    proof {
        reveal_strlit("None");
    }
    if bytes_eq(repo.head.as_slice(), bytes_of("None").as_slice()) {
        return Err(GitrError::NoHead);
    }
    match ref_lookup(&repo.refs, repo.head.as_slice()) {
        Some(id) => Ok(id),
        None => Err(GitrError::FileReadError),
    }
}

/// The id of the commit that the branch `branch` points at;
/// `FileReadError` when there is no such branch.
pub fn get_commit(branch: &[u8], repo: &Repository) -> (r: Result<Vec<u8>, GitrError>)
    ensures
        match r {
            Ok(id) => ref_current(repo_refs(*repo), heads_prefix() + branch@) == Some(id@),
            Err(e) => e == GitrError::FileReadError && ref_current(
                repo_refs(*repo),
                heads_prefix() + branch@,
            ) is None,
        },
{
    proof {
        reveal_strlit("refs/heads/");
    }
    let mut full = bytes_of("refs/heads/");
    push_all(&mut full, branch);
    match ref_lookup(&repo.refs, full.as_slice()) {
        Some(id) => Ok(id),
        None => Err(GitrError::FileReadError),
    }
}

/// A name with each backslash turned into a slash.
pub open spec fn slashed(name: Seq<u8>) -> Seq<u8> {
    Seq::new(name.len(), |i: int| if name[i] == 92 {
        47u8
    } else {
        name[i]
    })
}

/// Executable `slashed`.
fn with_slashes(name: &[u8]) -> (r: Vec<u8>)
    ensures
        r@ == slashed(name@),
{
    let mut out: Vec<u8> = Vec::new();
    let mut i: usize = 0;
    while i < name.len()
        invariant
            i <= name@.len(),
            out@.len() == i,
            forall|k: int| 0 <= k < i ==> out@[k] == slashed(name@)[k],
        decreases name@.len() - i,
    {
        out.push(if name[i] == 92u8 {
            47u8
        } else {
            name[i]
        });
        i = i + 1;
    }
    assert(out@ =~= slashed(name@));
    out
}

/// Where the first of `refs` with id `hash` and a name other than `HEAD`
/// stands, from `from` on, or their number when there is none.
pub open spec fn new_path_index(refs: Seq<(Seq<u8>, Seq<u8>)>, hash: Seq<u8>, from: int) -> int
    decreases refs.len() - from,
{
    if from < 0 || from >= refs.len() {
        refs.len() as int
    } else if refs[from].0 == hash && refs[from].1 != ascii("HEAD"@) {
        from
    } else {
        new_path_index(refs, hash, from + 1)
    }
}

/// The place that `new_path_index` gives lies between `from` and the end.
pub proof fn lemma_new_path_index(refs: Seq<(Seq<u8>, Seq<u8>)>, hash: Seq<u8>, from: int)
    requires
        0 <= from <= refs.len(),
    ensures
        from <= new_path_index(refs, hash, from) <= refs.len(),
    decreases refs.len() - from,
{
    if from < refs.len() && !(refs[from].0 == hash && refs[from].1 != ascii("HEAD"@)) {
        lemma_new_path_index(refs, hash, from + 1);
    }
}

/// The name of the first reference, other than `HEAD`, that points at
/// `hash`; empty when there is none.
pub fn find_new_path(hash: &[u8], sec_vec: &Vec<(Vec<u8>, Vec<u8>)>) -> (r: Vec<u8>)
    ensures
        ({
            let p = new_path_index(refs_view(sec_vec@), hash@, 0);
            r@ == if p < sec_vec@.len() {
                sec_vec@[p]. 1@
            } else {
                Seq::<u8>::empty()
            }
        }),
{
    let mut i: usize = 0;
    while i < sec_vec.len()
        invariant
            i <= sec_vec@.len(),
            new_path_index(refs_view(sec_vec@), hash@, 0) == new_path_index(
                refs_view(sec_vec@),
                hash@,
                i as int,
            ),
        decreases sec_vec@.len() - i,
    {
        proof {
            reveal_strlit("HEAD");
        }
        if bytes_eq(sec_vec[i].0.as_slice(), hash) && !bytes_eq(
            sec_vec[i].1.as_slice(),
            bytes_of("HEAD").as_slice(),
        ) {
            return sec_vec[i].1.clone();
        }
        i = i + 1;
    }
    Vec::new()
}

/// What taking over the advertised references from the `i`-th on makes of
/// head and references: an entry named `HEAD` makes `HEAD` point at the
/// first other advertised reference with the same id (at nothing when there
/// is none); any other entry makes the reference of its name point at its
/// id. Backslashes in names count as slashes.
pub open spec fn taken_over(
    advertised: Seq<(Seq<u8>, Seq<u8>)>,
    i: int,
    head: Seq<u8>,
    refs: Seq<(Seq<u8>, Seq<u8>)>,
) -> (Seq<u8>, Seq<(Seq<u8>, Seq<u8>)>)
    decreases advertised.len() - i,
{
    if i < 0 || i >= advertised.len() {
        (head, refs)
    } else if advertised[i].1 == ascii("HEAD"@) {
        let p = new_path_index(advertised, advertised[i].0, 0);
        taken_over(
            advertised,
            i + 1,
            if p < advertised.len() {
                slashed(advertised[p].1)
            } else {
                Seq::empty()
            },
            refs,
        )
    } else {
        taken_over(
            advertised,
            i + 1,
            head,
            ref_put(refs, slashed(advertised[i].1), advertised[i].0),
        )
    }
}

/// Takes over the references that the other side advertised.
pub fn update_client_refs(hash_n_refs: Vec<(Vec<u8>, Vec<u8>)>, repo: &mut Repository) -> (r: Result<
    (),
    GitrError,
>)
    ensures
        r is Ok,
        (final(repo).head@, refs_view(final(repo).refs@)) == taken_over(
            refs_view(hash_n_refs@),
            0,
            old(repo).head@,
            refs_view(old(repo).refs@),
        ),
        final(repo).objects@ == old(repo).objects@,
{
    let ghost adv = refs_view(hash_n_refs@);
    let mut i: usize = 0;
    while i < hash_n_refs.len()
        invariant
            i <= hash_n_refs@.len(),
            adv == refs_view(hash_n_refs@),
            repo.objects@ == old(repo).objects@,
            taken_over(adv, 0, old(repo).head@, refs_view(old(repo).refs@)) == taken_over(
                adv,
                i as int,
                repo.head@,
                refs_view(repo.refs@),
            ),
        decreases hash_n_refs@.len() - i,
    {
        proof {
            reveal_strlit("HEAD");
        }
        assert(adv[i as int] == (hash_n_refs@[i as int].0@, hash_n_refs@[i as int].1@));
        if bytes_eq(hash_n_refs[i].1.as_slice(), bytes_of("HEAD").as_slice()) {
            let path = find_new_path(hash_n_refs[i].0.as_slice(), &hash_n_refs);
            let ghost p = new_path_index(adv, adv[i as int].0, 0);
            proof {
                lemma_new_path_index(adv, adv[i as int].0, 0);
                if p < adv.len() {
                    assert(adv[p].1 == hash_n_refs@[p].1@);
                } else {
                    assert(slashed(Seq::<u8>::empty()) =~= Seq::<u8>::empty());
                }
            }
            repo.head = with_slashes(path.as_slice());
        } else {
            let name = with_slashes(hash_n_refs[i].1.as_slice());
            crate::server::server_utils::write_ref(
                &mut repo.refs,
                name.as_slice(),
                hash_n_refs[i].0.as_slice(),
            );
        }
        i = i + 1;
    }
    Ok(())
}

/// The readable form of the entries of a tree that stand in `data` from
/// `pos` on: the bytes as they are up to the NUL that ends a name, the 20
/// bytes after it as 40 hex digits, and a line feed before what follows
/// them. `taken` tells how many of the 20 bytes were read already, when
/// `in_id` says that an id is being read.
pub open spec fn readable_from(data: Seq<u8>, pos: int, in_id: bool, taken: int) -> Seq<u8>
    decreases data.len() - pos,
{
    if pos < 0 || pos >= data.len() {
        Seq::empty()
    } else {
        let lead = if taken == 20 {
            seq![10u8]
        } else {
            Seq::empty()
        };
        let in_id = in_id && taken != 20;
        let taken = if taken == 20 {
            0
        } else {
            taken
        };
        if data[pos] == 0 && !in_id {
            lead + seq![0u8] + readable_from(data, pos + 1, true, taken)
        } else if in_id {
            lead + crate::text::hex_encode(seq![data[pos]]) + readable_from(
                data,
                pos + 1,
                true,
                taken + 1,
            )
        } else {
            lead + seq![data[pos]] + readable_from(data, pos + 1, false, taken)
        }
    }
}

/// The readable form of the entries of a tree that stand in `data` from
/// `data_starting_index` on.
pub fn get_entries_buffer_for_readtree(data: &[u8], data_starting_index: usize) -> (r: Vec<u8>)
    ensures
        r@ == readable_from(data@, data_starting_index as int, false, 0),
{
    let mut entries_buffer: Vec<u8> = Vec::new();
    let mut convert_to_hexa = false;
    let mut hexa_iters: usize = 0;
    if data_starting_index >= data.len() {
        return entries_buffer;
    }
    let mut pos: usize = data_starting_index;
    proof {
        assert(entries_buffer@ + readable_from(data@, pos as int, false, 0) =~= readable_from(
            data@,
            pos as int,
            false,
            0,
        ));
    }
    while pos < data.len()
        invariant
            data_starting_index <= pos <= data@.len(),
            hexa_iters <= 20,
            entries_buffer@ + readable_from(
                data@,
                pos as int,
                convert_to_hexa,
                hexa_iters as int,
            ) == readable_from(data@, data_starting_index as int, false, 0),
        decreases data@.len() - pos,
    {
        let ghost before = entries_buffer@;
        let ghost rest = readable_from(data@, pos as int, convert_to_hexa, hexa_iters as int);
        if hexa_iters == 20 {
            convert_to_hexa = false;
            hexa_iters = 0;
            entries_buffer.push(10u8);
        }
        let byte: u8 = data[pos];
        if byte == 0 && !convert_to_hexa {
            entries_buffer.push(0u8);
            convert_to_hexa = true;
        } else if convert_to_hexa {
            hexa_iters = hexa_iters + 1;
            let mut one: Vec<u8> = Vec::new();
            one.push(byte);
            let hex = crate::text::to_hex(one.as_slice());
            assert(one@ =~= seq![byte]);
            push_all(&mut entries_buffer, hex.as_slice());
        } else {
            entries_buffer.push(byte);
        }
        proof {
            assert(entries_buffer@ + readable_from(
                data@,
                pos + 1,
                convert_to_hexa,
                hexa_iters as int,
            ) =~= before + rest);
        }
        pos = pos + 1;
    }
    proof {
        assert(entries_buffer@ + Seq::<u8>::empty() =~= entries_buffer@);
    }
    entries_buffer
}

/// The readable form of the canonical form of a tree: the header, a NUL,
/// and the readable form of the entries.
pub open spec fn readable_tree(data: Seq<u8>) -> Seq<u8> {
    let nul = crate::text::find_from(data, 0, 0);
    data.subrange(0, nul) + seq![0u8] + readable_from(data, nul + 1, false, 0)
}

/// Makes the canonical form of a tree readable: the ids of its entries in
/// hex, one entry to a line.
pub fn read_tree_file(data: Vec<u8>) -> (r: Result<Vec<u8>, GitrError>)
    ensures
        r matches Ok(text) && text@ == readable_tree(data@),
{
    let nul = crate::text::find_byte(data.as_slice(), 0u8, 0);
    let mut out = copy_range(data.as_slice(), 0, nul);
    out.push(0u8);
    let entries = if nul < data.len() {
        get_entries_buffer_for_readtree(data.as_slice(), nul + 1)
    } else {
        Vec::new()
    };
    push_all(&mut out, entries.as_slice());
    assert(out@ =~= readable_tree(data@));
    Ok(out)
}

/// The readable form of the object whose canonical form is `bytes`: for a
/// tree what `readable_tree` gives, for anything else the bytes themselves;
/// `MalformedObject` when the bytes are no canonical form.
pub open spec fn readable_object(bytes: Seq<u8>) -> Result<Seq<u8>, GitrError> {
    match crate::objects::git_object::parse_canonical(bytes) {
        None => Err(GitrError::MalformedObject),
        Some((ObjectKind::Tree, payload)) => Ok(readable_tree(bytes)),
        Some(_) => Ok(bytes),
    }
}

/// Reads the object stored under `object` in readable form.
pub fn read_object(object: &[u8], store: &ObjectStore) -> (r: Result<Vec<u8>, GitrError>)
    ensures
        match r {
            Ok(text) => lookup(store@, object@) matches Some(data) && inflated(data) matches Ok(
                bytes,
            ) && readable_object(bytes) == Ok::<Seq<u8>, GitrError>(text@),
            Err(e) => match lookup(store@, object@) {
                None => e == GitrError::ObjectNotFound,
                Some(data) => match inflated(data) {
                    Err(err) => e == err,
                    Ok(bytes) => readable_object(bytes) == Err::<Seq<u8>, GitrError>(e),
                },
            },
        },
{
    let bytes = match store.get_object_bytes(object) {
        Ok(bytes) => bytes,
        Err(e) => {
            return Err(e);
        },
    };
    match crate::objects::git_object::split_canonical(bytes.as_slice()) {
        None => Err(GitrError::MalformedObject),
        Some((ObjectKind::Tree, _)) => read_tree_file(bytes),
        Some(_) => Ok(bytes),
    }
}

/// The commit stored under `id`: what is stored there, decoded, when it is
/// a commit; `MalformedObject` when it is something else.
pub open spec fn stored_commit(store: Seq<(Seq<u8>, Seq<u8>)>, id: Seq<u8>) -> Result<
    CommitView,
    GitrError,
> {
    match stored_object(store, id) {
        Err(e) => Err(e),
        Ok(GitObjectView::Commit(c)) => Ok(c),
        Ok(_) => Err(GitrError::MalformedObject),
    }
}

/// A commit that is read from the store is well-formed.
pub proof fn lemma_stored_commit_wf(store: Seq<(Seq<u8>, Seq<u8>)>, id: Seq<u8>)
    requires
        stored_commit(store, id) is Ok,
    ensures
        crate::objects::commit::commit_wf(stored_commit(store, id).unwrap()),
{
    let data = lookup(store, id).unwrap();
    let bytes = inflated(data).unwrap();
    let (kind, payload) = crate::objects::git_object::parse_canonical(bytes).unwrap();
    crate::objects::git_object::lemma_parse_payload_sound(kind, payload);
}

/// Gets the commit stored under `id`.
pub fn load_commit(id: &[u8], store: &ObjectStore) -> (r: Result<Commit, GitrError>)
    ensures
        match r {
            Ok(c) => stored_commit(store@, id@) == Ok::<CommitView, GitrError>(c@),
            Err(e) => stored_commit(store@, id@) == Err::<CommitView, GitrError>(e),
        },
{
    match store.get(id) {
        Err(e) => Err(e),
        Ok(GitObject::Commit(c)) => Ok(c),
        Ok(_) => Err(GitrError::MalformedObject),
    }
}

/// The id of the tree of the commit stored under `commit`.
pub fn get_main_tree(commit: &[u8], store: &ObjectStore) -> (r: Result<Vec<u8>, GitrError>)
    ensures
        match r {
            Ok(tree) => stored_commit(store@, commit@) matches Ok(c) && tree@ == c.tree,
            Err(e) => stored_commit(store@, commit@) == Err::<CommitView, GitrError>(e),
        },
{
    match load_commit(commit, store) {
        Ok(c) => Ok(c.get_tree()),
        Err(e) => Err(e),
    }
}

/// The parents as a list that is never empty: the "no parent" marker alone
/// where there are none.
pub open spec fn parents_or_none(parents: Seq<Seq<u8>>) -> Seq<Seq<u8>> {
    if parents.len() == 0 {
        seq![no_parent()]
    } else {
        parents
    }
}

/// The ids of the parents of the commit stored under `commit`; the "no
/// parent" marker alone when it has none.
pub fn get_parent_commit(commit: &[u8], store: &ObjectStore) -> (r: Result<
    Vec<Vec<u8>>,
    GitrError,
>)
    ensures
        match r {
            Ok(parents) => stored_commit(store@, commit@) matches Ok(c) && seqs(parents@)
                == parents_or_none(c.parents) && parents@.len() >= 1,
            Err(e) => stored_commit(store@, commit@) == Err::<CommitView, GitrError>(e),
        },
{
    match load_commit(commit, store) {
        Ok(c) => {
            let mut parents = c.get_parent_ids();
            if parents.len() == 0 {
                proof {
                    reveal_strlit("None");
                }
                parents.push(bytes_of("None"));
                assert(seqs(parents@) =~= seq![no_parent()]);
            }
            Ok(parents)
        },
        Err(e) => Err(e),
    }
}

/// The `n`-th word of a line, words being what stands between spaces;
/// `MalformedObject` when the line has no such word.
pub open spec fn word_of(line: Seq<u8>, n: int) -> Result<Seq<u8>, GitrError> {
    let words = crate::text::split_on(line, 32);
    if 0 <= n < words.len() {
        Ok(words[n])
    } else {
        Err(GitrError::MalformedObject)
    }
}

/// Executable `word_of`.
fn nth_word(line: &[u8], n: usize) -> (r: Result<Vec<u8>, GitrError>)
    ensures
        match r {
            Ok(w) => word_of(line@, n as int) == Ok::<Seq<u8>, GitrError>(w@),
            Err(e) => word_of(line@, n as int) == Err::<Seq<u8>, GitrError>(e),
        },
{
    let words = crate::text::split(line, 32u8);
    if n < words.len() {
        assert(seqs(words@)[n as int] == words@[n as int]@);
        Ok(words[n].clone())
    } else {
        Err(GitrError::MalformedObject)
    }
}

/// A field of the commit stored under `commit`: the word `n` of its author
/// line (`of_author`) or of its committer line.
pub open spec fn commit_word(
    store: Seq<(Seq<u8>, Seq<u8>)>,
    commit: Seq<u8>,
    of_author: bool,
    n: int,
) -> Result<Seq<u8>, GitrError> {
    match stored_commit(store, commit) {
        Err(e) => Err(e),
        Ok(c) => word_of(
            if of_author {
                c.author
            } else {
                c.committer
            },
            n,
        ),
    }
}

fn get_commit_word(commit: &[u8], store: &ObjectStore, of_author: bool, n: usize) -> (r: Result<
    Vec<u8>,
    GitrError,
>)
    ensures
        match r {
            Ok(w) => commit_word(store@, commit@, of_author, n as int) == Ok::<
                Seq<u8>,
                GitrError,
            >(w@),
            Err(e) => commit_word(store@, commit@, of_author, n as int) == Err::<
                Seq<u8>,
                GitrError,
            >(e),
        },
{
    match load_commit(commit, store) {
        Err(e) => Err(e),
        Ok(c) => {
            let line = if of_author {
                c.get_author()
            } else {
                c.get_committer()
            };
            nth_word(line.as_slice(), n)
        },
    }
}

/// The name of the author of the commit stored under `commit`: the first
/// word of its author line.
pub fn get_commit_author(commit: &[u8], store: &ObjectStore) -> (r: Result<Vec<u8>, GitrError>)
    ensures
        match r {
            Ok(w) => commit_word(store@, commit@, true, 0) == Ok::<Seq<u8>, GitrError>(w@),
            Err(e) => commit_word(store@, commit@, true, 0) == Err::<Seq<u8>, GitrError>(e),
        },
{
    get_commit_word(commit, store, true, 0)
}

/// The mail of the author of the commit stored under `commit`: the second
/// word of its author line.
pub fn get_commit_author_mail(commit: &[u8], store: &ObjectStore) -> (r: Result<
    Vec<u8>,
    GitrError,
>)
    ensures
        match r {
            Ok(w) => commit_word(store@, commit@, true, 1) == Ok::<Seq<u8>, GitrError>(w@),
            Err(e) => commit_word(store@, commit@, true, 1) == Err::<Seq<u8>, GitrError>(e),
        },
{
    get_commit_word(commit, store, true, 1)
}

/// The name of the committer of the commit stored under `commit`: the first
/// word of its committer line.
pub fn get_commit_commiter(commit: &[u8], store: &ObjectStore) -> (r: Result<Vec<u8>, GitrError>)
    ensures
        match r {
            Ok(w) => commit_word(store@, commit@, false, 0) == Ok::<Seq<u8>, GitrError>(w@),
            Err(e) => commit_word(store@, commit@, false, 0) == Err::<Seq<u8>, GitrError>(e),
        },
{
    get_commit_word(commit, store, false, 0)
}

/// The mail of the committer of the commit stored under `commit`: the
/// second word of its committer line.
pub fn get_commit_commiter_mail(commit: &[u8], store: &ObjectStore) -> (r: Result<
    Vec<u8>,
    GitrError,
>)
    ensures
        match r {
            Ok(w) => commit_word(store@, commit@, false, 1) == Ok::<Seq<u8>, GitrError>(w@),
            Err(e) => commit_word(store@, commit@, false, 1) == Err::<Seq<u8>, GitrError>(e),
        },
{
    get_commit_word(commit, store, false, 1)
}

/// The message of the commit stored under `commit`.
pub fn get_commit_message(commit: &[u8], store: &ObjectStore) -> (r: Result<Vec<u8>, GitrError>)
    ensures
        match r {
            Ok(m) => stored_commit(store@, commit@) matches Ok(c) && m@ == c.message,
            Err(e) => stored_commit(store@, commit@) == Err::<CommitView, GitrError>(e),
        },
{
    match load_commit(commit, store) {
        Ok(c) => Ok(c.get_message()),
        Err(e) => Err(e),
    }
}

/// The layout in which the date of a commit is told.
pub open spec fn date_layout() -> Seq<char> {
    "%a %b %d %H:%M:%S %Y %z"@
}

/// The offset from Greenwich, in seconds, at which the date of a commit is
/// told: three hours west.
pub const DATE_OFFSET: i32 = -10800;

/// The date of a commit made at `timestamp` seconds since 1970, as text;
/// `TimeError` for a time that cannot be written down.
pub open spec fn date_of(timestamp: int) -> Result<Seq<u8>, GitrError> {
    match formatted_time(timestamp, DATE_OFFSET as int, date_layout()) {
        Some(text) => Ok(text),
        None => Err(GitrError::TimeError),
    }
}

/// The date of a commit made at `timestamp` seconds since 1970, as text.
pub fn format_commit_date(timestamp: i64) -> (r: Result<Vec<u8>, GitrError>)
    ensures
        match r {
            Ok(text) => date_of(timestamp as int) == Ok::<Seq<u8>, GitrError>(text@),
            Err(e) => date_of(timestamp as int) == Err::<Seq<u8>, GitrError>(e),
        },
{
    match format_time(timestamp, DATE_OFFSET, "%a %b %d %H:%M:%S %Y %z") {
        Some(text) => Ok(text),
        None => Err(GitrError::TimeError),
    }
}

/// The date of the commit stored under `commit`: the third word of its
/// author line, read as seconds since 1970 and told as text. `TimeError`
/// when the word is no number of at most 18 digits.
pub fn get_commit_date(commit: &[u8], store: &ObjectStore) -> (r: Result<Vec<u8>, GitrError>)
    ensures
        match r {
            Ok(text) => commit_word(store@, commit@, true, 2) matches Ok(w)
                && crate::text::is_dec(w) && w.len() <= 18 && date_of(
                crate::text::dec_value(w) as int,
            ) == Ok::<Seq<u8>, GitrError>(text@),
            Err(e) => match commit_word(store@, commit@, true, 2) {
                Err(err) => e == err,
                Ok(w) => if crate::text::is_dec(w) && w.len() <= 18 {
                    date_of(crate::text::dec_value(w) as int) == Err::<Seq<u8>, GitrError>(e)
                } else {
                    e == GitrError::TimeError
                },
            },
        },
{
    let word = match get_commit_word(commit, store, true, 2) {
        Ok(w) => w,
        Err(e) => {
            return Err(e);
        },
    };
    if word.len() > 18 {
        return Err(GitrError::TimeError);
    }
    match crate::text::parse_u64(word.as_slice()) {
        Some(n) => {
            proof {
                crate::text::lemma_dec_bound(word@);
            }
            format_commit_date(n as i64)
        },
        None => {
            proof {
                if crate::text::is_dec(word@) {
                    crate::text::lemma_dec_bound(word@);
                }
            }
            Err(GitrError::TimeError)
        },
    }
}

/// The first seven bytes of an id, or all of it when it is shorter.
pub open spec fn short_id(id: Seq<u8>) -> Seq<u8> {
    if id.len() > 7 {
        id.subrange(0, 7)
    } else {
        id
    }
}

/// The entry of the log for the commit stored under `id`: for a commit with
/// two parents a line that names them; the id; the author, the date, and
/// the message.
pub open spec fn log_entry(store: Seq<(Seq<u8>, Seq<u8>)>, id: Seq<u8>) -> Result<
    Seq<u8>,
    GitrError,
> {
    match stored_commit(store, id) {
        Err(e) => Err(e),
        Ok(c) => match word_of(c.author, 2) {
            Err(e) => Err(e),
            Ok(stamp) => if !(crate::text::is_dec(stamp) && stamp.len() <= 18) {
                Err(GitrError::TimeError)
            } else {
                match date_of(crate::text::dec_value(stamp) as int) {
                    Err(e) => Err(e),
                    Ok(date) => match word_of(c.author, 0) {
                        Err(e) => Err(e),
                        Ok(author) => Ok(
                            (if c.parents.len() == 2 {
                                ascii("Merge: "@) + short_id(c.parents[0]) + seq![32u8] + short_id(
                                    c.parents[1],
                                ) + seq![10u8]
                            } else {
                                Seq::empty()
                            }) + ascii("commit: "@) + id + seq![10u8] + ascii("Author: "@)
                                + author + seq![10u8] + ascii("Date: "@) + date + seq![10u8, 9u8]
                                + c.message + seq![10u8, 10u8],
                        ),
                    },
                }
            },
        },
    }
}

/// The log from the commit stored under `id` back along first parents: the
/// entries of at most `fuel` commits, ending after the commit that has no
/// parent or after the entry that brings the count, which starts at
/// `counter`, up to `limit`.
pub open spec fn log_text(
    store: Seq<(Seq<u8>, Seq<u8>)>,
    id: Seq<u8>,
    limit: int,
    counter: int,
    fuel: nat,
) -> Result<Seq<u8>, GitrError>
    decreases fuel,
{
    match log_entry(store, id) {
        Err(e) => Err(e),
        Ok(entry) => {
            let parents = parents_or_none(stored_commit(store, id).unwrap().parents);
            if parents[0] == no_parent() || counter + 1 == limit || fuel == 0 {
                Ok(entry)
            } else {
                match log_text(store, parents[0], limit, counter + 1, (fuel - 1) as nat) {
                    Err(e) => Err(e),
                    Ok(rest) => Ok(entry + rest),
                }
            }
        },
    }
}

/// Writes the entry of the log for the commit stored under `id`.
fn write_log_entry(id: &[u8], store: &ObjectStore) -> (r: Result<Vec<u8>, GitrError>)
    ensures
        match r {
            Ok(text) => log_entry(store@, id@) == Ok::<Seq<u8>, GitrError>(text@),
            Err(e) => log_entry(store@, id@) == Err::<Seq<u8>, GitrError>(e),
        },
{
    let date = match get_commit_date(id, store) {
        Ok(d) => d,
        Err(e) => {
            return Err(e);
        },
    };
    let author = match get_commit_author(id, store) {
        Ok(a) => a,
        Err(e) => {
            return Err(e);
        },
    };
    let commit = match load_commit(id, store) {
        Ok(c) => c,
        Err(e) => {
            return Err(e);
        },
    };
    proof {
        reveal_strlit("Merge: ");
        reveal_strlit("commit: ");
        reveal_strlit("Author: ");
        reveal_strlit("Date: ");
    }
    let parents = commit.get_parent_ids();
    let mut res: Vec<u8> = Vec::new();
    if parents.len() == 2 {
        assert(seqs(parents@)[0] == parents@[0]@ && seqs(parents@)[1] == parents@[1]@);
        push_all(&mut res, bytes_of("Merge: ").as_slice());
        let n0: usize = if parents[0].len() > 7 {
            7
        } else {
            parents[0].len()
        };
        crate::text::push_range(&mut res, parents[0].as_slice(), 0, n0);
        res.push(32u8);
        let n1: usize = if parents[1].len() > 7 {
            7
        } else {
            parents[1].len()
        };
        crate::text::push_range(&mut res, parents[1].as_slice(), 0, n1);
        res.push(10u8);
        proof {
            assert(parents@[0]@.subrange(0, n0 as int) =~= short_id(parents@[0]@));
            assert(parents@[1]@.subrange(0, n1 as int) =~= short_id(parents@[1]@));
        }
    }
    let ghost head = res@;
    proof {
        let c = commit@;
        assert(seqs(parents@).len() == parents@.len());
        if c.parents.len() == 2 {
            assert(head =~= ascii("Merge: "@) + short_id(c.parents[0]) + seq![32u8] + short_id(
                c.parents[1],
            ) + seq![10u8]);
        } else {
            assert(head =~= Seq::<u8>::empty());
        }
    }
    push_all(&mut res, bytes_of("commit: ").as_slice());
    push_all(&mut res, id);
    res.push(10u8);
    push_all(&mut res, bytes_of("Author: ").as_slice());
    push_all(&mut res, author.as_slice());
    res.push(10u8);
    push_all(&mut res, bytes_of("Date: ").as_slice());
    push_all(&mut res, date.as_slice());
    res.push(10u8);
    res.push(9u8);
    push_all(&mut res, commit.get_message().as_slice());
    res.push(10u8);
    res.push(10u8);
    proof {
        let c = commit@;
        assert(res@ =~= head + ascii("commit: "@) + id@ + seq![10u8] + ascii("Author: "@)
            + author@ + seq![10u8] + ascii("Date: "@) + date@ + seq![10u8, 9u8] + c.message
            + seq![10u8, 10u8]);
    }
    Ok(res)
}

/// The log of the repository as `quantity` asks for it: `NoHead` where
/// `HEAD` points at nothing, `FileReadError` where the reference that it
/// points at is not there, `InvalidArgumentError` where `quantity` is no
/// decimal number that fits the machine, and else the log from the commit
/// that `HEAD` resolves to, with as many entries as `quantity` says (0 for
/// all), or the error of the first entry that cannot be written.
#[verifier::opaque]
pub open spec fn log_of(quantity: Seq<u8>, repo: Repository) -> Result<Seq<u8>, GitrError> {
    if repo.head@ == ascii("None"@) {
        Err(GitrError::NoHead)
    } else {
        match ref_current(repo_refs(repo), repo.head@) {
            None => Err(GitrError::FileReadError),
            Some(start) => if !crate::text::is_dec(quantity) || crate::text::dec_value(quantity)
                > usize::MAX {
                Err(GitrError::InvalidArgumentError)
            } else {
                log_text(
                    repo.objects@,
                    start,
                    crate::text::dec_value(quantity) as int,
                    0,
                    repo.objects@.len(),
                )
            },
        }
    }
}

/// The log of the repository, from the commit that `HEAD` resolves to back
/// along first parents, with as many entries as `quantity` says in decimal
/// (0 for all). Fails with `InvalidArgumentError` when `quantity` is no
/// number, and as reading `HEAD` and the commits fails.
pub fn commit_log(quantity: &[u8], repo: &Repository) -> (r: Result<Vec<u8>, GitrError>)
    ensures
        match r {
            Ok(text) => log_of(quantity@, *repo) == Ok::<Seq<u8>, GitrError>(text@),
            Err(e) => log_of(quantity@, *repo) == Err::<Seq<u8>, GitrError>(e),
        },
{
    reveal(log_of);
    let mut current_commit = match get_current_commit(repo) {
        Ok(id) => id,
        Err(e) => {
            return Err(e);
        },
    };
    let limit: usize = match crate::text::parse_decimal(quantity) {
        Some(n) => n,
        None => {
            return Err(GitrError::InvalidArgumentError);
        },
    };
    let mut res: Vec<u8> = Vec::new();
    let mut counter: usize = 0;
    let mut fuel: usize = repo.objects.objects.len();
    let ghost start = current_commit@;
    let ghost store = repo.objects@;
    let ghost total = fuel as nat;
    let ghost wanted = log_of(quantity@, *repo);
    proof {
        assert(fuel == repo.objects@.len());
        assert(wanted == log_text(store, start, limit as int, 0, total));
        match log_text(store, start, limit as int, 0, total) {
            Ok(rest) => {
                assert(res@ + rest =~= rest);
            },
            Err(_) => {},
        }
    }
    loop
        invariant_except_break
            counter + fuel == total,
            total <= usize::MAX,
            store == repo.objects@,
            wanted == log_of(quantity@, *repo),
            wanted == log_text(store, start, limit as int, 0, total),
            log_text(store, start, limit as int, 0, total) == match log_text(
                store,
                current_commit@,
                limit as int,
                counter as int,
                fuel as nat,
            ) {
                Ok(rest) => Ok::<Seq<u8>, GitrError>(res@ + rest),
                Err(e) => Err::<Seq<u8>, GitrError>(e),
            },
        ensures
            wanted == log_of(quantity@, *repo),
            wanted == log_text(store, start, limit as int, 0, total),
            log_text(store, start, limit as int, 0, total) == Ok::<Seq<u8>, GitrError>(res@),
        decreases fuel,
    {
        let entry = match write_log_entry(current_commit.as_slice(), &repo.objects) {
            Ok(entry) => entry,
            Err(e) => {
                return Err(e);
            },
        };
        let parents = match get_parent_commit(current_commit.as_slice(), &repo.objects) {
            Ok(p) => p,
            Err(e) => {
                assert(stored_commit(store, current_commit@) is Err);
                assert(log_entry(store, current_commit@) is Err);
                return Err(e);
            },
        };
        proof {
            reveal_strlit("None");
            assert(seqs(parents@)[0] == parents@[0]@);
        }
        let ghost before = res@;
        push_all(&mut res, entry.as_slice());
        if bytes_eq(parents[0].as_slice(), bytes_of("None").as_slice()) || (limit > 0 && counter
            == limit - 1) || fuel == 0 {
            break ;
        }
        proof {
            match log_text(
                store,
                parents@[0]@,
                limit as int,
                counter + 1,
                (fuel - 1) as nat,
            ) {
                Ok(rest) => {
                    assert(res@ + rest =~= before + (entry@ + rest));
                },
                Err(_) => {},
            }
        }
        current_commit = parents[0].clone();
        counter = counter + 1;
        fuel = fuel - 1;
    }
    Ok(res)
}

} // verus!
