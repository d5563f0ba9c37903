use crate::codec::inflated;
use crate::file_manager::{lookup, read_object, readable_object, ObjectStore};
use crate::gitr_errors::GitrError;
use crate::objects::tree::Tree;
use crate::text::{
    ascii, bytes_eq, bytes_of, copy_range, find_byte, find_from, has_prefix, push_all, seqs,
    split, split_on, starts_with,
};
use vstd::prelude::*;

verus! {

/// The line that shows one entry of a tree, given the entry in readable
/// form (mode, space, name, NUL, id): mode, kind, id and name with a space
/// between them, and a line feed. The kind is `blob` for the mode of a
/// file and `tree` for any other. None where the entry has no space, or
/// no NUL after it.
pub open spec fn entry_text(entry: Seq<u8>) -> Option<Seq<u8>> {
    let fields = split_on(entry, 32);
    if fields.len() < 2 {
        None
    } else {
        let parts = split_on(fields[1], 0);
        if parts.len() < 2 {
            None
        } else {
            Some(
                fields[0] + seq![32u8] + (if fields[0] == ascii("100644"@) {
                    ascii("blob"@)
                } else {
                    ascii("tree"@)
                }) + seq![32u8] + parts[1] + seq![32u8] + parts[0] + seq![10u8],
            )
        }
    }
}

/// The lines that show the first `n` of `entries`; none where one of them
/// cannot be shown.
pub open spec fn entries_text(entries: Seq<Seq<u8>>, n: int) -> Option<Seq<u8>>
    decreases n,
{
    if n <= 0 {
        Some(Seq::empty())
    } else {
        match (entries_text(entries, n - 1), entry_text(entries[n - 1])) {
            (Some(text), Some(line)) => Some(text + line),
            _ => None,
        }
    }
}

/// What shows the entries of a tree that stand in `raw_data` in readable
/// form, one to a line: nothing for no data.
pub open spec fn tree_text(raw_data: Seq<u8>) -> Option<Seq<u8>> {
    if raw_data.len() == 0 {
        Some(Seq::empty())
    } else {
        entries_text(split_on(raw_data, 10), split_on(raw_data, 10).len() as int)
    }
}

/// Once an entry cannot be shown, no longer run of entries can.
proof fn lemma_entries_text_none(entries: Seq<Seq<u8>>, n: int, m: int)
    requires
        0 <= n <= m,
        entries_text(entries, n) is None,
    ensures
        entries_text(entries, m) is None,
    decreases m - n,
{
    if n < m {
        lemma_entries_text_none(entries, n, m - 1);
    }
}

/// Shows the entries of a tree, given in readable form: `FileReadError`
/// where an entry has no space, or no NUL after it.
pub fn get_tree_data(raw_data: &[u8]) -> (r: Result<Vec<u8>, GitrError>)
    ensures
        match r {
            Ok(text) => tree_text(raw_data@) == Some(text@),
            Err(e) => e == GitrError::FileReadError && tree_text(raw_data@) is None,
        },
{
    let mut tree_data: Vec<u8> = Vec::new();
    if raw_data.len() == 0 {
        return Ok(tree_data);
    }
    let files = split(raw_data, 10u8);
    let ghost all = seqs(files@);
    let mut i: usize = 0;
    while i < files.len()
        invariant
            i <= files@.len(),
            all == seqs(files@),
            all == split_on(raw_data@, 10),
            raw_data@.len() > 0,
            entries_text(all, i as int) == Some(tree_data@),
        decreases files@.len() - i,
    {
        proof {
            reveal_strlit("100644");
            reveal_strlit("blob");
            reveal_strlit("tree");
        }
        assert(all[i as int] == files@[i as int]@);
        let ghost before = tree_data@;
        let file_atributes = split(files[i].as_slice(), 32u8);
        if file_atributes.len() < 2 {
            proof {
                lemma_entries_text_none(all, i as int + 1, files@.len() as int);
            }
            return Err(GitrError::FileReadError);
        }
        assert(seqs(file_atributes@)[0] == file_atributes@[0]@);
        assert(seqs(file_atributes@)[1] == file_atributes@[1]@);
        let parts = split(file_atributes[1].as_slice(), 0u8);
        if parts.len() < 2 {
            proof {
                lemma_entries_text_none(all, i as int + 1, files@.len() as int);
            }
            return Err(GitrError::FileReadError);
        }
        assert(seqs(parts@)[0] == parts@[0]@);
        assert(seqs(parts@)[1] == parts@[1]@);
        push_all(&mut tree_data, file_atributes[0].as_slice());
        tree_data.push(32u8);
        if bytes_eq(file_atributes[0].as_slice(), bytes_of("100644").as_slice()) {
            push_all(&mut tree_data, bytes_of("blob").as_slice());
        } else {
            push_all(&mut tree_data, bytes_of("tree").as_slice());
        }
        tree_data.push(32u8);
        push_all(&mut tree_data, parts[1].as_slice());
        tree_data.push(32u8);
        push_all(&mut tree_data, parts[0].as_slice());
        tree_data.push(10u8);
        assert(tree_data@ =~= before + entry_text(all[i as int]).unwrap());
        i = i + 1;
    }
    Ok(tree_data)
}

/// The object stored under `id` in readable form.
pub open spec fn object_text(store: Seq<(Seq<u8>, Seq<u8>)>, id: Seq<u8>) -> Result<
    Seq<u8>,
    GitrError,
> {
    match lookup(store, id) {
        None => Err(GitrError::ObjectNotFound),
        Some(data) => match inflated(data) {
            Err(e) => Err(e),
            Ok(bytes) => readable_object(bytes),
        },
    }
}

/// Of the object named by the second of `flags`: its id, its readable
/// form, its size and its kind. The kind is what stands before the first
/// space of the readable form, the size what stands between that space and
/// the NUL after it. `InvalidArgumentError` for fewer than two flags, else
/// the error of reading the object, else `FileReadError` where the
/// readable form has no space.
pub open spec fn properties(flags: Seq<Seq<u8>>, store: Seq<(Seq<u8>, Seq<u8>)>) -> Result<
    (Seq<u8>, Seq<u8>, Seq<u8>, Seq<u8>),
    GitrError,
> {
    if flags.len() < 2 {
        Err(GitrError::InvalidArgumentError)
    } else {
        match object_text(store, flags[1]) {
            Err(e) => Err(e),
            Ok(text) => {
                let fields = split_on(text, 32);
                if fields.len() < 2 {
                    Err(GitrError::FileReadError)
                } else {
                    Ok((flags[1], text, split_on(fields[1], 0)[0], fields[0]))
                }
            },
        }
    }
}

/// Gets id, readable form, size and kind of the object that the second of
/// `flags` names.
pub fn get_object_properties(flags: &Vec<Vec<u8>>, store: &ObjectStore) -> (r: Result<
    (Vec<u8>, Vec<u8>, Vec<u8>, Vec<u8>),
    GitrError,
>)
    ensures
        match r {
            Ok(p) => properties(seqs(flags@), store@) == Ok::<
                (Seq<u8>, Seq<u8>, Seq<u8>, Seq<u8>),
                GitrError,
            >((p.0@, p.1@, p.2@, p.3@)),
            Err(e) => properties(seqs(flags@), store@) == Err::<
                (Seq<u8>, Seq<u8>, Seq<u8>, Seq<u8>),
                GitrError,
            >(e),
        },
{
    if flags.len() < 2 {
        return Err(GitrError::InvalidArgumentError);
    }
    assert(seqs(flags@)[1] == flags@[1]@);
    let res_output = match read_object(flags[1].as_slice(), store) {
        Ok(text) => text,
        Err(e) => {
            return Err(e);
        },
    };
    let fields = split(res_output.as_slice(), 32u8);
    if fields.len() < 2 {
        return Err(GitrError::FileReadError);
    }
    assert(seqs(fields@)[0] == fields@[0]@);
    assert(seqs(fields@)[1] == fields@[1]@);
    let parts = split(fields[1].as_slice(), 0u8);
    assert(seqs(parts@)[0] == parts@[0]@);
    Ok((flags[1].clone(), res_output, parts[0].clone(), fields[0].clone()))
}

/// What is asked of an object by the first of `flags`, the second naming
/// the object: its kind for `-t`, its size for `-s`, and for `-p` its
/// content (what follows the first NUL of the readable form), as it is for
/// a blob, a commit or a tag, and shown entry by entry for a tree. Any
/// other first flag gives a remark on the options. It fails as getting the
/// properties does, and for `-p` with `FileReadError` where the readable
/// form has no NUL, the kind is none of the four, or a tree cannot be shown.
pub open spec fn cat_text(flags: Seq<Seq<u8>>, store: Seq<(Seq<u8>, Seq<u8>)>) -> Result<
    Seq<u8>,
    GitrError,
> {
    match properties(flags, store) {
        Err(e) => Err(e),
        Ok((id, text, size, kind)) => if flags[0] == ascii("-t"@) {
            Ok(kind)
        } else if flags[0] == ascii("-s"@) {
            Ok(size)
        } else if flags[0] == ascii("-p"@) {
            let nul = find_from(text, 0, 0);
            let raw = text.subrange(nul + 1, text.len() as int);
            if nul >= text.len() {
                Err(GitrError::FileReadError)
            } else if kind == ascii("blob"@) || kind == ascii("commit"@) || kind == ascii(
                "tag"@,
            ) {
                Ok(raw)
            } else if kind == ascii("tree"@) {
                match tree_text(raw) {
                    Some(shown) => Ok(shown),
                    None => Err(GitrError::FileReadError),
                }
            } else {
                Err(GitrError::FileReadError)
            }
        } else {
            Ok(ascii("Invalid option. Expected <[-t/-s/-p>"@))
        },
    }
}

/// Gives what the first of `flags` asks of the object that the second
/// names.
pub fn _cat_file(flags: &Vec<Vec<u8>>, store: &ObjectStore) -> (r: Result<Vec<u8>, GitrError>)
    ensures
        match r {
            Ok(text) => cat_text(seqs(flags@), store@) == Ok::<Seq<u8>, GitrError>(text@),
            Err(e) => cat_text(seqs(flags@), store@) == Err::<Seq<u8>, GitrError>(e),
        },
{
    proof {
        reveal_strlit("-t");
        reveal_strlit("-s");
        reveal_strlit("-p");
        reveal_strlit("blob");
        reveal_strlit("commit");
        reveal_strlit("tag");
        reveal_strlit("tree");
        reveal_strlit("Invalid option. Expected <[-t/-s/-p>");
    }
    let (_object_hash, res_output, size, object_type) = match get_object_properties(flags, store) {
        Ok(p) => p,
        Err(e) => {
            return Err(e);
        },
    };
    assert(seqs(flags@)[0] == flags@[0]@);
    let data_requested = flags[0].as_slice();
    if bytes_eq(data_requested, bytes_of("-t").as_slice()) {
        return Ok(object_type);
    }
    if bytes_eq(data_requested, bytes_of("-s").as_slice()) {
        return Ok(size);
    }
    if !bytes_eq(data_requested, bytes_of("-p").as_slice()) {
        return Ok(bytes_of("Invalid option. Expected <[-t/-s/-p>"));
    }
    let nul = find_byte(res_output.as_slice(), 0u8, 0);
    if nul >= res_output.len() {
        return Err(GitrError::FileReadError);
    }
    let raw_data = copy_range(res_output.as_slice(), nul + 1, res_output.len());
    if bytes_eq(object_type.as_slice(), bytes_of("blob").as_slice()) || bytes_eq(
        object_type.as_slice(),
        bytes_of("commit").as_slice(),
    ) || bytes_eq(object_type.as_slice(), bytes_of("tag").as_slice()) {
        Ok(raw_data)
    } else if bytes_eq(object_type.as_slice(), bytes_of("tree").as_slice()) {
        get_tree_data(raw_data.as_slice())
    } else {
        Err(GitrError::FileReadError)
    }
}

/// The id that an entry of a tree in readable form names: what follows
/// the first NUL of its second field. None where the entry has no space,
/// or no NUL after it.
pub open spec fn entry_id(entry: Seq<u8>) -> Option<Seq<u8>> {
    let fields = split_on(entry, 32);
    if fields.len() < 2 {
        None
    } else {
        let parts = split_on(fields[1], 0);
        if parts.len() < 2 {
            None
        } else {
            Some(parts[1])
        }
    }
}

/// The ids that the first `n` of `entries` name; none where one of them
/// names none.
pub open spec fn entry_ids(entries: Seq<Seq<u8>>, n: int) -> Option<Seq<Seq<u8>>>
    decreases n,
{
    if n <= 0 {
        Some(Seq::empty())
    } else {
        match (entry_ids(entries, n - 1), entry_id(entries[n - 1])) {
            (Some(ids), Some(id)) => Some(ids.push(id)),
            _ => None,
        }
    }
}

/// The ids of the entries of a tree given in readable form, header and
/// all: none where the text does not start with `tree`, has no NUL, or
/// holds an entry that names no id.
pub open spec fn tree_ids(data: Seq<u8>) -> Option<Seq<Seq<u8>>> {
    let nul = find_from(data, 0, 0);
    if !has_prefix(data, ascii("tree"@)) || nul >= data.len() {
        None
    } else {
        let entries = split_on(data.subrange(nul + 1, data.len() as int), 10);
        entry_ids(entries, entries.len() as int)
    }
}

/// Once an entry names no id, no longer run of entries has ids.
proof fn lemma_entry_ids_none(entries: Seq<Seq<u8>>, n: int, m: int)
    requires
        0 <= n <= m,
        entry_ids(entries, n) is None,
    ensures
        entry_ids(entries, m) is None,
    decreases m - n,
{
    if n < m {
        lemma_entry_ids_none(entries, n, m - 1);
    }
}

impl Tree {
    /// The ids of the entries of a tree, read out of its readable form.
    /// `MalformedObject` where the text is not of that form.
    pub fn get_objects_id_from_string(data: &[u8]) -> (r: Result<Vec<Vec<u8>>, GitrError>)
        ensures
            match r {
                Ok(ids) => tree_ids(data@) == Some(seqs(ids@)),
                Err(e) => e == GitrError::MalformedObject && tree_ids(data@) is None,
            },
    {
        proof {
            reveal_strlit("tree");
        }
        if !starts_with(data, bytes_of("tree").as_slice()) {
            return Err(GitrError::MalformedObject);
        }
        let nul = find_byte(data, 0u8, 0);
        if nul >= data.len() {
            return Err(GitrError::MalformedObject);
        }
        let raw_data = copy_range(data, nul + 1, data.len());
        let entries = split(raw_data.as_slice(), 10u8);
        let ghost all = seqs(entries@);
        let mut objects_id: Vec<Vec<u8>> = Vec::new();
        let mut i: usize = 0;
        assert(seqs(objects_id@) =~= Seq::<Seq<u8>>::empty());
        while i < entries.len()
            invariant
                i <= entries@.len(),
                all == seqs(entries@),
                has_prefix(data@, ascii("tree"@)),
                nul == find_from(data@, 0, 0),
                nul < data@.len(),
                all == split_on(data@.subrange(nul + 1, data@.len() as int), 10),
                entry_ids(all, i as int) == Some(seqs(objects_id@)),
            decreases entries@.len() - i,
        {
            assert(all[i as int] == entries@[i as int]@);
            let ghost before = seqs(objects_id@);
            let fields = split(entries[i].as_slice(), 32u8);
            if fields.len() < 2 {
                proof {
                    lemma_entry_ids_none(all, i as int + 1, entries@.len() as int);
                }
                return Err(GitrError::MalformedObject);
            }
            assert(seqs(fields@)[1] == fields@[1]@);
            let parts = split(fields[1].as_slice(), 0u8);
            if parts.len() < 2 {
                proof {
                    lemma_entry_ids_none(all, i as int + 1, entries@.len() as int);
                }
                return Err(GitrError::MalformedObject);
            }
            assert(seqs(parts@)[1] == parts@[1]@);
            objects_id.push(parts[1].clone());
            assert(seqs(objects_id@) =~= before.push(parts@[1]@));
            i = i + 1;
        }
        Ok(objects_id)
    }
}

} // verus!
