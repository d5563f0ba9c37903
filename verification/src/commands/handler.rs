use crate::gitr_errors::GitrError;
use crate::text::{ascii, bytes_eq, bytes_of, copy_range, seqs};
use vstd::prelude::*;

verus! {

/// Whether `b` is a space, a tab, a line feed, a carriage return, a
/// vertical tab or a form feed.
pub open spec fn is_space(b: u8) -> bool {
    b == 32 || (9 <= b && b <= 13)
}

/// Where the run of bytes that are no white space, starting at `from`,
/// ends.
pub open spec fn word_end(s: Seq<u8>, from: int) -> int
    decreases s.len() - from,
{
    if from < 0 || from >= s.len() || is_space(s[from]) {
        from
    } else {
        word_end(s, from + 1)
    }
}

/// The words of `s` from index `from` on: the longest runs of bytes that
/// are no white space.
pub open spec fn words_from(s: Seq<u8>, from: int) -> Seq<Seq<u8>>
    decreases s.len() - from,
{
    if from < 0 || from >= s.len() {
        Seq::empty()
    } else if is_space(s[from]) {
        words_from(s, from + 1)
    } else {
        let end = word_end(s, from);
        if end <= from || end > s.len() {
            Seq::empty()
        } else {
            seq![s.subrange(from, end)] + words_from(s, end)
        }
    }
}

/// Splits a line of input into its words.
pub fn parse_input(input: &[u8]) -> (r: Vec<Vec<u8>>)
    ensures
        seqs(r@) == words_from(input@, 0),
{
    let mut out: Vec<Vec<u8>> = Vec::new();
    let mut i: usize = 0;
    assert(seqs(out@) + words_from(input@, 0) =~= words_from(input@, 0));
    while i < input.len()
        invariant
            i <= input@.len(),
            seqs(out@) + words_from(input@, i as int) == words_from(input@, 0),
        decreases input@.len() - i,
    {
        let b = input[i];
        if b == 32 || (9 <= b && b <= 13) {
            i = i + 1;
        } else {
            let start = i;
            let mut j: usize = i + 1;
            while j < input.len() && !(input[j] == 32 || (9 <= input[j] && input[j] <= 13))
                invariant
                    start < j <= input@.len(),
                    !is_space(input@[start as int]),
                    word_end(input@, start as int) == word_end(input@, j as int),
                decreases input@.len() - j,
            {
                j = j + 1;
            }
            let ghost before = seqs(out@);
            let word = copy_range(input, start, j);
            out.push(word);
            proof {
                assert(word_end(input@, j as int) == j);
                assert(word_end(input@, start as int) == j);
                assert(seqs(out@) =~= before + seq![input@.subrange(start as int, j as int)]);
                assert(seqs(out@) + words_from(input@, j as int) =~= before + (seq![
                    input@.subrange(start as int, j as int),
                ] + words_from(input@, j as int)));
            }
            i = j;
        }
    }
    assert(seqs(out@) + Seq::<Seq<u8>>::empty() =~= seqs(out@));
    out
}

/// What a line of input asks for.
#[derive(Debug, Clone, Copy, PartialEq, Eq, Structural)]
pub enum Command {
    HashObject,
    CatFile,
    Init,
    Status,
    Add,
    Rm,
    Commit,
    Checkout,
    Log,
    Clone,
    Fetch,
    Merge,
    Remote,
    Pull,
    Push,
    Branch,
    LsFiles,
    ShowRef,
    Tag,
    LsTree,
    Rebase,
    CheckIgnore,
    Quit,
    ShowLog,
    ListRepos,
    GoToRepo,
    CurrentRepo,
    Echo,
}

/// The command that the word `word` names, if it names one. Some commands
/// have a short name besides their own.
pub open spec fn command_named(word: Seq<u8>) -> Option<Command> {
    if word == ascii("hash-object"@) || word == ascii("h"@) {
        Some(Command::HashObject)
    } else if word == ascii("cat-file"@) || word == ascii("c"@) {
        Some(Command::CatFile)
    } else if word == ascii("init"@) {
        Some(Command::Init)
    } else if word == ascii("status"@) {
        Some(Command::Status)
    } else if word == ascii("add"@) {
        Some(Command::Add)
    } else if word == ascii("rm"@) {
        Some(Command::Rm)
    } else if word == ascii("commit"@) {
        Some(Command::Commit)
    } else if word == ascii("checkout"@) {
        Some(Command::Checkout)
    } else if word == ascii("log"@) {
        Some(Command::Log)
    } else if word == ascii("clone"@) {
        Some(Command::Clone)
    } else if word == ascii("fetch"@) {
        Some(Command::Fetch)
    } else if word == ascii("merge"@) {
        Some(Command::Merge)
    } else if word == ascii("remote"@) {
        Some(Command::Remote)
    } else if word == ascii("pull"@) {
        Some(Command::Pull)
    } else if word == ascii("push"@) {
        Some(Command::Push)
    } else if word == ascii("branch"@) {
        Some(Command::Branch)
    } else if word == ascii("ls-files"@) {
        Some(Command::LsFiles)
    } else if word == ascii("show-ref"@) {
        Some(Command::ShowRef)
    } else if word == ascii("tag"@) {
        Some(Command::Tag)
    } else if word == ascii("ls-tree"@) {
        Some(Command::LsTree)
    } else if word == ascii("rebase"@) {
        Some(Command::Rebase)
    } else if word == ascii("check-ignore"@) {
        Some(Command::CheckIgnore)
    } else if word == ascii("q"@) {
        Some(Command::Quit)
    } else if word == ascii("l"@) {
        Some(Command::ShowLog)
    } else if word == ascii("list-repos"@) || word == ascii("lr"@) {
        Some(Command::ListRepos)
    } else if word == ascii("go-to-repo"@) || word == ascii("gtr"@) {
        Some(Command::GoToRepo)
    } else if word == ascii("cur-repo"@) || word == ascii("cr"@) {
        Some(Command::CurrentRepo)
    } else if word == ascii("echo"@) {
        Some(Command::Echo)
    } else {
        None
    }
}

/// Whether `word` is the ASCII text `name`.
fn word_is(word: &[u8], name: &str) -> (r: bool)
    requires
        name.is_ascii(),
    ensures
        r == (word@ == ascii(name@)),
{
    bytes_eq(word, bytes_of(name).as_slice())
}

/// The command that `word` names.
pub fn command_of(word: &[u8]) -> (r: Option<Command>)
    ensures
        r == command_named(word@),
{
    proof {
        reveal_strlit("hash-object");
        reveal_strlit("h");
        reveal_strlit("cat-file");
        reveal_strlit("c");
        reveal_strlit("init");
        reveal_strlit("status");
        reveal_strlit("add");
        reveal_strlit("rm");
        reveal_strlit("commit");
        reveal_strlit("checkout");
        reveal_strlit("log");
        reveal_strlit("clone");
        reveal_strlit("fetch");
        reveal_strlit("merge");
        reveal_strlit("remote");
        reveal_strlit("pull");
        reveal_strlit("push");
        reveal_strlit("branch");
        reveal_strlit("ls-files");
        reveal_strlit("show-ref");
        reveal_strlit("tag");
        reveal_strlit("ls-tree");
        reveal_strlit("rebase");
        reveal_strlit("check-ignore");
        reveal_strlit("q");
        reveal_strlit("l");
        reveal_strlit("list-repos");
        reveal_strlit("lr");
        reveal_strlit("go-to-repo");
        reveal_strlit("gtr");
        reveal_strlit("cur-repo");
        reveal_strlit("cr");
        reveal_strlit("echo");
    }
    if word_is(word, "hash-object") || word_is(word, "h") {
        Some(Command::HashObject)
    } else if word_is(word, "cat-file") || word_is(word, "c") {
        Some(Command::CatFile)
    } else if word_is(word, "init") {
        Some(Command::Init)
    } else if word_is(word, "status") {
        Some(Command::Status)
    } else if word_is(word, "add") {
        Some(Command::Add)
    } else if word_is(word, "rm") {
        Some(Command::Rm)
    } else if word_is(word, "commit") {
        Some(Command::Commit)
    } else if word_is(word, "checkout") {
        Some(Command::Checkout)
    } else if word_is(word, "log") {
        Some(Command::Log)
    } else if word_is(word, "clone") {
        Some(Command::Clone)
    } else if word_is(word, "fetch") {
        Some(Command::Fetch)
    } else if word_is(word, "merge") {
        Some(Command::Merge)
    } else if word_is(word, "remote") {
        Some(Command::Remote)
    } else if word_is(word, "pull") {
        Some(Command::Pull)
    } else if word_is(word, "push") {
        Some(Command::Push)
    } else if word_is(word, "branch") {
        Some(Command::Branch)
    } else if word_is(word, "ls-files") {
        Some(Command::LsFiles)
    } else if word_is(word, "show-ref") {
        Some(Command::ShowRef)
    } else if word_is(word, "tag") {
        Some(Command::Tag)
    } else if word_is(word, "ls-tree") {
        Some(Command::LsTree)
    } else if word_is(word, "rebase") {
        Some(Command::Rebase)
    } else if word_is(word, "check-ignore") {
        Some(Command::CheckIgnore)
    } else if word_is(word, "q") {
        Some(Command::Quit)
    } else if word_is(word, "l") {
        Some(Command::ShowLog)
    } else if word_is(word, "list-repos") || word_is(word, "lr") {
        Some(Command::ListRepos)
    } else if word_is(word, "go-to-repo") || word_is(word, "gtr") {
        Some(Command::GoToRepo)
    } else if word_is(word, "cur-repo") || word_is(word, "cr") {
        Some(Command::CurrentRepo)
    } else if word_is(word, "echo") {
        Some(Command::Echo)
    } else {
        None
    }
}

/// What the shell remembers from one command to the next: whether a merge
/// left a conflict, and the id of the commit that was merged in.
pub open spec fn state_after(
    command: Command,
    hubo_conflict: bool,
    branch_hash: Seq<u8>,
    merged: Seq<u8>,
) -> (bool, Seq<u8>) {
    match command {
        Command::Add => (hubo_conflict, branch_hash),
        Command::Merge => (true, merged),
        _ => (false, Seq::empty()),
    }
}

/// The state of the shell after the command `command` was carried out:
/// staging files keeps it, a merge sets it to the commit `merged` that was
/// merged in, and every other command clears it.
pub fn next_state(command: Command, hubo_conflict: bool, branch_hash: Vec<u8>, merged: Vec<u8>) -> (r: (
    bool,
    Vec<u8>,
))
    ensures
        (r.0, r.1@) == state_after(command, hubo_conflict, branch_hash@, merged@),
{
    match command {
        Command::Add => (hubo_conflict, branch_hash),
        Command::Merge => (true, merged),
        _ => (false, Vec::new()),
    }
}

/// The second parent that a commit gets: the commit that was merged in
/// where a merge left a conflict, and else the "no parent" marker.
pub fn second_parent(hubo_conflict: bool, branch_hash: Vec<u8>) -> (r: Vec<u8>)
    ensures
        r@ == if hubo_conflict {
            branch_hash@
        } else {
            ascii("None"@)
        },
{
    proof {
        reveal_strlit("None");
    }
    if hubo_conflict {
        branch_hash
    } else {
        bytes_of("None")
    }
}

/// What the words of a line of input ask for: nothing for no words; the
/// command that the first word names, with the words after it as its
/// flags; `InvalidArgumentError` where the first word names no command.
pub open spec fn asked(argv: Seq<Seq<u8>>) -> Result<Option<(Command, Seq<Seq<u8>>)>, GitrError> {
    if argv.len() == 0 {
        Ok(None)
    } else {
        match command_named(argv[0]) {
            None => Err(GitrError::InvalidArgumentError),
            Some(command) => Ok(Some((command, argv.subrange(1, argv.len() as int)))),
        }
    }
}

/// Reads what the words of a line of input ask for: the command to carry
/// out and its flags.
pub fn command_handler(argv: &Vec<Vec<u8>>) -> (r: Result<Option<(Command, Vec<Vec<u8>>)>, GitrError>)
    ensures
        match r {
            Ok(Some((command, flags))) => asked(seqs(argv@)) == Ok::<
                Option<(Command, Seq<Seq<u8>>)>,
                GitrError,
            >(Some((command, seqs(flags@)))),
            Ok(None) => asked(seqs(argv@)) == Ok::<Option<(Command, Seq<Seq<u8>>)>, GitrError>(
                None,
            ),
            Err(e) => asked(seqs(argv@)) == Err::<Option<(Command, Seq<Seq<u8>>)>, GitrError>(e),
        },
{
    if argv.len() == 0 {
        return Ok(None);
    }
    assert(seqs(argv@)[0] == argv@[0]@);
    let command = match command_of(argv[0].as_slice()) {
        Some(command) => command,
        None => {
            return Err(GitrError::InvalidArgumentError);
        },
    };
    let ghost all = seqs(argv@);
    let mut flags: Vec<Vec<u8>> = Vec::new();
    let mut i: usize = 1;
    assert(seqs(flags@) =~= all.subrange(1, 1));
    while i < argv.len()
        invariant
            1 <= i <= argv@.len(),
            all == seqs(argv@),
            seqs(flags@) == all.subrange(1, i as int),
        decreases argv@.len() - i,
    {
        let ghost had = seqs(flags@);
        flags.push(argv[i].clone());
        assert(seqs(flags@) =~= had.push(all[i as int]));
        assert(had.push(all[i as int]) =~= all.subrange(1, i + 1));
        i = i + 1;
    }
    Ok(Some((command, flags)))
}

} // verus!
