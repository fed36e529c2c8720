//! What the tools of the system say about a process: its directory and its git branch.
use crate::text::{
    bytes_text, chars_of, lines, slice_from, split_lines, string_of,
    text_of_bytes, texts, trim, trim_chars, Trim,
};
use vstd::prelude::*;

verus! {

/// The directory in a line that `lsof -F n` prints: an absolute path behind an `n`.
pub open spec fn lsof_path(line: Seq<char>) -> Option<Seq<char>> {
    if line.len() > 1 && line[0] == 'n' && line[1] == '/' {
        Some(line.skip(1))
    } else {
        None
    }
}

/// The directory in the first of these lines that has one.
pub open spec fn first_lsof_path(lines: Seq<Seq<char>>) -> Option<Seq<char>>
    decreases lines.len(),
{
    if lines.len() == 0 {
        None
    } else if lsof_path(lines[0]) is Some {
        lsof_path(lines[0])
    } else {
        first_lsof_path(lines.drop_first())
    }
}

/// The directory that `lsof -F n` printed.
pub fn cwd_in_lsof_text(text: &str) -> (r: Option<String>)
    ensures
        match r {
            Some(path) => first_lsof_path(lines(text@)) == Some(path@),
            None => first_lsof_path(lines(text@)) is None,
        },
{
    let cs = chars_of(text);
    let printed = split_lines(cs.as_slice());
    let ghost all = texts(printed@);
    assert(all.skip(0) =~= all);
    let mut i: usize = 0;
    while i < printed.len()
        invariant
            i <= printed@.len(),
            all == texts(printed@),
            all == lines(text@),
            first_lsof_path(all) == first_lsof_path(all.skip(i as int)),
        decreases printed@.len() - i,
    {
        assert(all.skip(i as int)[0] == printed@[i as int]@);
        assert(all.skip(i as int).drop_first() =~= all.skip(i + 1));
        let line = chars_of(printed[i].as_str());
        if line.len() > 1 && line[0] == 'n' && line[1] == '/' {
            return Some(string_of(slice_from(line.as_slice(), 1)));
        }
        i += 1;
    }
    None
}

/// The directory that `lsof -F n` printed, as bytes.
pub fn cwd_from_lsof(stdout: &[u8]) -> (r: Option<String>)
    ensures
        match r {
            Some(path) => first_lsof_path(lines(bytes_text(stdout@))) == Some(path@),
            None => first_lsof_path(lines(bytes_text(stdout@))) is None,
        },
{
    let text = text_of_bytes(stdout);
    cwd_in_lsof_text(text.as_str())
}

/// The arguments with which `git` names the branch of the directory.
pub open spec fn branch_arguments(cwd: Seq<char>) -> Seq<Seq<char>> {
    seq!["-C"@, cwd, "rev-parse"@, "--abbrev-ref"@, "HEAD"@]
}

/// The arguments with which to ask `git` for the branch of the directory; `None` where there is no
/// directory to ask for.
pub fn git_branch_arguments(cwd: &str) -> (r: Option<Vec<String>>)
    ensures
        match r {
            Some(arguments) => cwd@.len() > 0 && texts(arguments@) == branch_arguments(cwd@)
                && texts(arguments@) == seq!["-C"@, cwd@, "rev-parse"@, "--abbrev-ref"@, "HEAD"@],
            None => cwd@.len() == 0,
        },
{
    if cwd.is_empty() {
        return None;
    }
    let mut arguments: Vec<String> = Vec::new();
    arguments.push("-C".to_owned());
    arguments.push(cwd.to_owned());
    arguments.push("rev-parse".to_owned());
    arguments.push("--abbrev-ref".to_owned());
    arguments.push("HEAD".to_owned());
    assert(texts(arguments@) =~= branch_arguments(cwd@));
    Some(arguments)
}

/// The branch that `git` printed; empty where it failed.
pub fn git_branch_from(success: bool, stdout: &[u8]) -> (r: String)
    ensures
        r@ == if success {
            trim(bytes_text(stdout@), Trim::White)
        } else {
            seq![]
        },
        !success ==> r@.len() == 0,
{
    if success {
        let text = text_of_bytes(stdout);
        let cs = chars_of(text.as_str());
        string_of(trim_chars(cs.as_slice(), Trim::White))
    } else {
        String::new()
    }
}

/// The directory is the first absolute path that a line tells behind an `n`; lines that tell none
/// are passed over.
pub proof fn law_first_directory_counts(
    earlier: Seq<Seq<char>>,
    path: Seq<char>,
    later: Seq<Seq<char>>,
)
    requires
        forall|i: int|
            0 <= i < earlier.len() ==> {
                let line = #[trigger] earlier[i];
                line.len() < 2 || line[0] != 'n' || line[1] != '/'
            },
        path.len() > 0,
        path[0] == '/',
    ensures
        first_lsof_path(earlier + seq![seq!['n'] + path] + later) == Some(path),
        first_lsof_path(earlier) is None,
    decreases earlier.len(),
{
    let line = seq!['n'] + path;
    let all = earlier + seq![line] + later;
    if earlier.len() == 0 {
        assert(all[0] == line);
        assert(line.skip(1) =~= path);
    } else {
        assert(all[0] == earlier[0]);
        let rest = earlier.drop_first();
        assert forall|i: int| 0 <= i < rest.len() implies {
            let line = #[trigger] rest[i];
            line.len() < 2 || line[0] != 'n' || line[1] != '/'
        } by {
            assert(rest[i] == earlier[i + 1]);
        }
        law_first_directory_counts(rest, path, later);
        assert(all.drop_first() =~= rest + seq![line] + later);
    }
}

} // verus!
