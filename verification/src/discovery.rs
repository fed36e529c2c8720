//! Finding the running CLI processes and the log file of each.
use crate::decimal::{decimal, law_decimal_is_read_back, parse_unsigned, unsigned_value};
use crate::text::{
    after_last, after_last_char, all_taken, chars_are, chars_contain, chars_of, contains_text,
    first_word, first_word_chars, law_first_word_stands_between_white_space,
    law_last_character_is_found, law_text_stands_where_it_was_put, lemma_rfind, none_taken, rfind,
    rfind_char, slice_from, stands_at, Trim,
};
use std::collections::HashMap;
use vstd::prelude::*;
use vstd::slice::slice_subrange;

verus! {

broadcast use vstd::std_specs::hash::group_hash_axioms;

/// A running process.
pub struct ProcInfo {
    /// Its command line.
    pub command: String,
    /// Its resident memory in KiB.
    pub rss_kb: u64,
}

/// The command runs the CLI: its first word is `copilot` itself, or a path with `copilot-cli` in it
/// that ends in `copilot`.
pub open spec fn is_cli_command(cmd: Seq<char>) -> bool {
    let binary = first_word(cmd);
    ||| binary == "copilot"@
    ||| contains_text(binary, "copilot-cli"@) && after_last(binary, '/') == "copilot"@
}

/// Whether the command runs the CLI.
pub fn is_copilot_cli(cmd: &str) -> (r: bool)
    ensures
        r == is_cli_command(cmd@),
        first_word(cmd@) == "copilot"@ ==> r,
        contains_text(first_word(cmd@), "copilot-cli"@) ==> r == (after_last(
            first_word(cmd@),
            '/',
        ) == "copilot"@),
        !contains_text(first_word(cmd@), "copilot-cli"@) && first_word(cmd@) != "copilot"@ ==> !r,
{
    let cs = chars_of(cmd);
    let binary = first_word_chars(cs.as_slice());
    proof {
        reveal_strlit("copilot");
        reveal_strlit("copilot-cli");
    }
    if chars_contain(binary, "copilot-cli") {
        return chars_are(after_last_char(binary, '/'), "copilot");
    }
    chars_are(binary, "copilot")
}

/// The command runs a helper of an editor rather than the CLI.
pub open spec fn is_editor_helper(cmd: Seq<char>) -> bool {
    ||| contains_text(cmd, "copilot-language-server"@)
    ||| contains_text(cmd, "copilot-agent"@)
    ||| contains_text(cmd, "copilot-intellij"@)
}

/// The command is that of a session.
pub open spec fn is_session_command(cmd: Seq<char>) -> bool {
    !is_editor_helper(cmd) && is_cli_command(cmd)
}

/// Whether the command is that of a session.
fn session_command(cmd: &str) -> (r: bool)
    ensures
        r == is_session_command(cmd@),
{
    let cs = chars_of(cmd);
    let cs = cs.as_slice();
    !chars_contain(cs, "copilot-language-server") && !chars_contain(cs, "copilot-agent")
        && !chars_contain(cs, "copilot-intellij") && is_copilot_cli(cmd)
}

/// The processes that are sessions, in no particular order.
pub fn find_copilot_pids(process_info: &HashMap<u32, ProcInfo>) -> (r: Vec<u32>)
    ensures
        r@.no_duplicates(),
        forall|pid: u32| #[trigger]
            r@.contains(pid) <==> process_info@.contains_key(pid) && is_session_command(
                process_info@[pid].command@,
            ),
        forall|pid: u32| #[trigger]
            r@.contains(pid) <==> {
                &&& process_info@.contains_key(pid)
                &&& is_cli_command(process_info@[pid].command@)
                &&& !contains_text(process_info@[pid].command@, "copilot-language-server"@)
                &&& !contains_text(process_info@[pid].command@, "copilot-agent"@)
                &&& !contains_text(process_info@[pid].command@, "copilot-intellij"@)
            },
        forall|pid: u32| #[trigger]
            r@.contains(pid) <==> {
                &&& process_info@.contains_key(pid)
                &&& {
                    ||| first_word(process_info@[pid].command@) == "copilot"@
                    ||| {
                        &&& contains_text(
                            first_word(process_info@[pid].command@),
                            "copilot-cli"@,
                        )
                        &&& after_last(first_word(process_info@[pid].command@), '/')
                            == "copilot"@
                    }
                }
                &&& !contains_text(process_info@[pid].command@, "copilot-language-server"@)
                &&& !contains_text(process_info@[pid].command@, "copilot-agent"@)
                &&& !contains_text(process_info@[pid].command@, "copilot-intellij"@)
            },
{
    let mut pids: Vec<u32> = Vec::new();
    // The places in the walk at which the processes were met.
    let ghost mut from: Seq<int> = seq![];
    for pair in it: process_info.iter()
        invariant
            it.seq().no_duplicates(),
            forall|i: int|
                0 <= i < it.seq().len() ==> process_info@.contains_key(*(#[trigger] it.seq()[i]).0)
                    && process_info@[*it.seq()[i].0] == *it.seq()[i].1,
            forall|pid: u32| #[trigger]
                process_info@.contains_key(pid) ==> it.seq().contains((&pid, &process_info@[pid])),
            pids@.no_duplicates(),
            from.len() == pids@.len(),
            forall|k: int|
                0 <= k < pids@.len() ==> {
                    &&& 0 <= #[trigger] from[k] < it.index()
                    &&& *it.seq()[from[k]].0 == pids@[k]
                    &&& is_session_command(process_info@[pids@[k]].command@)
                },
            forall|i: int|
                0 <= i < it.index() && is_session_command((#[trigger] it.seq()[i]).1.command@)
                    ==> pids@.contains(*it.seq()[i].0),
    {
        let (pid, info) = pair;
        let ghost known = pids@;
        let ghost at = it.index();
        assert(it.seq()[at] == pair);
        if session_command(info.command.as_str()) {
            proof {
                if known.contains(*pid) {
                    let k = known.index_of(*pid);
                    assert(it.seq()[from[k]] == it.seq()[at]);
                    assert(false);
                }
                from = from.push(at);
            }
            pids.push(*pid);
            assert(pids@[known.len() as int] == *pid);
        }
        assert forall|x: u32| known.contains(x) implies pids@.contains(x) by {
            let k = known.index_of(x);
            assert(pids@[k] == x);
        }
    }
    assert forall|pid: u32| #[trigger]
        pids@.contains(pid) <==> process_info@.contains_key(pid) && is_session_command(
            process_info@[pid].command@,
        ) by {
        if pids@.contains(pid) {
            let k = pids@.index_of(pid);
            assert(0 <= from[k]);
        }
    }
    pids
}

/// The process of a log file, by the name of the file: `process-{timestamp}-{pid}.log`.
pub open spec fn log_file_pid(name: Seq<char>) -> Option<u32> {
    if "process-"@.is_prefix_of(name) && ".log"@.is_suffix_of(name) {
        let inner = name.subrange(8, name.len() - 4);
        match rfind(inner, '-') {
            Some(i) => match unsigned_value(inner.skip(i + 1), u32::MAX as nat) {
                Some(pid) => Some(pid as u32),
                None => None,
            },
            None => None,
        }
    } else {
        None
    }
}

/// A name with both ends is long enough for both: they cannot overlap.
proof fn lemma_ends_do_not_overlap(name: Seq<char>)
    requires
        "process-"@.is_prefix_of(name),
        ".log"@.is_suffix_of(name),
    ensures
        name.len() >= 12,
{
    reveal_strlit("process-");
    reveal_strlit(".log");
    if name.len() < 12 {
        let dot = name.len() - 4;
        assert(name.subrange(dot, name.len() as int)[0] == '.');
        assert(name.subrange(0, 8)[dot] == name[dot]);
        assert(name.subrange(0, 8)[dot] == "process-"@[dot]);
    }
}

/// The process of a log file, by the name of the file.
pub fn pid_of_log_file(name: &str) -> (r: Option<u32>)
    ensures
        r == log_file_pid(name@),
{
    let cs = chars_of(name);
    let cs = cs.as_slice();
    let head = chars_of("process-");
    let end = chars_of(".log");
    proof {
        reveal_strlit("process-");
        reveal_strlit(".log");
    }
    if cs.len() < 4 || !stands_at(cs, head.as_slice(), 0) || !stands_at(
        cs,
        end.as_slice(),
        cs.len() - 4,
    ) {
        return None;
    }
    proof {
        lemma_ends_do_not_overlap(name@);
    }
    let inner = slice_subrange(cs, 8, cs.len() - 4);
    match rfind_char(inner, '-') {
        Some(i) => match parse_unsigned(slice_from(inner, i + 1), u32::MAX as u64) {
            Some(pid) => Some(pid as u32),
            None => None,
        },
        None => None,
    }
}

/// An entry of the directory of logs.
pub struct LogEntry {
    /// The name of the file, where it is text.
    pub name: Option<String>,
    /// The path of the file, as bytes.
    pub path: Vec<u8>,
    /// The entry is a symbolic link, or it is not known what it is.
    pub is_symlink: bool,
    /// When the file was last modified, in nanoseconds relative to the Unix epoch; 0 where that is
    /// not known.
    pub modified: i128,
}

impl LogEntry {
    /// The process whose log this is. A symbolic link is nobody's log.
    pub open spec fn pid(self) -> Option<u32> {
        match self.name {
            Some(name) => if self.is_symlink {
                None
            } else {
                log_file_pid(name@)
            },
            None => None,
        }
    }
}

/// The process whose log the entry is.
fn pid_of_entry(entry: &LogEntry) -> (r: Option<u32>)
    ensures
        r == entry.pid(),
{
    if entry.is_symlink {
        return None;
    }
    match &entry.name {
        Some(name) => pid_of_log_file(name.as_str()),
        None => None,
    }
}

/// Entry `i` is the newest log of the process, and the first of those that are equally new.
pub open spec fn is_newest_log(entries: Seq<LogEntry>, pid: u32, i: int) -> bool {
    &&& 0 <= i < entries.len()
    &&& entries[i].pid() == Some(pid)
    &&& forall|j: int|
        0 <= j < entries.len() && (#[trigger] entries[j]).pid() == Some(pid) ==> {
            &&& entries[j].modified <= entries[i].modified
            &&& j < i ==> entries[j].modified < entries[i].modified
        }
}

/// Some entry is a log of the process.
pub open spec fn has_log(entries: Seq<LogEntry>, pid: u32) -> bool {
    exists|i: int| 0 <= i < entries.len() && (#[trigger] entries[i]).pid() == Some(pid)
}

/// The newest log of the process.
fn newest_log(entries: &[LogEntry], owners: &Vec<Option<u32>>, pid: u32) -> (r: Option<usize>)
    requires
        owners@.len() == entries@.len(),
        forall|i: int| 0 <= i < entries@.len() ==> owners@[i] == (#[trigger] entries@[i]).pid(),
    ensures
        match r {
            Some(i) => is_newest_log(entries@, pid, i as int),
            None => !has_log(entries@, pid),
        },
{
    let mut best: Option<usize> = None;
    let mut i: usize = 0;
    while i < entries.len()
        invariant
            i <= entries@.len(),
            owners@.len() == entries@.len(),
            forall|k: int| 0 <= k < entries@.len() ==> owners@[k] == (#[trigger] entries@[k]).pid(),
            match best {
                Some(b) => {
                    &&& b < i
                    &&& is_newest_log(entries@.take(i as int), pid, b as int)
                },
                None => forall|k: int| 0 <= k < i ==> (#[trigger] entries@[k]).pid() != Some(pid),
            },
        decreases entries@.len() - i,
    {
        let ghost seen = entries@.take(i as int);
        let ghost next = entries@.take(i + 1);
        assert(forall|k: int| 0 <= k < i ==> (#[trigger] next[k]) == seen[k]);
        assert(next[i as int] == entries@[i as int]);
        if let Some(owner) = owners[i] {
            if owner == pid {
                best = match best {
                    Some(b) => if entries[i].modified > entries[b].modified {
                        Some(i)
                    } else {
                        Some(b)
                    },
                    None => Some(i),
                };
            }
        }
        i += 1;
    }
    assert(entries@.take(i as int) =~= entries@);
    best
}

/// The log file of each of the processes that has one: the newest, where there are several.
pub fn map_pid_to_log(pids: &[u32], entries: &[LogEntry]) -> (r: HashMap<u32, Vec<u8>>)
    ensures
        forall|pid: u32| #[trigger]
            r@.contains_key(pid) <==> pids@.contains(pid) && has_log(entries@, pid),
        forall|pid: u32| #[trigger]
            r@.contains_key(pid) ==> exists|i: int|
                is_newest_log(entries@, pid, i) && r@[pid]@ == entries@[i].path@,
        forall|pid: u32| #[trigger]
            r@.contains_key(pid) <==> pids@.contains(pid) && exists|i: int|
                0 <= i < entries@.len() && !(#[trigger] entries@[i]).is_symlink && entries@[i].name
                    is Some && log_file_pid(entries@[i].name->0@) == Some(pid),
        forall|pid: u32| #[trigger]
            r@.contains_key(pid) ==> exists|i: int|
                {
                    &&& 0 <= i < entries@.len()
                    &&& !(#[trigger] entries@[i]).is_symlink
                    &&& entries@[i].name is Some
                    &&& log_file_pid(entries@[i].name->0@) == Some(pid)
                    &&& r@[pid]@ == entries@[i].path@
                    &&& forall|j: int|
                        0 <= j < entries@.len() && !(#[trigger] entries@[j]).is_symlink
                            && entries@[j].name is Some && log_file_pid(entries@[j].name->0@)
                            == Some(pid) ==> entries@[j].modified <= entries@[i].modified && (j < i
                            ==> entries@[j].modified < entries@[i].modified)
                },
{
    let mut owners: Vec<Option<u32>> = Vec::new();
    let mut k: usize = 0;
    while k < entries.len()
        invariant
            k <= entries@.len(),
            owners@.len() == k,
            forall|i: int| 0 <= i < k ==> owners@[i] == (#[trigger] entries@[i]).pid(),
        decreases entries@.len() - k,
    {
        owners.push(pid_of_entry(&entries[k]));
        k += 1;
    }
    let mut logs: HashMap<u32, Vec<u8>> = HashMap::new();
    let mut p: usize = 0;
    while p < pids.len()
        invariant
            p <= pids@.len(),
            owners@.len() == entries@.len(),
            forall|i: int| 0 <= i < entries@.len() ==> owners@[i] == (#[trigger] entries@[i]).pid(),
            forall|pid: u32| #[trigger]
                logs@.contains_key(pid) <==> pids@.take(p as int).contains(pid) && has_log(
                    entries@,
                    pid,
                ),
            forall|pid: u32| #[trigger]
                logs@.contains_key(pid) ==> exists|i: int|
                    is_newest_log(entries@, pid, i) && logs@[pid]@ == entries@[i].path@,
        decreases pids@.len() - p,
    {
        let pid: u32 = pids[p];
        let ghost seen = pids@.take(p as int);
        assert(pids@.take(p + 1) =~= seen.push(pid));
        assert forall|x: u32| seen.push(pid).contains(x) <==> seen.contains(x) || x == pid by {
            if seen.contains(x) {
                assert(seen.push(pid)[seen.index_of(x)] == x);
            }
            if x == pid {
                assert(seen.push(pid)[seen.len() as int] == x);
            }
        }
        if let Some(i) = newest_log(entries, &owners, pid) {
            let ghost earlier = logs@;
            let path: Vec<u8> = entries[i].path.clone();
            assert(path@ =~= entries@[i as int].path@);
            logs.insert(pid, path);
            assert(entries@[i as int].pid() == Some(pid));
            assert(is_newest_log(entries@, pid, i as int) && logs@[pid]@ == entries@[i as int].path@);
            assert forall|x: u32| #[trigger] logs@.contains_key(x) implies exists|j: int|
                is_newest_log(entries@, x, j) && logs@[x]@ == entries@[j].path@ by {
                if x != pid {
                    assert(earlier.contains_key(x));
                }
            }
        }
        p += 1;
    }
    assert(pids@.take(p as int) =~= pids@);
    logs
}

/// An entry is the log of a process exactly where it is no symbolic link and its name says so.
pub proof fn law_log_belongs_to_the_process_in_its_name(entry: LogEntry, pid: u32)
    ensures
        entry.pid() == Some(pid) <==> !entry.is_symlink && entry.name is Some && log_file_pid(
            entry.name->0@,
        ) == Some(pid),
{
}

/// The binary of the CLI is named `copilot`, whatever path leads to it.
pub proof fn law_cli_binary_is_named_copilot(cmd: Seq<char>)
    ensures
        is_cli_command(cmd) ==> after_last(first_word(cmd), '/') == "copilot"@,
{
    reveal_strlit("copilot");
    lemma_rfind("copilot"@, '/');
}

/// At most one entry is the newest log of a process.
pub proof fn law_newest_log_is_unique(entries: Seq<LogEntry>, pid: u32, i: int, j: int)
    requires
        is_newest_log(entries, pid, i),
        is_newest_log(entries, pid, j),
    ensures
        i == j,
{
}

/// The CLI runs where the first word of the command is `copilot`, whatever follows, and where it is
/// a path that has `copilot-cli` in it and ends in `/copilot`.
pub proof fn law_cli_is_run_by_name_or_by_path(
    front: Seq<char>,
    a: Seq<char>,
    b: Seq<char>,
    arguments: Seq<char>,
)
    requires
        all_taken(front, Trim::White),
        none_taken(a, Trim::White),
        none_taken(b, Trim::White),
        arguments.len() > 0 ==> Trim::White.takes(arguments[0]),
    ensures
        is_cli_command(front + "copilot"@ + arguments),
        is_cli_command(front + (a + "copilot-cli"@ + b + seq!['/'] + "copilot"@) + arguments),
{
    reveal_strlit("copilot");
    reveal_strlit("copilot-cli");
    let name = "copilot"@;
    let dir = "copilot-cli"@;
    assert(none_taken(name, Trim::White));
    assert(none_taken(dir, Trim::White));
    law_first_word_stands_between_white_space(front, name, arguments);
    let path = a + dir + b + seq!['/'] + name;
    assert forall|i: int| 0 <= i < path.len() implies !Trim::White.takes(#[trigger] path[i]) by {
        if i < a.len() {
            assert(path[i] == a[i]);
        } else if i < a.len() + dir.len() {
            assert(path[i] == dir[i - a.len()]);
        } else if i < a.len() + dir.len() + b.len() {
            assert(path[i] == b[i - a.len() - dir.len()]);
        } else if i > a.len() + dir.len() + b.len() {
            assert(path[i] == name[i - a.len() - dir.len() - b.len() - 1]);
        }
    }
    law_first_word_stands_between_white_space(front, path, arguments);
    law_text_stands_where_it_was_put(a, dir, b + seq!['/'] + name);
    assert(path =~= a + dir + (b + seq!['/'] + name));
    assert(!name.contains('/'));
    law_last_character_is_found(a + dir + b, '/', name);
    assert(path =~= (a + dir + b).push('/') + name);
}

/// No other command runs the CLI: not one whose first word ends in another name, and not one with a
/// path that has no `copilot-cli` in it.
pub proof fn law_nothing_else_is_the_cli(
    front: Seq<char>,
    word: Seq<char>,
    arguments: Seq<char>,
)
    requires
        all_taken(front, Trim::White),
        none_taken(word, Trim::White),
        word.len() == 0 ==> arguments.len() == 0,
        arguments.len() > 0 ==> Trim::White.takes(arguments[0]),
    ensures
        is_cli_command(front + word + arguments) ==> {
            ||| word == "copilot"@
            ||| contains_text(word, "copilot-cli"@) && after_last(word, '/') == "copilot"@
        },
        word.contains('/') && !contains_text(word, "copilot-cli"@) ==> !is_cli_command(
            front + word + arguments,
        ),
{
    reveal_strlit("copilot");
    law_first_word_stands_between_white_space(front, word, arguments);
}

/// A command of the CLI is that of a session whatever its arguments are, unless one of the three
/// names of editor helpers stands in it; and each of the three is enough.
pub proof fn law_only_editor_helpers_are_left_out(
    cmd: Seq<char>,
    a: Seq<char>,
    b: Seq<char>,
)
    ensures
        is_cli_command(cmd) && !contains_text(cmd, "copilot-language-server"@) && !contains_text(
            cmd,
            "copilot-agent"@,
        ) && !contains_text(cmd, "copilot-intellij"@) ==> is_session_command(cmd),
        is_session_command(cmd) ==> is_cli_command(cmd),
        !is_session_command(a + "copilot-language-server"@ + b),
        !is_session_command(a + "copilot-agent"@ + b),
        !is_session_command(a + "copilot-intellij"@ + b),
{
    law_text_stands_where_it_was_put(a, "copilot-language-server"@, b);
    law_text_stands_where_it_was_put(a, "copilot-agent"@, b);
    law_text_stands_where_it_was_put(a, "copilot-intellij"@, b);
}

/// A file named `process-{timestamp}-{pid}.log` is the log of the process, whatever the time stamp
/// is; one with anything but a process number in the last place is nobody's.
pub proof fn law_log_file_is_named_after_its_process(stamp: Seq<char>, last: Seq<char>, pid: u32)
    requires
        !last.contains('-'),
    ensures
        log_file_pid(
            "process-"@ + stamp + seq!['-'] + decimal(pid as nat) + ".log"@,
        ) == Some(pid),
        unsigned_value(last, u32::MAX as nat) is Some ==> log_file_pid(
            "process-"@ + stamp + seq!['-'] + last + ".log"@,
        ) == Some(unsigned_value(last, u32::MAX as nat)->0 as u32),
        unsigned_value(last, u32::MAX as nat) is None ==> log_file_pid(
            "process-"@ + stamp + seq!['-'] + last + ".log"@,
        ) is None,
{
    lemma_no_hyphen_in_digits(pid as nat);
    law_decimal_is_read_back(pid as nat, u32::MAX as nat);
    lemma_log_file(stamp, decimal(pid as nat));
    lemma_log_file(stamp, last);
}

proof fn lemma_log_file(stamp: Seq<char>, last: Seq<char>)
    requires
        !last.contains('-'),
    ensures
        ({
            let name = "process-"@ + stamp + seq!['-'] + last + ".log"@;
            let inner = name.subrange(8, name.len() - 4);
            &&& "process-"@.is_prefix_of(name)
            &&& ".log"@.is_suffix_of(name)
            &&& rfind(inner, '-') == Some(stamp.len() as int)
            &&& inner.skip(stamp.len() as int + 1) == last
        }),
{
    reveal_strlit("process-");
    reveal_strlit(".log");
    let head = "process-"@;
    let end = ".log"@;
    let name = head + stamp + seq!['-'] + last + end;
    let inner = stamp.push('-') + last;
    assert(name =~= head + inner + end);
    assert(name.subrange(0, 8) =~= head);
    assert(name.subrange(name.len() - 4, name.len() as int) =~= end);
    assert(name.subrange(8, name.len() - 4) =~= inner);
    law_last_character_is_found(stamp, '-', last);
    assert(inner.skip(stamp.len() as int + 1) =~= last);
}

proof fn lemma_no_hyphen_in_digits(n: nat)
    ensures
        !decimal(n).contains('-'),
    decreases n,
{
    if n >= 10 {
        lemma_no_hyphen_in_digits(n / 10);
        let d = decimal(n);
        if d.contains('-') {
            let i = d.index_of('-');
            if i < d.len() - 1 {
                assert(decimal(n / 10)[i] == '-');
            }
        }
    }
}

/// No file with another beginning or another end is a log, nor one without a hyphen between them.
pub proof fn law_other_files_are_no_logs(name: Seq<char>, inner: Seq<char>)
    requires
        !inner.contains('-'),
    ensures
        log_file_pid(name) is Some ==> {
            &&& name.len() >= 12
            &&& name.take(8) == "process-"@
            &&& name.skip(name.len() - 4) == ".log"@
        },
        log_file_pid("process-"@ + inner + ".log"@) is None,
{
    reveal_strlit("process-");
    reveal_strlit(".log");
    if log_file_pid(name) is Some {
        lemma_ends_do_not_overlap(name);
        assert(name.take(8) =~= name.subrange(0, 8));
        assert(name.skip(name.len() - 4) =~= name.subrange(name.len() - 4, name.len() as int));
    }
    let file = "process-"@ + inner + ".log"@;
    assert(file.subrange(8, file.len() - 4) =~= inner);
    lemma_rfind(inner, '-');
}

} // verus!
