//! The processes below a session.
use crate::discovery::ProcInfo;
use std::collections::{HashMap, HashSet};
use vstd::prelude::*;
use vstd::set_lib::{lemma_int_range, lemma_len_subset, set_int_range};

verus! {

broadcast use vstd::std_specs::hash::group_hash_axioms;

/// What is known of the running processes.
pub struct SharedProcessData {
    /// The processes.
    pub process_info: HashMap<u32, ProcInfo>,
    /// The children of each process.
    pub children_map: HashMap<u32, Vec<u32>>,
    /// The ports that each process listens on.
    pub ports: HashMap<u32, Vec<u16>>,
    /// Slowly changing data is to be read again.
    pub slow_tick: bool,
}

/// A process below a session.
pub struct ChildProcess {
    pub pid: u32,
    pub command: String,
    pub mem_kb: u64,
    pub port: Option<u16>,
}

/// The mathematical view of a `ChildProcess`.
pub struct Child {
    pub pid: u32,
    pub command: Seq<char>,
    pub mem_kb: u64,
    pub port: Option<u16>,
}

impl View for ChildProcess {
    type V = Child;

    open spec fn view(&self) -> Child {
        Child { pid: self.pid, command: self.command@, mem_kb: self.mem_kb, port: self.port }
    }
}

/// The views of a list of processes.
pub open spec fn child_views(v: Seq<ChildProcess>) -> Seq<Child> {
    Seq::new(v.len(), |i: int| v[i]@)
}

/// The children of the process.
pub open spec fn children(tree: Map<u32, Vec<u32>>, pid: u32) -> Seq<u32> {
    if tree.contains_key(pid) {
        tree[pid]@
    } else {
        seq![]
    }
}

/// There are no more process numbers than fit 32 bits.
pub proof fn lemma_pid_count(pids: Set<u32>)
    requires
        pids.finite(),
    ensures
        pids.len() <= 0x1_0000_0000,
{
    let as_int = |pid: u32| pid as int;
    let ints = pids.map(as_int);
    assert(vstd::relations::injective_on(as_int, pids));
    vstd::set_lib::lemma_map_size(pids, ints, as_int);
    lemma_int_range(0, 0x1_0000_0000);
    assert(ints.subset_of(set_int_range(0, 0x1_0000_0000)));
    lemma_len_subset(ints, set_int_range(0, 0x1_0000_0000));
}

/// How many process numbers have not been visited.
pub open spec fn unvisited(visited: Set<u32>) -> int {
    0x1_0000_0000 - visited.len()
}

/// The processes in the order in which they are met: the last on the stack is next, one that was
/// met before is passed over, and the children of one that was not are put on the stack.
pub open spec fn walk(tree: Map<u32, Vec<u32>>, stack: Seq<u32>, visited: Set<u32>) -> Seq<u32>
    decreases unvisited(visited), stack.len(),
    when visited.finite()
{
    proof {
        if stack.len() > 0 && !visited.contains(stack.last()) {
            lemma_pid_count(visited.insert(stack.last()));
        }
    }
    if stack.len() == 0 {
        seq![]
    } else if visited.contains(stack.last()) {
        walk(tree, stack.drop_last(), visited)
    } else {
        seq![stack.last()] + walk(
            tree,
            stack.drop_last() + children(tree, stack.last()),
            visited.insert(stack.last()),
        )
    }
}

/// The processes below a process, in the order in which they are met.
pub open spec fn below(tree: Map<u32, Vec<u32>>, pid: u32) -> Seq<u32> {
    walk(tree, children(tree, pid), Set::empty())
}

/// The processes below a process.
pub fn descendants(pid: u32, children_map: &HashMap<u32, Vec<u32>>) -> (r: Vec<u32>)
    ensures
        r@ == below(children_map@, pid),
{
    let ghost tree = children_map@;
    let mut stack: Vec<u32> = Vec::new();
    if let Some(first) = children_map.get(&pid) {
        stack = first.clone();
        assert(stack@ =~= first@);
    }
    let mut visited: HashSet<u32> = HashSet::new();
    let mut met: Vec<u32> = Vec::new();
    assert(stack@ =~= children(tree, pid));
    assert(visited@ =~= Set::empty());
    loop
        invariant
            tree == children_map@,
            visited@.finite(),
            below(tree, pid) =~= met@ + walk(tree, stack@, visited@),
        decreases unvisited(visited@), stack@.len(),
    {
        let ghost before = stack@;
        let ghost seen = visited@;
        match stack.pop() {
            Some(next) => {
                assert(stack@ =~= before.drop_last());
                if visited.contains(&next) {
                    continue;
                }
                visited.insert(next);
                proof {
                    lemma_pid_count(visited@);
                }
                if let Some(more) = children_map.get(&next) {
                    stack.extend_from_slice(more.as_slice());
                    assert(stack@ =~= before.drop_last() + children(tree, next));
                } else {
                    assert(stack@ =~= before.drop_last() + children(tree, next));
                }
                met.push(next);
            },
            None => {
                assert(walk(tree, stack@, visited@) =~= seq![]);
                return met;
            },
        }
    }
}

/// A way down the tree: each process is a child of the one before it.
pub open spec fn is_way(tree: Map<u32, Vec<u32>>, way: Seq<u32>) -> bool {
    &&& way.len() > 0
    &&& forall|i: int|
        0 < i < way.len() ==> children(tree, way[i - 1]).contains(#[trigger] way[i])
}

/// The way leads from one of the processes to `pid`.
pub open spec fn leads_to(tree: Map<u32, Vec<u32>>, from: Seq<u32>, way: Seq<u32>, pid: u32) -> bool {
    is_way(tree, way) && from.contains(way[0]) && way.last() == pid
}

/// Some way leads from one of the processes to `pid`.
pub open spec fn is_reachable(tree: Map<u32, Vec<u32>>, from: Seq<u32>, pid: u32) -> bool {
    exists|way: Seq<u32>| leads_to(tree, from, way, pid)
}

/// The walk meets each process once and none that was visited; it meets all on the stack, and the
/// children of all that it meets; and it meets only what can be reached from the stack.
proof fn lemma_walk(tree: Map<u32, Vec<u32>>, stack: Seq<u32>, visited: Set<u32>)
    requires
        visited.finite(),
    ensures
        walk(tree, stack, visited).no_duplicates(),
        forall|x: u32| #[trigger] walk(tree, stack, visited).contains(x) ==> !visited.contains(x),
        forall|x: u32| #[trigger]
            stack.contains(x) ==> visited.contains(x) || walk(tree, stack, visited).contains(x),
        forall|x: u32, y: u32|
            walk(tree, stack, visited).contains(x) && #[trigger] children(tree, x).contains(y)
                ==> visited.contains(y) || walk(tree, stack, visited).contains(y),
        forall|x: u32| #[trigger]
            walk(tree, stack, visited).contains(x) ==> is_reachable(tree, stack, x),
    decreases unvisited(visited), stack.len(),
{
    let met = walk(tree, stack, visited);
    if stack.len() == 0 {
    } else {
        let p = stack.last();
        let rest = stack.drop_last();
        assert forall|x: u32| stack.contains(x) implies x == p || rest.contains(x) by {
            let i = stack.index_of(x);
            if i < rest.len() {
                assert(rest[i] == x);
            }
        }
        if visited.contains(p) {
            lemma_walk(tree, rest, visited);
            assert forall|x: u32| #[trigger] met.contains(x) implies is_reachable(tree, stack, x) by {
                let way = choose|way: Seq<u32>| leads_to(tree, rest, way, x);
                let i = rest.index_of(way[0]);
                assert(stack[i] == way[0]);
                assert(leads_to(tree, stack, way, x));
            }
        } else {
            let next = rest + children(tree, p);
            let seen = visited.insert(p);
            lemma_pid_count(seen);
            lemma_walk(tree, next, seen);
            let later = walk(tree, next, seen);
            assert(met == seq![p] + later);
            assert forall|x: u32| met.contains(x) <==> x == p || later.contains(x) by {
                if later.contains(x) {
                    assert(met[later.index_of(x) + 1] == x);
                }
                if x == p {
                    assert(met[0] == x);
                }
                if met.contains(x) && x != p {
                    let i = met.index_of(x);
                    assert(later[i - 1] == x);
                }
            }
            assert forall|x: u32| rest.contains(x) implies next.contains(x) by {
                assert(next[rest.index_of(x)] == x);
            }
            assert forall|y: u32| children(tree, p).contains(y) implies next.contains(y) by {
                assert(next[rest.len() + children(tree, p).index_of(y)] == y);
            }
            assert forall|x: u32, y: u32|
                met.contains(x) && #[trigger] children(tree, x).contains(y) implies visited.contains(
                y,
            ) || met.contains(y) by {
                if x == p {
                    assert(next.contains(y));
                    assert(seen.contains(y) || later.contains(y));
                } else {
                    assert(later.contains(x));
                    assert(seen.contains(y) || later.contains(y));
                }
            }
            assert(met.no_duplicates()) by {
                assert(!later.contains(p));
                assert forall|i: int, j: int| 0 <= i < j < met.len() implies met[i] != met[j] by {
                    assert(later[j - 1] == met[j]);
                    if i > 0 {
                        assert(later[i - 1] == met[i]);
                    } else {
                        assert(later.contains(met[j]));
                    }
                }
            }
            assert forall|x: u32| #[trigger] met.contains(x) implies is_reachable(tree, stack, x) by {
                assert(stack[stack.len() - 1] == p);
                if x == p {
                    assert(leads_to(tree, stack, seq![p], x));
                } else {
                    let way = choose|way: Seq<u32>| leads_to(tree, next, way, x);
                    if rest.contains(way[0]) {
                        assert(stack[rest.index_of(way[0])] == way[0]);
                        assert(leads_to(tree, stack, way, x));
                    } else {
                        let k = next.index_of(way[0]);
                        assert(k >= rest.len() as int) by {
                            if k < rest.len() {
                                assert(rest[k] == way[0]);
                            }
                        }
                        assert(children(tree, p)[k - rest.len()] == way[0]);
                        let longer = seq![p] + way;
                        assert forall|i: int| 0 < i < longer.len() implies children(
                            tree,
                            longer[i - 1],
                        ).contains(#[trigger] longer[i]) by {
                            assert(longer[i] == way[i - 1]);
                            if i > 1 {
                                assert(longer[i - 1] == way[i - 2]);
                            }
                        }
                        assert(longer.last() == x);
                        assert(leads_to(tree, stack, longer, x));
                    }
                }
            }
        }
    }
}

proof fn lemma_way_stays_inside(
    tree: Map<u32, Vec<u32>>,
    met: Seq<u32>,
    way: Seq<u32>,
    n: int,
)
    requires
        is_way(tree, way),
        met.contains(way[0]),
        forall|x: u32, y: u32|
            met.contains(x) && #[trigger] children(tree, x).contains(y) ==> met.contains(y),
        0 <= n < way.len(),
    ensures
        met.contains(way[n]),
    decreases n,
{
    if n > 0 {
        lemma_way_stays_inside(tree, met, way, n - 1);
        assert(children(tree, way[n - 1]).contains(way[n]));
    }
}

/// The processes below a process are those that a way leads to from its children, each once.
pub proof fn law_below_is_what_can_be_reached(tree: Map<u32, Vec<u32>>, pid: u32)
    ensures
        below(tree, pid).no_duplicates(),
        forall|x: u32| #[trigger]
            below(tree, pid).contains(x) <==> is_reachable(tree, children(tree, pid), x),
{
    let from = children(tree, pid);
    let met = below(tree, pid);
    lemma_walk(tree, from, Set::empty());
    assert forall|x: u32| is_reachable(tree, from, x) implies #[trigger] met.contains(x) by {
        let way = choose|way: Seq<u32>| leads_to(tree, from, way, x);
        lemma_way_stays_inside(tree, met, way, way.len() - 1);
    }
}

/// The first port of the process, if it listens on any.
pub open spec fn first_port(ports: Map<u32, Vec<u16>>, pid: u32) -> Option<u16> {
    if ports.contains_key(pid) && ports[pid]@.len() > 0 {
        Some(ports[pid]@[0])
    } else {
        None
    }
}

/// Those of the processes that are running, with what is known of them.
pub open spec fn known_children(shared: SharedProcessData, pids: Seq<u32>) -> Seq<Child>
    decreases pids.len(),
{
    if pids.len() == 0 {
        seq![]
    } else {
        let earlier = known_children(shared, pids.drop_last());
        let pid = pids.last();
        if shared.process_info@.contains_key(pid) {
            earlier.push(
                Child {
                    pid,
                    command: shared.process_info@[pid].command@,
                    mem_kb: shared.process_info@[pid].rss_kb,
                    port: first_port(shared.ports@, pid),
                },
            )
        } else {
            earlier
        }
    }
}

/// The running processes below a process.
pub fn child_processes(pid: u32, shared: &SharedProcessData) -> (r: Vec<ChildProcess>)
    ensures
        child_views(r@) == known_children(*shared, below(shared.children_map@, pid)),
        r@.map_values(|c: ChildProcess| c.pid) == below(shared.children_map@, pid).filter(
            |p: u32| shared.process_info@.contains_key(p),
        ),
        forall|i: int|
            0 <= i < r@.len() ==> {
                let c = #[trigger] r@[i];
                &&& shared.process_info@.contains_key(c.pid)
                &&& is_reachable(
                    shared.children_map@,
                    children(shared.children_map@, pid),
                    c.pid,
                )
                &&& c.command@ == shared.process_info@[c.pid].command@
                &&& c.mem_kb == shared.process_info@[c.pid].rss_kb
                &&& c.port is Some <==> shared.ports@.contains_key(c.pid)
                    && shared.ports@[c.pid]@.len() > 0
                &&& c.port matches Some(port) ==> port == shared.ports@[c.pid]@[0]
            },
{
    let pids = descendants(pid, &shared.children_map);
    let mut out: Vec<ChildProcess> = Vec::new();
    let mut i: usize = 0;
    assert(child_views(out@) =~= known_children(*shared, pids@.take(0)));
    while i < pids.len()
        invariant
            i <= pids@.len(),
            child_views(out@) == known_children(*shared, pids@.take(i as int)),
        decreases pids@.len() - i,
    {
        let cpid: u32 = pids[i];
        let ghost done = out@;
        assert(pids@.take(i + 1).drop_last() =~= pids@.take(i as int));
        assert(pids@.take(i + 1).last() == cpid);
        if let Some(info) = shared.process_info.get(&cpid) {
            let port: Option<u16> = match shared.ports.get(&cpid) {
                Some(open) => if open.len() > 0 {
                    Some(open[0])
                } else {
                    None
                },
                None => None,
            };
            let child = ChildProcess {
                pid: cpid,
                command: info.command.clone(),
                mem_kb: info.rss_kb,
                port,
            };
            out.push(child);
            assert(child_views(out@) =~= child_views(done).push(child@));
        }
        i += 1;
    }
    assert(pids@.take(i as int) =~= pids@);
    proof {
        let tree = shared.children_map@;
        let known = known_children(*shared, pids@);
        law_known_children_are_listed(*shared, pids@);
        law_below_is_what_can_be_reached(tree, pid);
        assert(out@.map_values(|c: ChildProcess| c.pid) =~= known.map_values(|c: Child| c.pid));
        assert forall|i: int| 0 <= i < out@.len() implies {
            let c = #[trigger] out@[i];
            &&& shared.process_info@.contains_key(c.pid)
            &&& is_reachable(tree, children(tree, pid), c.pid)
            &&& c.command@ == shared.process_info@[c.pid].command@
            &&& c.mem_kb == shared.process_info@[c.pid].rss_kb
            &&& c.port is Some <==> shared.ports@.contains_key(c.pid)
                && shared.ports@[c.pid]@.len() > 0
            &&& c.port matches Some(port) ==> port == shared.ports@[c.pid]@[0]
        } by {
            assert(known[i] == out@[i]@);
            assert(below(tree, pid).contains(known[i].pid));
        }
    }
    out
}

/// Of these processes, those that are running are listed, in their order, each with its command, its
/// memory and the first of its ports, if it listens on any.
pub proof fn law_known_children_are_listed(shared: SharedProcessData, pids: Seq<u32>)
    ensures
        known_children(shared, pids).map_values(|c: Child| c.pid) == pids.filter(
            |p: u32| shared.process_info@.contains_key(p),
        ),
        forall|i: int|
            0 <= i < known_children(shared, pids).len() ==> {
                let c = #[trigger] known_children(shared, pids)[i];
                &&& shared.process_info@.contains_key(c.pid)
                &&& pids.contains(c.pid)
                &&& c.command == shared.process_info@[c.pid].command@
                &&& c.mem_kb == shared.process_info@[c.pid].rss_kb
                &&& c.port is Some <==> shared.ports@.contains_key(c.pid)
                    && shared.ports@[c.pid]@.len() > 0
                &&& c.port matches Some(port) ==> port == shared.ports@[c.pid]@[0]
            },
    decreases pids.len(),
{
    reveal(Seq::filter);
    let running = |p: u32| shared.process_info@.contains_key(p);
    let all = known_children(shared, pids);
    if pids.len() == 0 {
        assert(all.map_values(|c: Child| c.pid) =~= pids.filter(running));
    } else {
        let before = pids.drop_last();
        let earlier = known_children(shared, before);
        law_known_children_are_listed(shared, before);
        assert forall|p: u32| before.contains(p) implies pids.contains(p) by {
            assert(pids[before.index_of(p)] == p);
        }
        assert(pids[pids.len() - 1] == pids.last());
        assert forall|i: int| 0 <= i < all.len() implies #[trigger] all[i] == if i < earlier.len() {
            earlier[i]
        } else {
            all.last()
        } by {}
        assert(all.map_values(|c: Child| c.pid) =~= pids.filter(running));
    }
}

/// The child that comes last in the list is met first, and what is below it is met before the other
/// children.
pub proof fn law_last_child_is_met_first(
    tree: Map<u32, Vec<u32>>,
    stack: Seq<u32>,
    pid: u32,
    visited: Set<u32>,
)
    requires
        visited.finite(),
    ensures
        visited.contains(pid) ==> walk(tree, stack.push(pid), visited) == walk(tree, stack, visited),
        !visited.contains(pid) && tree.contains_key(pid) ==> walk(tree, stack.push(pid), visited)
            == seq![pid] + walk(tree, stack + tree[pid]@, visited.insert(pid)),
        !visited.contains(pid) && !tree.contains_key(pid) ==> walk(tree, stack.push(pid), visited)
            == seq![pid] + walk(tree, stack, visited.insert(pid)),
        walk(tree, Seq::<u32>::empty(), visited) == Seq::<u32>::empty(),
        tree.contains_key(pid) ==> below(tree, pid) == walk(tree, tree[pid]@, Set::empty()),
        !tree.contains_key(pid) ==> below(tree, pid) == Seq::<u32>::empty(),
{
    assert(stack.push(pid).drop_last() =~= stack);
    assert(stack + Seq::<u32>::empty() =~= stack);
}

} // verus!
