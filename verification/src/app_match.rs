//! Focused-application process matching.
//!
//! KDE reports the PID of the focused window. Audio may come from that process
//! or from any descendant in its process tree (Chromium, Wine/Proton, ...).

use std::collections::HashMap;
use std::collections::HashSet;
use vstd::prelude::*;
use vstd::std_specs::iter::IteratorSpec;

verus! {

broadcast use vstd::std_specs::hash::group_hash_axioms;

/// The process reached from `pid` after following `steps` parent links of the
/// process table (child PID -> parent PID), if every link exists.
pub open spec fn ancestor(table: Map<u32, u32>, pid: u32, steps: nat) -> Option<u32>
    decreases steps,
{
    if steps == 0 {
        Some(pid)
    } else if table.contains_key(pid) {
        ancestor(table, table[pid], (steps - 1) as nat)
    } else {
        None
    }
}

/// `pid` lies strictly below `root` in the process tree described by `table`.
pub open spec fn is_descendant(table: Map<u32, u32>, root: u32, pid: u32) -> bool {
    pid != root && exists|n: nat| n >= 1 && #[trigger] ancestor(table, pid, n) == Some(root)
}

/// Every element is smaller than every later one.
pub open spec fn strictly_ascending(s: Seq<u32>) -> bool {
    forall|i: int, j: int| 0 <= i < j < s.len() ==> s[i] < s[j]
}

/// `list` is `root` followed by all its descendants in ascending order.
pub open spec fn is_candidate_list(table: Map<u32, u32>, root: u32, list: Seq<u32>) -> bool {
    &&& list.len() >= 1
    &&& list[0] == root
    &&& strictly_ascending(list.drop_first())
    &&& forall|x: u32| list.drop_first().contains(x) <==> is_descendant(table, root, x)
}

/// Index the process table by parent: each parent maps to its children.
fn child_index(processes: &HashMap<u32, u32>) -> (children: HashMap<u32, Vec<u32>>)
    ensures
        forall|p: u32, c: u32|
            #![trigger children@[p]@.contains(c)]
            children@.contains_key(p) ==> (children@[p]@.contains(c) <==> (
            processes@.contains_key(c) && processes@[c] == p)),
        forall|c: u32|
            #![trigger processes@[c]]
            processes@.contains_key(c) ==> children@.contains_key(processes@[c]),
{
    let mut children: HashMap<u32, Vec<u32>> = HashMap::new();
    let ghost pairs = vstd::std_specs::hash::spec_hash_map_iter(processes).remaining();
    for (child, parent) in it: processes.iter()
        invariant
            it.seq() == pairs,
            forall|p: u32, c: u32|
                #![trigger children@[p]@.contains(c)]
                children@.contains_key(p) && children@[p]@.contains(c) ==> (
                processes@.contains_key(c) && processes@[c] == p),
            forall|j: int|
                #![trigger it.seq()[j]]
                0 <= j < it.index() ==> children@.contains_key(*it.seq()[j].1)
                    && children@[*it.seq()[j].1]@.contains(*it.seq()[j].0),
    {
        let c = *child;
        let p = *parent;
        let ghost j = it.index();
        proof {
            assert(it.seq()[j] == (child, parent));
            assert(processes@.contains_key(*pairs[j].0));
        }
        let ghost before = children@;
        let mut kids: Vec<u32> = match children.remove(&p) {
            Some(v) => v,
            None => Vec::new(),
        };
        let ghost prior = kids@;
        proof {
            assert(before.contains_key(p) ==> prior == before[p]@);
            assert(!before.contains_key(p) ==> prior.len() == 0);
        }
        kids.push(c);
        let ghost grown = kids@;
        children.insert(p, kids);
        proof {
            assert forall|q: u32, d: u32|
                #![trigger children@[q]@.contains(d)]
                children@.contains_key(q) && children@[q]@.contains(d) implies (
                processes@.contains_key(d) && processes@[d] == q) by {
                if q != p {
                    assert(before.contains_key(q) && before[q]@.contains(d));
                } else if d != c {
                    let i = choose|i: int| 0 <= i < grown.len() && grown[i] == d;
                    assert(prior[i] == d);
                }
            }
            assert forall|k: int|
                #![trigger it.seq()[k]]
                0 <= k < j + 1 implies children@.contains_key(*it.seq()[k].1)
                    && children@[*it.seq()[k].1]@.contains(*it.seq()[k].0) by {
                if k < j {
                    let q = *it.seq()[k].1;
                    assert(before.contains_key(q) && before[q]@.contains(*it.seq()[k].0));
                    if q == p {
                        let x = *it.seq()[k].0;
                        let i = choose|i: int| 0 <= i < prior.len() && prior[i] == x;
                        assert(grown[i] == x);
                    }
                } else {
                    assert(grown[grown.len() - 1] == c);
                }
            }
        }
    }
    proof {
        assert forall|c: u32| #![trigger processes@[c]] processes@.contains_key(c) implies children@.contains_key(processes@[c]) && children@[processes@[c]]@.contains(c) by {
            assert(pairs.contains((&c, &processes@[c])));
        }
    }
    children
}

/// One parent link extends a path to `root` by one step.
proof fn lemma_child_of_member(table: Map<u32, u32>, root: u32, parent: u32, child: u32)
    requires
        table.contains_key(child),
        table[child] == parent,
        parent == root || is_descendant(table, root, parent),
        child != root,
    ensures
        is_descendant(table, root, child),
{
    if parent == root {
        assert(ancestor(table, parent, 0) == Some(root));
        assert(ancestor(table, child, 1) == Some(root));
    } else {
        let n = choose|n: nat| n >= 1 && #[trigger] ancestor(table, parent, n) == Some(root);
        assert(ancestor(table, child, n + 1) == Some(root));
    }
}

/// A set that holds `root` and is closed under taking children holds every
/// process whose parent chain reaches `root`.
proof fn lemma_closed_set_holds_chain(
    table: Map<u32, u32>,
    members: Set<u32>,
    root: u32,
    pid: u32,
    steps: nat,
)
    requires
        members.contains(root),
        forall|y: u32, c: u32|
            #![trigger members.contains(y), table[c]]
            members.contains(y) && table.contains_key(c) && table[c] == y ==> members.contains(c),
        ancestor(table, pid, steps) == Some(root),
    ensures
        members.contains(pid),
    decreases steps,
{
    if steps > 0 {
        lemma_closed_set_holds_chain(table, members, root, table[pid], (steps - 1) as nat);
    }
}

/// Insert `x` into an ascending vector that does not hold it yet.
fn insert_ascending(v: &mut Vec<u32>, x: u32)
    requires
        strictly_ascending(old(v)@),
        !old(v)@.contains(x),
    ensures
        strictly_ascending(final(v)@),
        forall|y: u32| final(v)@.contains(y) <==> (old(v)@.contains(y) || y == x),
{
    let mut i = v.len();
    while i > 0 && v[i - 1] > x
        invariant
            i <= v.len(),
            forall|k: int| i <= k < v.len() ==> v@[k] > x,
        decreases i,
    {
        i = i - 1;
    }
    let ghost before = v@;
    proof {
        if i > 0 {
            assert(before[i - 1] != x);
        }
    }
    v.insert(i, x);
    proof {
        assert(v@ == before.insert(i as int, x));
        assert forall|y: u32| v@.contains(y) <==> (before.contains(y) || y == x) by {
            if v@.contains(y) {
                let k = choose|k: int| 0 <= k < v@.len() && v@[k] == y;
                if k < i {
                    assert(before[k] == y);
                } else if k > i {
                    assert(before[k - 1] == y);
                }
            }
            if before.contains(y) {
                let k = choose|k: int| 0 <= k < before.len() && before[k] == y;
                if k < i {
                    assert(v@[k] == y);
                } else {
                    assert(v@[k + 1] == y);
                }
            }
            if y == x {
                assert(v@[i as int] == x);
            }
        }
    }
}

/// The focused PID first, then every process below it in `processes`
/// (child PID -> parent PID) in ascending order, each listed once. Cycles in
/// the table do not repeat the focused PID.
pub fn candidates(pid: u32, processes: &HashMap<u32, u32>) -> (result: Vec<u32>)
    ensures
        is_candidate_list(processes@, pid, result@),
{
    let children = child_index(processes);
    let ghost table = processes@;
    let ghost universe = table.dom().insert(pid);
    let mut seen: HashSet<u32> = HashSet::new();
    seen.insert(pid);
    let mut pending: Vec<u32> = Vec::new();
    pending.push(pid);
    let mut descendants: Vec<u32> = Vec::new();
    proof {
        vstd::set_lib::lemma_len_subset(seen@, universe);
        assert(pending@[0] == pid);
    }
    while pending.len() > 0
        invariant
            table == processes@,
            universe == table.dom().insert(pid),
            universe.finite(),
            forall|p: u32, c: u32|
                #![trigger children@[p]@.contains(c)]
                children@.contains_key(p) ==> (children@[p]@.contains(c) <==> (
                table.contains_key(c) && table[c] == p)),
            forall|c: u32|
                #![trigger table[c]]
                table.contains_key(c) ==> children@.contains_key(table[c]),
            seen@.subset_of(universe),
            seen@.len() <= universe.len(),
            seen@.contains(pid),
            forall|x: u32| #[trigger] seen@.contains(x) && x != pid ==> is_descendant(table, pid, x),
            strictly_ascending(descendants@),
            forall|x: u32| #[trigger] descendants@.contains(x) <==> (seen@.contains(x) && x != pid),
            forall|i: int| 0 <= i < pending@.len() ==> seen@.contains(#[trigger] pending@[i]),
            forall|y: u32, c: u32|
                #![trigger seen@.contains(y), table[c]]
                seen@.contains(y) && !pending@.contains(y) && table.contains_key(c) && table[c] == y
                    ==> seen@.contains(c),
        decreases 2 * (universe.len() - seen@.len()) + pending@.len(),
    {
        let ghost measure = 2 * (universe.len() - seen@.len()) + pending@.len();
        let ghost queued = pending@;
        let parent = pending.pop().unwrap();
        proof {
            assert(queued == pending@.push(parent));
            assert(seen@.contains(queued[queued.len() - 1]));
            assert forall|y: u32| #[trigger] pending@.contains(y) implies queued.contains(y) by {
                let k = choose|k: int| 0 <= k < pending@.len() && pending@[k] == y;
                assert(queued[k] == y);
            }
        }
        let ghost seen_at_pop = seen@;
        let ghost pending_at_pop = pending@;
        match children.get(&parent) {
            Some(kids) => {
                let n = kids.len();
                for i in 0..n
                    invariant
                        n == kids@.len(),
                        children@.contains_key(parent),
                        kids@ == children@[parent]@,
                        table == processes@,
                        universe == table.dom().insert(pid),
                        universe.finite(),
                        seen_at_pop.contains(parent),
                        seen_at_pop.subset_of(seen@),
                        seen@.subset_of(universe),
                        seen@.len() <= universe.len(),
                        seen@.contains(pid),
                        forall|x: u32| #[trigger] seen@.contains(x) && x != pid ==> is_descendant(table, pid, x),
                        strictly_ascending(descendants@),
                        forall|x: u32| #[trigger] descendants@.contains(x) <==> (seen@.contains(x) && x != pid),
                        forall|k: int| 0 <= k < pending@.len() ==> seen@.contains(#[trigger] pending@[k]),
                        forall|y: u32| #[trigger] pending_at_pop.contains(y) ==> pending@.contains(y),
                        forall|k: int| 0 <= k < i ==> seen@.contains(#[trigger] kids@[k]),
                        forall|y: u32| #[trigger] seen@.contains(y) && !seen_at_pop.contains(y) ==> pending@.contains(y),
                        forall|p: u32, c: u32|
                            #![trigger children@[p]@.contains(c)]
                            children@.contains_key(p) ==> (children@[p]@.contains(c) <==> (
                            table.contains_key(c) && table[c] == p)),
                        2 * (universe.len() - seen@.len()) + pending@.len() < measure,
                {
                    let child = kids[i];
                    proof {
                        assert(children@[parent]@.contains(child));
                    }
                    if !seen.contains(&child) {
                        proof {
                            lemma_child_of_member(table, pid, parent, child);
                        }
                        let ghost seen_before = seen@;
                        seen.insert(child);
                        proof {
                            vstd::set_lib::lemma_len_subset(seen@, universe);
                        }
                        insert_ascending(&mut descendants, child);
                        let ghost pending_before = pending@;
                        pending.push(child);
                        proof {
                            assert forall|y: u32| #[trigger] pending_before.contains(y) implies pending@.contains(y) by {
                                let k = choose|k: int| 0 <= k < pending_before.len() && pending_before[k] == y;
                                assert(pending@[k] == y);
                            }
                            assert(pending@[pending@.len() - 1] == child);
                        }
                    }
                }
                proof {
                    assert forall|c: u32| table.contains_key(c) && table[c] == parent implies #[trigger] seen@.contains(c) by {
                        assert(children@[parent]@.contains(c));
                        let k = choose|k: int| 0 <= k < kids@.len() && kids@[k] == c;
                    }
                }
            },
            None => {
                proof {
                    assert forall|c: u32| table.contains_key(c) implies #[trigger] table[c] != parent by {
                        assert(children@.contains_key(table[c]));
                    }
                }
            },
        }
        proof {
            assert forall|y: u32, c: u32|
                #![trigger seen@.contains(y), table[c]]
                seen@.contains(y) && !pending@.contains(y) && table.contains_key(c) && table[c] == y
                    implies seen@.contains(c) by {
                if y != parent {
                    if seen_at_pop.contains(y) {
                        assert(!pending_at_pop.contains(y));
                        assert(!queued.contains(y)) by {
                            if queued.contains(y) {
                                let k = choose|k: int| 0 <= k < queued.len() && queued[k] == y;
                                assert(pending_at_pop[k] == y);
                            }
                        }
                        assert(seen_at_pop.contains(c));
                    }
                }
            }
        }
    }
    proof {
        assert forall|x: u32| is_descendant(table, pid, x) implies #[trigger] descendants@.contains(x) by {
            let n = choose|n: nat| n >= 1 && #[trigger] ancestor(table, x, n) == Some(pid);
            lemma_closed_set_holds_chain(table, seen@, pid, x, n);
        }
    }
    let mut result: Vec<u32> = Vec::new();
    result.push(pid);
    let ghost tail = descendants@;
    result.append(&mut descendants);
    proof {
        assert(result@.drop_first() == tail);
    }
    result
}

/// Candidate PIDs for the focused window `pid`: nothing for PID 0 (no focused
/// window), otherwise `pid` followed by its descendants in ascending order.
pub fn focused_pids(pid: u32, processes: &HashMap<u32, u32>) -> (result: Vec<u32>)
    ensures
        pid == 0 ==> result@.len() == 0,
        pid != 0 ==> is_candidate_list(processes@, pid, result@),
{
    if pid == 0 {
        return Vec::new();
    }
    candidates(pid, processes)
}

} // verus!
