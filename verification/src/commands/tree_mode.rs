use std::collections::HashMap;
use std::collections::HashSet;
use vstd::prelude::*;
use vstd::relations::sorted_by;
use vstd::relations::total_ordering;
use vstd::string::StringExecFns;
use crate::process_info::ProcessSnapshot;
use crate::text::contains_text;
use crate::text::decimal;
use crate::text::push_decimal;
use crate::text::lowercase;
use crate::text::text_contains;
use crate::text::to_lowercase;

verus! {

broadcast use vstd::std_specs::hash::group_hash_axioms;

/// Ascending order of process ids.
pub open spec fn pid_le() -> spec_fn(u32, u32) -> bool {
    |a: u32, b: u32| a <= b
}

/// Ascending order of process ids is a total order.
pub proof fn lemma_pid_le_total()
    ensures
        total_ordering(pid_le()),
{
    let le = pid_le();
    assert(vstd::relations::reflexive(le));
    assert(vstd::relations::antisymmetric(le));
    assert(vstd::relations::transitive(le));
    assert(vstd::relations::strongly_connected(le));
}

/// Sorts process ids in ascending order.
fn sort_pids(v: &mut Vec<u32>)
    ensures
        final(v)@ == old(v)@.sort_by(pid_le()),
{
    broadcast use vstd::seq_lib::group_to_multiset_ensures;

    let ghost orig = v@;
    let mut out: Vec<u32> = Vec::new();
    let mut i: usize = 0;
    while i < v.len()
        invariant
            v@ == orig,
            0 <= i <= v@.len(),
            sorted_by(out@, pid_le()),
            out@.to_multiset() == v@.take(i as int).to_multiset(),
        decreases v@.len() - i,
    {
        let x = v[i];
        let mut pos: usize = 0;
        while pos < out.len() && out[pos] <= x
            invariant
                0 <= pos <= out@.len(),
                forall|k: int| 0 <= k < pos ==> out@[k] <= x,
            decreases out@.len() - pos,
        {
            pos = pos + 1;
        }
        let ghost before = out@;
        out.insert(pos, x);
        proof {
            assert forall|a: int, b: int| 0 <= a < b < out@.len() implies #[trigger] (pid_le())(
                out@[a],
                out@[b],
            ) by {
                if b < pos {
                    assert((pid_le())(before[a], before[b]));
                } else if a > pos {
                    assert((pid_le())(before[a - 1], before[b - 1]));
                } else if a == pos {
                    assert((pid_le())(before[pos as int], before[b - 1]));
                } else {
                    assert(out@[b] == x || out@[b] == before[b - 1]);
                    if b > pos {
                        assert((pid_le())(before[pos as int], before[b - 1]));
                    }
                }
            }
            assert(v@.take(i + 1) =~= v@.take(i as int).push(x));
            assert(out@ == before.insert(pos as int, x));
            vstd::seq_lib::to_multiset_insert(before, pos as int, x);
            vstd::seq_lib::to_multiset_build(v@.take(i as int), x);
            assert(v@.take(i as int).push(x).to_multiset() == v@.take(i as int).to_multiset().insert(
                x,
            ));
        }
        i = i + 1;
    }
    proof {
        assert(v@.take(v@.len() as int) =~= orig);
        lemma_pid_le_total();
        orig.lemma_sort_by_ensures(pid_le());
        vstd::seq_lib::lemma_sorted_unique(out@, orig.sort_by(pid_le()), pid_le());
    }
    *v = out;
}

/// The child lists of a map from a process id to the ids of its children.
pub open spec fn child_lists(m: Map<u32, Vec<u32>>) -> Map<u32, Seq<u32>> {
    m.map_values(|v: Vec<u32>| v@)
}

/// The texts of a map from a process id to its name.
pub open spec fn name_texts(m: Map<u32, String>) -> Map<u32, Seq<char>> {
    m.map_values(|s: String| s@)
}

/// `b` is listed among the children of `a`.
pub open spec fn child_link(children: Map<u32, Seq<u32>>, a: u32, b: u32) -> bool {
    children.contains_key(a) && children[a].contains(b)
}

/// Each entry of `path` after the first is a child of the entry before it.
pub open spec fn follows_children(children: Map<u32, Seq<u32>>, path: Seq<u32>) -> bool {
    forall|i: int| 0 <= i < path.len() - 1 ==> #[trigger] child_link(children, path[i], path[i + 1])
}

/// The recorded name of `pid`, or the empty text when it has none.
pub open spec fn name_or_empty(names: Map<u32, Seq<char>>, pid: u32) -> Seq<char> {
    if names.contains_key(pid) {
        names[pid]
    } else {
        Seq::empty()
    }
}

/// Some process below `pid` (one or more child links down) has a lower-cased
/// name that contains `keyword`.
pub open spec fn descendant_matches(
    children: Map<u32, Seq<u32>>,
    names: Map<u32, Seq<char>>,
    pid: u32,
    keyword: Seq<char>,
) -> bool {
    exists|path: Seq<u32>|
        #![trigger follows_children(children, path)]
        path.len() >= 2 && path[0] == pid && follows_children(children, path) && contains_text(
            lowercase(name_or_empty(names, path.last())),
            keyword,
        )
}

/// Every pid listed as some child in `children`, together with `pid`.
spec fn reachable_universe(children: Map<u32, Seq<u32>>, pid: u32) -> Set<u32> {
    Set::new(|x: u32| x == pid || exists|k: u32| #[trigger] child_link(children, k, x))
}

spec fn listed_under(children: Map<u32, Seq<u32>>, keys: Set<u32>) -> Set<u32> {
    Set::new(|x: u32| exists|k: u32| keys.contains(k) && #[trigger] child_link(children, k, x))
}

proof fn lemma_listed_under_finite(children: Map<u32, Seq<u32>>, keys: Set<u32>)
    requires
        keys.finite(),
    ensures
        listed_under(children, keys).finite(),
    decreases keys.len(),
{
    if keys.len() == 0 {
        assert(listed_under(children, keys) =~= Set::empty());
    } else {
        let k = keys.choose();
        lemma_listed_under_finite(children, keys.remove(k));
        let rest = listed_under(children, keys.remove(k));
        let own: Set<u32> = if children.contains_key(k) {
            children[k].to_set()
        } else {
            Set::empty()
        };
        assert(own.finite()) by {
            if children.contains_key(k) {
                vstd::seq_lib::seq_to_set_is_finite(children[k]);
            }
        }
        assert(listed_under(children, keys) =~= rest.union(own)) by {
            assert forall|x: u32| rest.union(own).contains(x) implies listed_under(
                children,
                keys,
            ).contains(x) by {
                if own.contains(x) {
                    assert(keys.contains(k) && child_link(children, k, x));
                } else {
                    let kk = choose|kk: u32|
                        keys.remove(k).contains(kk) && #[trigger] child_link(children, kk, x);
                    assert(keys.contains(kk));
                }
            }
            assert forall|x: u32| listed_under(children, keys).contains(x) implies rest.union(
                own,
            ).contains(x) by {
                let kk = choose|kk: u32| keys.contains(kk) && #[trigger] child_link(children, kk, x);
                if kk != k {
                    assert(keys.remove(k).contains(kk));
                }
            }
        }
    }
}

proof fn lemma_universe_finite(children: Map<u32, Seq<u32>>, pid: u32)
    requires
        children.dom().finite(),
    ensures
        reachable_universe(children, pid).finite(),
{
    lemma_listed_under_finite(children, children.dom());
    assert(reachable_universe(children, pid) =~= listed_under(children, children.dom()).insert(
        pid,
    ));
}

/// Along a path that starts in `closed`, where every child of a member of
/// `closed` is again in `closed` and does not match, no entry after the first matches.
proof fn lemma_closed_path(
    children: Map<u32, Seq<u32>>,
    names: Map<u32, Seq<char>>,
    closed: Set<u32>,
    keyword: Seq<char>,
    path: Seq<u32>,
    i: int,
)
    requires
        0 < i < path.len(),
        closed.contains(path[0]),
        follows_children(children, path),
        forall|v: u32, c: u32|
            closed.contains(v) && #[trigger] child_link(children, v, c) ==> closed.contains(c)
                && !contains_text(lowercase(name_or_empty(names, c)), keyword),
    ensures
        closed.contains(path[i]),
        !contains_text(lowercase(name_or_empty(names, path[i])), keyword),
    decreases i,
{
    let k = i - 1;
    assert(child_link(children, path[k], path[k + 1]));
    if i > 1 {
        lemma_closed_path(children, names, closed, keyword, path, i - 1);
    }
}

/// Whether some process below `pid` in `children_map` has a name whose
/// lower-cased form contains `keyword`; the search visits each process once,
/// so it ends even where the links form a cycle.
pub fn has_matching_descendant(
    pid: u32,
    children_map: &HashMap<u32, Vec<u32>>,
    proc_map: &HashMap<u32, String>,
    keyword: &str,
) -> (r: bool)
    ensures
        r == descendant_matches(child_lists(children_map@), name_texts(proc_map@), pid, keyword@),
{
    let ghost children = child_lists(children_map@);
    let ghost names = name_texts(proc_map@);
    let ghost universe = reachable_universe(children, pid);
    proof {
        assert(children_map@.dom().finite());
        assert(children.dom() =~= children_map@.dom());
        lemma_universe_finite(children, pid);
    }
    let mut stack: Vec<u32> = Vec::new();
    stack.push(pid);
    assert(stack@[0] == pid);
    let mut visited: HashSet<u32> = HashSet::new();
    loop
        invariant
            children == child_lists(children_map@),
            names == name_texts(proc_map@),
            universe == reachable_universe(children, pid),
            universe.finite(),
            forall|j: int| 0 <= j < stack@.len() ==> universe.contains(#[trigger] stack@[j]),
            // everything waiting to be searched lies below `pid`, or is `pid`
            forall|j: int|
                0 <= j < stack@.len() ==> (#[trigger] stack@[j] == pid || exists|path: Seq<u32>|
                    #![trigger follows_children(children, path)]
                    path.len() >= 2 && path[0] == pid && follows_children(children, path)
                        && path.last() == stack@[j]),
            visited@.contains(pid) || stack@.contains(pid),
            // every child of a searched process was checked and is queued or searched
            forall|v: u32, c: u32|
                visited@.contains(v) && #[trigger] child_link(children, v, c) ==> (
                visited@.contains(c) || stack@.contains(c)) && !contains_text(
                    lowercase(name_or_empty(names, c)),
                    keyword@,
                ),
        decreases universe.difference(visited@).len(), stack@.len(),
    {
        let ghost stack_before = stack@;
        match stack.pop() {
            None => {
                proof {
                    assert forall|path: Seq<u32>|
                        path.len() >= 2 && path[0] == pid && #[trigger] follows_children(
                            children,
                            path,
                        ) implies !contains_text(
                        lowercase(name_or_empty(names, path.last())),
                        keyword@,
                    ) by {
                        lemma_closed_path(
                            children,
                            names,
                            visited@,
                            keyword@,
                            path,
                            path.len() - 1,
                        );
                    }
                }
                return false;
            },
            Some(current) => {
                assert(stack_before[stack_before.len() - 1] == current);
                assert(stack_before =~= stack@.push(current));
                let ghost visited_before = visited@;
                if !visited.insert(current) {
                    assert forall|v: u32, c: u32|
                        visited@.contains(v) && #[trigger] child_link(
                            children,
                            v,
                            c,
                        ) implies visited@.contains(c) || stack@.contains(c) by {
                        if !visited@.contains(c) {
                            assert(stack_before.contains(c));
                            let j = choose|j: int| 0 <= j < stack_before.len() && stack_before[j] == c;
                            assert(j != stack_before.len() - 1);
                            assert(stack@[j] == c);
                        }
                    }
                    assert(visited@ =~= visited_before);
                    continue;
                }
                let ghost popped = stack@;
                proof {
                    assert(universe.contains(stack_before[stack_before.len() - 1]));
                    assert(universe.difference(visited@) =~= universe.difference(
                        visited_before,
                    ).remove(current));
                    vstd::set::axiom_set_difference_finite(universe, visited_before);
                }
                // `current` is `pid` or lies below it: keep a path that ends in it
                let ghost to_current: Seq<u32> = if current == pid {
                    seq![pid]
                } else {
                    choose|path: Seq<u32>|
                        #![trigger follows_children(children, path)]
                        path.len() >= 2 && path[0] == pid && follows_children(children, path)
                            && path.last() == current
                };
                proof {
                    assert(stack_before[stack_before.len() - 1] == current);
                    assert(to_current.len() >= 1 && to_current[0] == pid && follows_children(
                        children,
                        to_current,
                    ) && to_current.last() == current);
                }
                match children_map.get(&current) {
                    None => {
                        assert forall|v: u32, c: u32|
                            visited@.contains(v) && #[trigger] child_link(
                                children,
                                v,
                                c,
                            ) implies (visited@.contains(c) || stack@.contains(c))
                            && !contains_text(lowercase(name_or_empty(names, c)), keyword@) by {
                            assert(v != current);
                            assert(visited_before.contains(v));
                            if !visited@.contains(c) {
                                assert(stack_before.contains(c));
                                let j = choose|j: int|
                                    0 <= j < stack_before.len() && stack_before[j] == c;
                                assert(j != stack_before.len() - 1);
                                assert(stack@[j] == c);
                            }
                        }
                    },
                    Some(kids) => {
                        assert(children_map@.contains_key(current) && children_map@[current] == *kids);
                        assert(children[current] == kids@);
                        let mut i: usize = 0;
                        while i < kids.len()
                            invariant
                                children == child_lists(children_map@),
                                names == name_texts(proc_map@),
                                universe == reachable_universe(children, pid),
                                children.contains_key(current),
                                kids@ == children[current],
                                0 <= i <= kids@.len(),
                                visited@ == visited_before.insert(current),
                                to_current.len() >= 1 && to_current[0] == pid,
                                follows_children(children, to_current),
                                to_current.last() == current,
                                forall|x: u32| popped.contains(x) ==> #[trigger] stack@.contains(x),
                                forall|j: int|
                                    0 <= j < stack@.len() ==> universe.contains(#[trigger] stack@[j]),
                                forall|j: int|
                                    0 <= j < stack@.len() ==> (#[trigger] stack@[j] == pid
                                        || exists|path: Seq<u32>|
                                        #![trigger follows_children(children, path)]
                                        path.len() >= 2 && path[0] == pid && follows_children(
                                            children,
                                            path,
                                        ) && path.last() == stack@[j]),
                                forall|j: int|
                                    0 <= j < i ==> stack@.contains(#[trigger] kids@[j])
                                        && !contains_text(
                                        lowercase(name_or_empty(names, kids@[j])),
                                        keyword@,
                                    ),
                            decreases kids@.len() - i,
                        {
                            let child = kids[i];
                            let lowered = match proc_map.get(&child) {
                                Some(name) => {
                                    assert(proc_map@.contains_key(child) && proc_map@[child] == *name);
                                    assert(names.contains_key(child) && names[child] == name@);
                                    to_lowercase(name.as_str())
                                },
                                None => {
                                    proof {
                                        reveal_strlit("");
                                    }
                                    assert(!names.contains_key(child));
                                    assert(""@ =~= Seq::<char>::empty());
                                    to_lowercase("")
                                },
                            };
                            assert(lowered@ == lowercase(name_or_empty(names, child)));
                            let ghost to_child = to_current.push(child);
                            proof {
                                assert(kids@.contains(child));
                                assert(child_link(children, current, child));
                                assert forall|k: int| 0 <= k < to_child.len() - 1 implies #[trigger] child_link(
                                    children,
                                    to_child[k],
                                    to_child[k + 1],
                                ) by {
                                    if k < to_current.len() - 1 {
                                        assert(child_link(children, to_current[k], to_current[k + 1]));
                                    }
                                }
                                assert(follows_children(children, to_child));
                            }
                            if text_contains(lowered.as_str(), keyword) {
                                assert(to_child.last() == child);
                                return true;
                            }
                            let ghost stack_mid = stack@;
                            stack.push(child);
                            proof {
                                assert(universe.contains(child));
                                assert forall|j: int| 0 <= j < stack@.len() implies (#[trigger] stack@[j] == pid
                                    || exists|path: Seq<u32>|
                                    #![trigger follows_children(children, path)]
                                    path.len() >= 2 && path[0] == pid && follows_children(
                                        children,
                                        path,
                                    ) && path.last() == stack@[j]) by {
                                    if j < stack_mid.len() {
                                        assert(stack@[j] == stack_mid[j]);
                                    } else {
                                        assert(stack@[j] == child);
                                        assert(to_child.last() == child);
                                    }
                                }
                                assert forall|x: u32| popped.contains(x) implies #[trigger] stack@.contains(x) by {
                                    assert(stack_mid.contains(x));
                                    let j = choose|j: int| 0 <= j < stack_mid.len() && stack_mid[j] == x;
                                    assert(stack@[j] == x);
                                }
                                assert forall|j: int| 0 <= j < i + 1 implies stack@.contains(#[trigger] kids@[j]) by {
                                    if j < i {
                                        let x = kids@[j];
                                        assert(stack_mid.contains(x));
                                        let jj = choose|jj: int| 0 <= jj < stack_mid.len() && stack_mid[jj] == x;
                                        assert(stack@[jj] == x);
                                    } else {
                                        assert(stack@[stack@.len() - 1] == child);
                                    }
                                }
                            }
                            i = i + 1;
                        }
                        assert forall|v: u32, c: u32|
                            visited@.contains(v) && #[trigger] child_link(
                                children,
                                v,
                                c,
                            ) implies (visited@.contains(c) || stack@.contains(c))
                            && !contains_text(lowercase(name_or_empty(names, c)), keyword@) by {
                            if v == current {
                                let j = choose|j: int| 0 <= j < kids@.len() && kids@[j] == c;
                                assert(stack@.contains(kids@[j]));
                            } else {
                                assert(visited_before.contains(v));
                                if !visited@.contains(c) {
                                    assert(stack_before.contains(c));
                                    let j = choose|j: int|
                                        0 <= j < stack_before.len() && stack_before[j] == c;
                                    assert(j != stack_before.len() - 1);
                                    assert(popped[j] == c);
                                    assert(popped.contains(c));
                                }
                            }
                        }
                    },
                }
            },
        }
    }
}

/// The name each process id carries in `procs`; of two snapshots with the
/// same id, the later one's name counts.
pub open spec fn name_table(procs: Seq<ProcessSnapshot>) -> Map<u32, Seq<char>>
    decreases procs.len(),
{
    if procs.len() == 0 {
        Map::empty()
    } else {
        name_table(procs.drop_last()).insert(procs.last().pid, procs.last().name@)
    }
}

/// The children of each process id, in the order the snapshots list them.
/// A snapshot whose parent is itself is nobody's child.
pub open spec fn child_table(procs: Seq<ProcessSnapshot>) -> Map<u32, Seq<u32>>
    decreases procs.len(),
{
    if procs.len() == 0 {
        Map::empty()
    } else {
        let m = child_table(procs.drop_last());
        let p = procs.last();
        if p.pid == p.parent_pid {
            m
        } else {
            let siblings = if m.contains_key(p.parent_pid) {
                m[p.parent_pid]
            } else {
                Seq::empty()
            };
            m.insert(p.parent_pid, siblings.push(p.pid))
        }
    }
}

/// The ids of all processes in `procs`.
pub open spec fn process_ids(procs: Seq<ProcessSnapshot>) -> Set<u32> {
    procs.map_values(|p: ProcessSnapshot| p.pid).to_set()
}

/// A process starts a tree when it is process 0, when its parent is 0, or
/// when its parent is not among the listed processes. (Where process 0 is
/// listed, its children are drawn below it before they come up as roots.)
pub open spec fn is_tree_root(p: ProcessSnapshot, names: Map<u32, Seq<char>>) -> bool {
    p.pid == 0 || p.parent_pid == 0 || !names.contains_key(p.parent_pid)
}

/// The ids of the snapshots that start a tree, in listing order.
pub open spec fn root_candidates(procs: Seq<ProcessSnapshot>, names: Map<u32, Seq<char>>) -> Seq<
    u32,
>
    decreases procs.len(),
{
    if procs.len() == 0 {
        Seq::empty()
    } else {
        let r = root_candidates(procs.drop_last(), names);
        if is_tree_root(procs.last(), names) {
            r.push(procs.last().pid)
        } else {
            r
        }
    }
}

/// The roots of the tree view, in ascending order of id.
pub open spec fn tree_roots(procs: Seq<ProcessSnapshot>) -> Seq<u32> {
    root_candidates(procs, name_table(procs)).sort_by(pid_le())
}

/// The children of `pid`, in ascending order of id.
pub open spec fn sorted_children(procs: Seq<ProcessSnapshot>, pid: u32) -> Seq<u32> {
    let t = child_table(procs);
    if t.contains_key(pid) {
        t[pid].sort_by(pid_le())
    } else {
        Seq::empty()
    }
}

/// One line of the tree view: the process, whether it is the last child of its
/// parent, and that same flag for each of its ancestors (outermost first).
pub struct TreeEntry {
    pub pid: u32,
    pub is_last: bool,
    pub parent_last_flags: Seq<bool>,
}

/// The entries for the children `kids` of `parent`, in the order they are
/// put on the work stack (the last child first, so the first child comes out first).
pub open spec fn child_entries(parent: TreeEntry, kids: Seq<u32>) -> Seq<TreeEntry> {
    Seq::new(
        kids.len(),
        |k: int|
            TreeEntry {
                pid: kids[kids.len() - 1 - k],
                is_last: k == 0,
                parent_last_flags: parent.parent_last_flags.push(parent.is_last),
            },
    )
}

/// The entries for the roots, in the order they are put on the work stack.
pub open spec fn root_entries(roots: Seq<u32>) -> Seq<TreeEntry> {
    Seq::new(
        roots.len(),
        |k: int|
            TreeEntry { pid: roots[roots.len() - 1 - k], is_last: true, parent_last_flags: Seq::empty() },
    )
}

/// The name shown for `pid`.
pub open spec fn display_name(names: Map<u32, Seq<char>>, pid: u32) -> Seq<char> {
    if names.contains_key(pid) {
        names[pid]
    } else {
        "<unknown>"@
    }
}

/// Whether `pid` is shown: with a keyword, its lower-cased name contains the
/// keyword or some process below it has such a name.
pub open spec fn shown_in_tree(
    procs: Seq<ProcessSnapshot>,
    keyword: Option<Seq<char>>,
    pid: u32,
) -> bool {
    match keyword {
        None => true,
        Some(k) => contains_text(lowercase(display_name(name_table(procs), pid)), k)
            || descendant_matches(child_table(procs), name_table(procs), pid, k),
    }
}

pub proof fn lemma_visit_shrinks(universe: Set<u32>, visited: Set<u32>, pid: u32)
    requires
        universe.finite(),
        universe.contains(pid),
        !visited.contains(pid),
    ensures
        universe.difference(visited.insert(pid)).len() < universe.difference(visited).len(),
{
    vstd::set::axiom_set_difference_finite(universe, visited);
    assert(universe.difference(visited.insert(pid)) =~= universe.difference(visited).remove(pid));
}

pub proof fn lemma_process_ids_finite(procs: Seq<ProcessSnapshot>)
    ensures
        process_ids(procs).finite(),
{
    vstd::seq_lib::seq_to_set_is_finite(procs.map_values(|p: ProcessSnapshot| p.pid));
}

/// The entries of the tree view still to come, given the work stack (its last
/// entry is taken next) and the ids already taken. An entry whose id was taken
/// before is dropped; a process that is not shown is taken without its subtree.
pub open spec fn tree_walk(
    procs: Seq<ProcessSnapshot>,
    keyword: Option<Seq<char>>,
    stack: Seq<TreeEntry>,
    visited: Set<u32>,
) -> Seq<TreeEntry>
    decreases process_ids(procs).difference(visited).len(), stack.len(),
{
    if stack.len() == 0 {
        Seq::empty()
    } else {
        let node = stack.last();
        let rest = stack.drop_last();
        if visited.contains(node.pid) || !process_ids(procs).contains(node.pid) {
            tree_walk(procs, keyword, rest, visited)
        } else {
            proof {
                lemma_process_ids_finite(procs);
                lemma_visit_shrinks(process_ids(procs), visited, node.pid);
            }
            if shown_in_tree(procs, keyword, node.pid) {
                seq![node] + tree_walk(
                    procs,
                    keyword,
                    rest + child_entries(node, sorted_children(procs, node.pid)),
                    visited.insert(node.pid),
                )
            } else {
                tree_walk(procs, keyword, rest, visited.insert(node.pid))
            }
        }
    }
}

/// The entries of the tree view of `procs`, top to bottom.
pub open spec fn tree_nodes(procs: Seq<ProcessSnapshot>, keyword: Option<Seq<char>>) -> Seq<
    TreeEntry,
> {
    tree_walk(procs, keyword, root_entries(tree_roots(procs)), Set::empty())
}

/// The indentation drawn for the given ancestor flags: a blank column below an
/// ancestor that was a last child, a vertical bar otherwise.
pub open spec fn branch_prefix(flags: Seq<bool>) -> Seq<char>
    decreases flags.len(),
{
    if flags.len() == 0 {
        Seq::empty()
    } else {
        branch_prefix(flags.drop_last()) + if flags.last() {
            "    "@
        } else {
            "│   "@
        }
    }
}

/// The text of one tree line.
pub open spec fn tree_line(name: Seq<char>, pid: u32, is_last: bool, flags: Seq<bool>) -> Seq<
    char,
> {
    let label = name + " (PID: "@ + decimal(pid as nat) + ")"@;
    if flags.len() == 0 {
        label
    } else {
        branch_prefix(flags.skip(1)) + (if is_last {
            "└── "@
        } else {
            "├── "@
        }) + label
    }
}

/// The text of the line for `entry`.
pub open spec fn entry_line(names: Map<u32, Seq<char>>, entry: TreeEntry) -> Seq<char> {
    tree_line(display_name(names, entry.pid), entry.pid, entry.is_last, entry.parent_last_flags)
}

/// The lower-cased filter keyword, if any.
pub open spec fn filter_keyword(filter: Option<String>) -> Option<Seq<char>> {
    match filter {
        Some(f) => Some(lowercase(f@)),
        None => None,
    }
}

/// Every node on the work stack is a listed process, carries its shown name,
/// and has one ancestor flag per level of depth.
spec fn stack_well_placed(
    stack: Seq<TreeNode>,
    all: Seq<ProcessSnapshot>,
    names: Map<u32, Seq<char>>,
) -> bool {
    forall|j: int|
        0 <= j < stack.len() ==> {
            &&& process_ids(all).contains(#[trigger] stack[j].pid)
            &&& stack[j].name@ == display_name(names, stack[j].pid)
            &&& stack[j].depth == stack[j].parent_last_flags@.len()
        }
}

/// A process waiting on the work stack of the tree walk.
struct TreeNode {
    pid: u32,
    name: String,
    depth: usize,
    is_last: bool,
    parent_last_flags: Vec<bool>,
}

spec fn entry_of(node: TreeNode) -> TreeEntry {
    TreeEntry { pid: node.pid, is_last: node.is_last, parent_last_flags: node.parent_last_flags@ }
}

spec fn entries_of(nodes: Seq<TreeNode>) -> Seq<TreeEntry> {
    nodes.map_values(|n: TreeNode| entry_of(n))
}

/// The text of the line for `node`.
fn render_line(node: &TreeNode) -> (r: String)
    requires
        node.depth == node.parent_last_flags@.len(),
    ensures
        r@ == tree_line(node.name@, node.pid, node.is_last, node.parent_last_flags@),
{
    proof {
        reveal_strlit(" (PID: ");
        reveal_strlit(")");
    }
    let mut line = String::new();
    if node.depth != 0 {
        let flags = &node.parent_last_flags;
        let mut i: usize = 1;
        while i < flags.len()
            invariant
                1 <= i <= flags@.len(),
                line@ == branch_prefix(flags@.subrange(1, i as int)),
            decreases flags@.len() - i,
        {
            let ghost before = flags@.subrange(1, i as int);
            if flags[i] {
                line.append("    ");
            } else {
                line.append("│   ");
            }
            assert(flags@.subrange(1, i + 1).drop_last() =~= before);
            i = i + 1;
        }
        assert(flags@.subrange(1, flags@.len() as int) =~= flags@.skip(1));
        if node.is_last {
            line.append("└── ");
        } else {
            line.append("├── ");
        }
    }
    line.append(node.name.as_str());
    line.append(" (PID: ");
    push_decimal(&mut line, node.pid as u64);
    line.append(")");
    line
}

/// The name shown for `pid`: its recorded name, or `<unknown>`.
fn display_name_of(proc_map: &HashMap<u32, String>, pid: u32) -> (r: String)
    ensures
        r@ == display_name(name_texts(proc_map@), pid),
{
    match proc_map.get(&pid) {
        Some(name) => name.clone(),
        None => String::from_str("<unknown>"),
    }
}

proof fn lemma_pid_in_process_ids(procs: Seq<ProcessSnapshot>, i: int)
    requires
        0 <= i < procs.len(),
    ensures
        process_ids(procs).contains(procs[i].pid),
{
    let ids = procs.map_values(|p: ProcessSnapshot| p.pid);
    assert(ids[i] == procs[i].pid);
    assert(ids.contains(procs[i].pid));
}

proof fn lemma_process_ids_prefix(procs: Seq<ProcessSnapshot>, x: u32)
    requires
        procs.len() > 0,
        process_ids(procs.drop_last()).contains(x),
    ensures
        process_ids(procs).contains(x),
{
    let short = procs.drop_last();
    let ids = short.map_values(|p: ProcessSnapshot| p.pid);
    let j = choose|j: int| 0 <= j < ids.len() && ids[j] == x;
    assert(short[j] == procs[j]);
    lemma_pid_in_process_ids(procs, j);
}

/// Every listed child is one of the processes.
proof fn lemma_child_table_pids(procs: Seq<ProcessSnapshot>, parent: u32, x: u32)
    requires
        child_table(procs).contains_key(parent),
        child_table(procs)[parent].contains(x),
    ensures
        process_ids(procs).contains(x),
    decreases procs.len(),
{
    let m = child_table(procs.drop_last());
    let p = procs.last();
    if p.pid != p.parent_pid && parent == p.parent_pid && x == p.pid {
        lemma_pid_in_process_ids(procs, procs.len() - 1);
    } else if p.pid != p.parent_pid && parent == p.parent_pid {
        let siblings = if m.contains_key(p.parent_pid) {
            m[p.parent_pid]
        } else {
            Seq::empty()
        };
        assert(siblings.push(p.pid).contains(x));
        let j = choose|j: int| 0 <= j < siblings.push(p.pid).len() && siblings.push(p.pid)[j] == x;
        assert(j < siblings.len());
        assert(siblings.contains(x));
        lemma_child_table_pids(procs.drop_last(), parent, x);
        lemma_process_ids_prefix(procs, x);
    } else {
        lemma_child_table_pids(procs.drop_last(), parent, x);
        lemma_process_ids_prefix(procs, x);
    }
}

/// Every root candidate is one of the processes.
proof fn lemma_root_candidates_pids(
    procs: Seq<ProcessSnapshot>,
    names: Map<u32, Seq<char>>,
    x: u32,
)
    requires
        root_candidates(procs, names).contains(x),
    ensures
        process_ids(procs).contains(x),
    decreases procs.len(),
{
    let r = root_candidates(procs.drop_last(), names);
    if is_tree_root(procs.last(), names) && x == procs.last().pid {
        lemma_pid_in_process_ids(procs, procs.len() - 1);
    } else {
        if is_tree_root(procs.last(), names) {
            let j = choose|j: int| 0 <= j < r.push(procs.last().pid).len() && r.push(procs.last().pid)[j] == x;
            assert(j < r.len());
            assert(r.contains(x));
        }
        lemma_root_candidates_pids(procs.drop_last(), names, x);
        lemma_process_ids_prefix(procs, x);
    }
}

/// Every element of `s.sort_by(pid_le())` is an element of `s`.
proof fn lemma_sorted_pids_from(s: Seq<u32>, x: u32)
    requires
        s.sort_by(pid_le()).contains(x),
    ensures
        s.contains(x),
{
    lemma_pid_le_total();
    s.lemma_sort_by_ensures(pid_le());
}

/// The lines of the process tree, top to bottom: each root (a process whose
/// parent is not listed, or process 0) and below it its children in ascending
/// order of id, drawn with branch lines. A process is drawn at most once. With a
/// filter, only the processes whose lower-cased name contains the lower-cased
/// filter, or that have such a process below them, are drawn, each with the
/// subtree of processes that qualify in the same way.
pub fn tree_lines(procs: &Vec<ProcessSnapshot>, filter: &Option<String>) -> (r: Vec<String>)
    ensures
        r@.len() == tree_nodes(procs@, filter_keyword(*filter)).len(),
        forall|i: int|
            0 <= i < r@.len() ==> #[trigger] r@[i]@ == entry_line(
                name_table(procs@),
                tree_nodes(procs@, filter_keyword(*filter))[i],
            ),
{
    let ghost all = procs@;
    let ghost keyword = filter_keyword(*filter);
    // parent -> children and pid -> name
    let mut children_map: HashMap<u32, Vec<u32>> = HashMap::new();
    let mut proc_map: HashMap<u32, String> = HashMap::new();
    let mut i: usize = 0;
    assert(all.take(0) =~= Seq::<ProcessSnapshot>::empty());
    assert(child_lists(children_map@) =~= Map::empty());
    assert(name_texts(proc_map@) =~= Map::empty());
    while i < procs.len()
        invariant
            all == procs@,
            0 <= i <= all.len(),
            child_lists(children_map@) == child_table(all.take(i as int)),
            name_texts(proc_map@) == name_table(all.take(i as int)),
        decreases all.len() - i,
    {
        let p = &procs[i];
        assert(all.take(i + 1).drop_last() =~= all.take(i as int));
        assert(all.take(i + 1).last() == *p);
        let ghost names_before = proc_map@;
        proc_map.insert(p.pid, p.name.clone());
        assert(name_texts(proc_map@) =~= name_texts(names_before).insert(p.pid, p.name@));
        if p.pid != p.parent_pid {
            let ghost kids_before = children_map@;
            let siblings = children_map.entry(p.parent_pid).or_insert(Vec::new());
            siblings.push(p.pid);
            assert(child_lists(children_map@) =~= child_table(all.take(i + 1)));
        }
        i = i + 1;
    }
    assert(all.take(all.len() as int) =~= all);
    let ghost names = name_table(all);
    let ghost children = child_table(all);
    // roots, in ascending order of id
    let mut roots: Vec<u32> = Vec::new();
    let mut i: usize = 0;
    while i < procs.len()
        invariant
            all == procs@,
            0 <= i <= all.len(),
            name_texts(proc_map@) == names,
            roots@ == root_candidates(all.take(i as int), names),
        decreases all.len() - i,
    {
        let p = &procs[i];
        assert(all.take(i + 1).drop_last() =~= all.take(i as int));
        assert(all.take(i + 1).last() == *p);
        if p.pid == 0 || p.parent_pid == 0 || !proc_map.contains_key(&p.parent_pid) {
            roots.push(p.pid);
        }
        i = i + 1;
    }
    sort_pids(&mut roots);
    proof {
        assert forall|x: u32| roots@.contains(x) implies process_ids(all).contains(x) by {
            lemma_sorted_pids_from(root_candidates(all, names), x);
            lemma_root_candidates_pids(all, names, x);
        }
        lemma_process_ids_finite(all);
    }
    let filter_lower: Option<String> = match filter {
        Some(f) => Some(to_lowercase(f.as_str())),
        None => None,
    };
    // the work stack holds the roots with the first root on top
    let mut stack: Vec<TreeNode> = Vec::new();
    let n = roots.len();
    let mut k: usize = 0;
    while k < n
        invariant
            n == roots@.len(),
            0 <= k <= n,
            name_texts(proc_map@) == names,
            forall|x: u32| roots@.contains(x) ==> process_ids(all).contains(x),
            entries_of(stack@) == root_entries(roots@).take(k as int),
            stack@.len() == k,
            stack_well_placed(stack@, all, names),
        decreases n - k,
    {
        let pid = roots[n - 1 - k];
        assert(roots@.contains(pid));
        let ghost before = stack@;
        stack.push(
            TreeNode {
                pid,
                name: display_name_of(&proc_map, pid),
                depth: 0,
                is_last: true,
                parent_last_flags: Vec::new(),
            },
        );
        assert(entries_of(stack@) =~= root_entries(roots@).take(k + 1)) by {
            assert forall|j: int| 0 <= j < k + 1 implies #[trigger] entries_of(stack@)[j]
                == root_entries(roots@)[j] by {
                if j < k {
                    assert(stack@[j] == before[j]);
                    assert(entries_of(before)[j] == root_entries(roots@).take(k as int)[j]);
                } else {
                    assert(stack@[j].parent_last_flags@ =~= Seq::<bool>::empty());
                }
            }
        }
        k = k + 1;
    }
    assert(root_entries(roots@).take(n as int) =~= root_entries(roots@));
    let mut visited: HashSet<u32> = HashSet::new();
    let mut lines: Vec<String> = Vec::new();
    let ghost mut emitted: Seq<TreeEntry> = Seq::empty();
    assert(emitted + tree_walk(all, keyword, entries_of(stack@), visited@) =~= tree_nodes(
        all,
        keyword,
    ));
    loop
        invariant
            all == procs@,
            keyword == filter_keyword(*filter),
            match filter_lower {
                Some(f) => keyword == Some(f@),
                None => keyword is None,
            },
            child_lists(children_map@) == children,
            children == child_table(all),
            name_texts(proc_map@) == names,
            names == name_table(all),
            process_ids(all).finite(),
            stack_well_placed(stack@, all, names),
            emitted + tree_walk(all, keyword, entries_of(stack@), visited@) == tree_nodes(
                all,
                keyword,
            ),
            lines@.len() == emitted.len(),
            forall|j: int| 0 <= j < lines@.len() ==> #[trigger] lines@[j]@ == entry_line(names, emitted[j]),
        decreases process_ids(all).difference(visited@).len(), stack@.len(),
    {
        let ghost stack_before = stack@;
        match stack.pop() {
            None => {
                assert(emitted =~= tree_nodes(all, keyword));
                return lines;
            },
            Some(node) => {
                let ghost rest = entries_of(stack@);
                proof {
                    assert(stack_before =~= stack@.push(node));
                    assert(entries_of(stack_before).drop_last() =~= rest);
                    assert(entries_of(stack_before).last() == entry_of(node));
                    assert(process_ids(all).contains(stack_before[stack_before.len() - 1].pid));
                    assert forall|j: int| 0 <= j < stack@.len() implies {
                        &&& process_ids(all).contains(#[trigger] stack@[j].pid)
                        &&& stack@[j].name@ == display_name(names, stack@[j].pid)
                        &&& stack@[j].depth == stack@[j].parent_last_flags@.len()
                    } by {
                        assert(stack@[j] == stack_before[j]);
                    }
                    assert(node == stack_before[stack_before.len() - 1]);
                }
                let ghost visited_before = visited@;
                if !visited.insert(node.pid) {
                    assert(visited@ =~= visited_before);
                    continue;
                }
                proof {
                    lemma_visit_shrinks(process_ids(all), visited_before, node.pid);
                }
                let shown = match &filter_lower {
                    None => true,
                    Some(kw) => {
                        let lowered = to_lowercase(node.name.as_str());
                        text_contains(lowered.as_str(), kw.as_str()) || has_matching_descendant(
                            node.pid,
                            &children_map,
                            &proc_map,
                            kw.as_str(),
                        )
                    },
                };
                assert(shown == shown_in_tree(all, keyword, node.pid));
                if !shown {
                    continue;
                }
                lines.push(render_line(&node));
                proof {
                    emitted = emitted.push(entry_of(node));
                }
                let ghost pushed = stack@;
                match children_map.get(&node.pid) {
                    None => {
                        assert(!children.contains_key(node.pid));
                        assert(child_entries(entry_of(node), sorted_children(all, node.pid)) =~= Seq::<TreeEntry>::empty());
                        assert(rest + child_entries(entry_of(node), sorted_children(all, node.pid)) =~= entries_of(stack@));
                    },
                    Some(kid_list) => {
                        assert(children_map@.contains_key(node.pid) && children_map@[node.pid] == *kid_list);
                        assert(children[node.pid] == kid_list@);
                        let mut kids: Vec<u32> = Vec::new();
                        let mut c: usize = 0;
                        while c < kid_list.len()
                            invariant
                                0 <= c <= kid_list@.len(),
                                kids@ == kid_list@.take(c as int),
                            decreases kid_list@.len() - c,
                        {
                            kids.push(kid_list[c]);
                            assert(kid_list@.take(c + 1) =~= kid_list@.take(c as int).push(kid_list@[c as int]));
                            c = c + 1;
                        }
                        assert(kid_list@.take(kid_list@.len() as int) =~= kid_list@);
                        sort_pids(&mut kids);
                        let ghost sorted = sorted_children(all, node.pid);
                        assert(kids@ == sorted);
                        let ghost entries = child_entries(entry_of(node), sorted);
                        let m = kids.len();
                        let mut k: usize = 0;
                        while k < m
                            invariant
                                m == kids@.len(),
                                kids@ == sorted,
                                sorted == sorted_children(all, node.pid),
                                children == child_table(all),
                                children.contains_key(node.pid),
                                entries == child_entries(entry_of(node), sorted),
                                0 <= k <= m,
                                name_texts(proc_map@) == names,
                                node.depth == node.parent_last_flags@.len(),
                                entries_of(stack@) == rest + entries.take(k as int),
                                stack@.len() == rest.len() + k,
                                entries.len() == m,
                                stack_well_placed(stack@, all, names),
                            decreases m - k,
                        {
                            let idx = m - 1 - k;
                            let child = kids[idx];
                            proof {
                                lemma_sorted_pids_from(children[node.pid], child);
                                lemma_child_table_pids(all, node.pid, child);
                            }
                            let mut flags = node.parent_last_flags.clone();
                            assert(flags@ =~= node.parent_last_flags@);
                            flags.push(node.is_last);
                            let depth = flags.len();
                            let ghost before = stack@;
                            stack.push(
                                TreeNode {
                                    pid: child,
                                    name: display_name_of(&proc_map, child),
                                    depth,
                                    is_last: idx == m - 1,
                                    parent_last_flags: flags,
                                },
                            );
                            assert(entries_of(stack@) =~= rest + entries.take(k + 1)) by {
                                assert forall|j: int| 0 <= j < stack@.len() implies #[trigger] entries_of(stack@)[j]
                                    == (rest + entries.take(k + 1))[j] by {
                                    if j < before.len() {
                                        assert(stack@[j] == before[j]);
                                        assert(entries_of(before)[j] == (rest + entries.take(k as int))[j]);
                                    }
                                }
                            }
                            k = k + 1;
                        }
                        assert(entries.take(m as int) =~= entries);
                    },
                }
                assert(stack_well_placed(stack@, all, names));
            },
        }
    }
}

/// What every stretch of the tree walk keeps: it lists only processes that are
/// listed in `procs`, not yet visited and shown under the keyword, each at most once.
pub proof fn lemma_tree_walk_entries(
    procs: Seq<ProcessSnapshot>,
    keyword: Option<Seq<char>>,
    stack: Seq<TreeEntry>,
    visited: Set<u32>,
)
    ensures
        forall|i: int|
            0 <= i < tree_walk(procs, keyword, stack, visited).len() ==> {
                let pid = #[trigger] tree_walk(procs, keyword, stack, visited)[i].pid;
                &&& process_ids(procs).contains(pid)
                &&& !visited.contains(pid)
                &&& shown_in_tree(procs, keyword, pid)
            },
        forall|i: int, j: int|
            0 <= i < j < tree_walk(procs, keyword, stack, visited).len() ==> #[trigger] tree_walk(
                procs,
                keyword,
                stack,
                visited,
            )[i].pid != #[trigger] tree_walk(procs, keyword, stack, visited)[j].pid,
    decreases process_ids(procs).difference(visited).len(), stack.len(),
{
    if stack.len() > 0 {
        let node = stack.last();
        let rest = stack.drop_last();
        if visited.contains(node.pid) || !process_ids(procs).contains(node.pid) {
            lemma_tree_walk_entries(procs, keyword, rest, visited);
            assert(tree_walk(procs, keyword, stack, visited) == tree_walk(
                procs,
                keyword,
                rest,
                visited,
            ));
        } else {
            lemma_process_ids_finite(procs);
            lemma_visit_shrinks(process_ids(procs), visited, node.pid);
            let v2 = visited.insert(node.pid);
            if shown_in_tree(procs, keyword, node.pid) {
                let next = rest + child_entries(node, sorted_children(procs, node.pid));
                lemma_tree_walk_entries(procs, keyword, next, v2);
                let tail = tree_walk(procs, keyword, next, v2);
                let out = tree_walk(procs, keyword, stack, visited);
                assert(out == seq![node] + tail);
                assert forall|i: int| 0 <= i < out.len() implies {
                    let pid = #[trigger] out[i].pid;
                    &&& process_ids(procs).contains(pid)
                    &&& !visited.contains(pid)
                    &&& shown_in_tree(procs, keyword, pid)
                } by {
                    if i > 0 {
                        assert(out[i] == tail[i - 1]);
                    }
                }
                assert forall|i: int, j: int| 0 <= i < j < out.len() implies #[trigger] out[i].pid
                    != #[trigger] out[j].pid by {
                    assert(out[j] == tail[j - 1]);
                    if i > 0 {
                        assert(out[i] == tail[i - 1]);
                    } else {
                        assert(!v2.contains(tail[j - 1].pid));
                    }
                }
            } else {
                lemma_tree_walk_entries(procs, keyword, rest, v2);
                assert(tree_walk(procs, keyword, stack, visited) == tree_walk(
                    procs,
                    keyword,
                    rest,
                    v2,
                ));
            }
        }
    }
}

/// No process appears twice in the tree view, and every process in it is one
/// of the listed processes.
pub proof fn lemma_tree_lists_each_process_once(
    procs: Seq<ProcessSnapshot>,
    keyword: Option<Seq<char>>,
)
    ensures
        forall|i: int|
            0 <= i < tree_nodes(procs, keyword).len() ==> process_ids(procs).contains(
                #[trigger] tree_nodes(procs, keyword)[i].pid,
            ),
        forall|i: int, j: int|
            0 <= i < j < tree_nodes(procs, keyword).len() ==> #[trigger] tree_nodes(
                procs,
                keyword,
            )[i].pid != #[trigger] tree_nodes(procs, keyword)[j].pid,
{
    lemma_tree_walk_entries(procs, keyword, root_entries(tree_roots(procs)), Set::empty());
}

/// With a filter keyword, every process in the tree view has a lower-cased name
/// that contains the keyword, or some process below it has one.
pub proof fn lemma_tree_filter_keeps_matches(procs: Seq<ProcessSnapshot>, keyword: Seq<char>)
    ensures
        forall|i: int|
            0 <= i < tree_nodes(procs, Some(keyword)).len() ==> {
                let pid = #[trigger] tree_nodes(procs, Some(keyword))[i].pid;
                contains_text(lowercase(display_name(name_table(procs), pid)), keyword)
                    || descendant_matches(child_table(procs), name_table(procs), pid, keyword)
            },
{
    lemma_tree_walk_entries(procs, Some(keyword), root_entries(tree_roots(procs)), Set::empty());
}

/// `pid` is among the entries of `nodes`.
pub open spec fn drawn(nodes: Seq<TreeEntry>, pid: u32) -> bool {
    exists|k: int| 0 <= k < nodes.len() && #[trigger] nodes[k].pid == pid
}

/// Without a keyword, the walk reaches everything below what it is given:
/// each listed process on the stack was visited before or is drawn, and so is
/// each child of a drawn process.
proof fn lemma_tree_walk_complete(
    procs: Seq<ProcessSnapshot>,
    stack: Seq<TreeEntry>,
    visited: Set<u32>,
)
    ensures
        forall|j: int|
            0 <= j < stack.len() && process_ids(procs).contains(#[trigger] stack[j].pid) ==> (
            visited.contains(stack[j].pid) || drawn(tree_walk(procs, None, stack, visited), stack[j].pid)),
        forall|i: int, c: u32|
            0 <= i < tree_walk(procs, None, stack, visited).len() && #[trigger] sorted_children(
                procs,
                tree_walk(procs, None, stack, visited)[i].pid,
            ).contains(c) ==> (visited.contains(c) || drawn(tree_walk(procs, None, stack, visited), c)),
    decreases process_ids(procs).difference(visited).len(), stack.len(),
{
    let out = tree_walk(procs, None, stack, visited);
    if stack.len() > 0 {
        let node = stack.last();
        let rest = stack.drop_last();
        if visited.contains(node.pid) || !process_ids(procs).contains(node.pid) {
            lemma_tree_walk_complete(procs, rest, visited);
            assert(out == tree_walk(procs, None, rest, visited));
            assert forall|j: int|
                0 <= j < stack.len() && process_ids(procs).contains(#[trigger] stack[j].pid) implies (
                visited.contains(stack[j].pid) || drawn(out, stack[j].pid)) by {
                if j < rest.len() {
                    assert(stack[j] == rest[j]);
                }
            }
        } else {
            lemma_process_ids_finite(procs);
            lemma_visit_shrinks(process_ids(procs), visited, node.pid);
            let v2 = visited.insert(node.pid);
            let kids = sorted_children(procs, node.pid);
            let next = rest + child_entries(node, kids);
            lemma_tree_walk_complete(procs, next, v2);
            let tail = tree_walk(procs, None, next, v2);
            assert(out == seq![node] + tail);
            assert(out[0].pid == node.pid);
            assert forall|x: u32| drawn(tail, x) implies drawn(out, x) by {
                let k = choose|k: int| 0 <= k < tail.len() && #[trigger] tail[k].pid == x;
                assert(out[k + 1] == tail[k]);
            }
            assert forall|j: int|
                0 <= j < stack.len() && process_ids(procs).contains(#[trigger] stack[j].pid) implies (
                visited.contains(stack[j].pid) || drawn(out, stack[j].pid)) by {
                if j < rest.len() {
                    assert(stack[j] == rest[j]);
                    assert(next[j] == rest[j]);
                } else {
                    assert(stack[j] == node);
                }
            }
            assert forall|i: int, c: u32|
                0 <= i < out.len() && #[trigger] sorted_children(procs, out[i].pid).contains(c) implies (
                visited.contains(c) || drawn(out, c)) by {
                if i == 0 {
                    let m = choose|m: int| 0 <= m < kids.len() && kids[m] == c;
                    let t = child_table(procs);
                    assert(t.contains_key(node.pid));
                    lemma_sorted_pids_from(t[node.pid], c);
                    lemma_child_table_pids(procs, node.pid, c);
                    let j = rest.len() + (kids.len() - 1 - m);
                    assert(next[j] == child_entries(node, kids)[kids.len() - 1 - m]);
                    assert(next[j].pid == c);
                } else {
                    assert(out[i] == tail[i - 1]);
                }
            }
        }
    }
}

/// Without a filter, the tree view draws every root and every child of a
/// process it draws: everything below the roots appears.
pub proof fn lemma_tree_without_filter_is_complete(procs: Seq<ProcessSnapshot>)
    ensures
        forall|x: u32| #[trigger] tree_roots(procs).contains(x) ==> drawn(tree_nodes(procs, None), x),
        forall|i: int, c: u32|
            0 <= i < tree_nodes(procs, None).len() && #[trigger] sorted_children(
                procs,
                tree_nodes(procs, None)[i].pid,
            ).contains(c) ==> drawn(tree_nodes(procs, None), c),
{
    let roots = tree_roots(procs);
    let stack = root_entries(roots);
    lemma_tree_walk_complete(procs, stack, Set::empty());
    assert forall|x: u32| #[trigger] roots.contains(x) implies drawn(tree_nodes(procs, None), x) by {
        let m = choose|m: int| 0 <= m < roots.len() && roots[m] == x;
        lemma_sorted_pids_from(root_candidates(procs, name_table(procs)), x);
        lemma_root_candidates_pids(procs, name_table(procs), x);
        let j = roots.len() - 1 - m;
        assert(stack[j].pid == x);
    }
}

/// The entries of `nodes` whose process is shown under `keyword`, in order.
pub open spec fn keep_shown(
    procs: Seq<ProcessSnapshot>,
    keyword: Option<Seq<char>>,
    nodes: Seq<TreeEntry>,
) -> Seq<TreeEntry>
    decreases nodes.len(),
{
    if nodes.len() == 0 {
        Seq::empty()
    } else {
        let rest = keep_shown(procs, keyword, nodes.drop_first());
        if shown_in_tree(procs, keyword, nodes[0].pid) {
            seq![nodes[0]] + rest
        } else {
            rest
        }
    }
}

/// `stack` is `kept` with entries of hidden processes put in between.
spec fn padded_with_hidden(
    procs: Seq<ProcessSnapshot>,
    keyword: Seq<char>,
    stack: Seq<TreeEntry>,
    kept: Seq<TreeEntry>,
) -> bool
    decreases stack.len(),
{
    if stack.len() == 0 {
        kept.len() == 0
    } else {
        (!shown_in_tree(procs, Some(keyword), stack.last().pid) && padded_with_hidden(
            procs,
            keyword,
            stack.drop_last(),
            kept,
        )) || (kept.len() > 0 && stack.last() == kept.last() && padded_with_hidden(
            procs,
            keyword,
            stack.drop_last(),
            kept.drop_last(),
        ))
    }
}

proof fn lemma_padded_append_same(
    procs: Seq<ProcessSnapshot>,
    keyword: Seq<char>,
    stack: Seq<TreeEntry>,
    kept: Seq<TreeEntry>,
    more: Seq<TreeEntry>,
)
    requires
        padded_with_hidden(procs, keyword, stack, kept),
    ensures
        padded_with_hidden(procs, keyword, stack + more, kept + more),
    decreases more.len(),
{
    if more.len() > 0 {
        lemma_padded_append_same(procs, keyword, stack, kept, more.drop_last());
        assert((stack + more).drop_last() =~= stack + more.drop_last());
        assert((kept + more).drop_last() =~= kept + more.drop_last());
    } else {
        assert(stack + more =~= stack);
        assert(kept + more =~= kept);
    }
}

proof fn lemma_padded_append_hidden(
    procs: Seq<ProcessSnapshot>,
    keyword: Seq<char>,
    stack: Seq<TreeEntry>,
    kept: Seq<TreeEntry>,
    more: Seq<TreeEntry>,
)
    requires
        padded_with_hidden(procs, keyword, stack, kept),
        forall|k: int| 0 <= k < more.len() ==> !shown_in_tree(procs, Some(keyword), #[trigger] more[k].pid),
    ensures
        padded_with_hidden(procs, keyword, stack + more, kept),
    decreases more.len(),
{
    if more.len() > 0 {
        lemma_padded_append_hidden(procs, keyword, stack, kept, more.drop_last());
        assert((stack + more).drop_last() =~= stack + more.drop_last());
        assert((stack + more).last() == more[more.len() - 1]);
    } else {
        assert(stack + more =~= stack);
    }
}

proof fn lemma_process_ids_named(procs: Seq<ProcessSnapshot>, x: u32)
    requires
        process_ids(procs).contains(x),
    ensures
        name_table(procs).contains_key(x),
    decreases procs.len(),
{
    let ids = procs.map_values(|p: ProcessSnapshot| p.pid);
    let j = choose|j: int| 0 <= j < ids.len() && ids[j] == x;
    if procs.last().pid != x {
        assert(j < procs.len() - 1);
        let short = procs.drop_last();
        assert(short.map_values(|p: ProcessSnapshot| p.pid)[j] == x);
        lemma_process_ids_named(short, x);
    }
}

/// Below a process that is not shown, no process is shown.
proof fn lemma_hidden_children(procs: Seq<ProcessSnapshot>, keyword: Seq<char>, pid: u32, c: u32)
    requires
        !shown_in_tree(procs, Some(keyword), pid),
        sorted_children(procs, pid).contains(c),
    ensures
        !shown_in_tree(procs, Some(keyword), c),
{
    let t = child_table(procs);
    let names = name_table(procs);
    lemma_sorted_pids_from(t[pid], c);
    lemma_child_table_pids(procs, pid, c);
    lemma_process_ids_named(procs, c);
    assert(child_link(t, pid, c));
    let two = seq![pid, c];
    assert(follows_children(t, two)) by {
        assert forall|i: int| 0 <= i < two.len() - 1 implies #[trigger] child_link(t, two[i], two[i + 1]) by {
            assert(i == 0);
        }
    }
    assert(display_name(names, c) == name_or_empty(names, c));
    if descendant_matches(t, names, c, keyword) {
        let path = choose|path: Seq<u32>|
            #![trigger follows_children(t, path)]
            path.len() >= 2 && path[0] == c && follows_children(t, path) && contains_text(
                lowercase(name_or_empty(names, path.last())),
                keyword,
            );
        let longer = seq![pid] + path;
        assert(follows_children(t, longer)) by {
            assert forall|i: int| 0 <= i < longer.len() - 1 implies #[trigger] child_link(
                t,
                longer[i],
                longer[i + 1],
            ) by {
                if i > 0 {
                    let k = i - 1;
                    assert(child_link(t, path[k], path[k + 1]));
                }
            }
        }
        assert(longer.last() == path.last());
    }
    if contains_text(lowercase(display_name(names, c)), keyword) {
        assert(two.last() == c);
    }
}

proof fn lemma_hidden_child_entries(
    procs: Seq<ProcessSnapshot>,
    keyword: Seq<char>,
    node: TreeEntry,
)
    requires
        !shown_in_tree(procs, Some(keyword), node.pid),
    ensures
        forall|k: int|
            0 <= k < child_entries(node, sorted_children(procs, node.pid)).len() ==> !shown_in_tree(
                procs,
                Some(keyword),
                #[trigger] child_entries(node, sorted_children(procs, node.pid))[k].pid,
            ),
{
    let kids = sorted_children(procs, node.pid);
    assert forall|k: int| 0 <= k < child_entries(node, kids).len() implies !shown_in_tree(
        procs,
        Some(keyword),
        #[trigger] child_entries(node, kids)[k].pid,
    ) by {
        let m = kids.len() - 1 - k;
        assert(kids[m] == child_entries(node, kids)[k].pid);
        assert(kids.contains(kids[m]));
        lemma_hidden_children(procs, keyword, node.pid, kids[m]);
    }
}

proof fn lemma_keep_shown_front(
    procs: Seq<ProcessSnapshot>,
    keyword: Option<Seq<char>>,
    node: TreeEntry,
    tail: Seq<TreeEntry>,
)
    ensures
        keep_shown(procs, keyword, seq![node] + tail) == if shown_in_tree(procs, keyword, node.pid) {
            seq![node] + keep_shown(procs, keyword, tail)
        } else {
            keep_shown(procs, keyword, tail)
        },
{
    assert((seq![node] + tail).drop_first() =~= tail);
    assert((seq![node] + tail)[0] == node);
}

/// The walk with a keyword draws what the walk without one draws, less the
/// processes that are not shown, when its stack is the other's stack less
/// hidden entries and both have visited the same shown processes.
proof fn lemma_filtered_walk(
    procs: Seq<ProcessSnapshot>,
    keyword: Seq<char>,
    all_stack: Seq<TreeEntry>,
    stack: Seq<TreeEntry>,
    all_visited: Set<u32>,
    visited: Set<u32>,
)
    requires
        padded_with_hidden(procs, keyword, all_stack, stack),
        forall|x: u32|
            shown_in_tree(procs, Some(keyword), x) ==> (#[trigger] all_visited.contains(x)
                <==> visited.contains(x)),
    ensures
        tree_walk(procs, Some(keyword), stack, visited) == keep_shown(
            procs,
            Some(keyword),
            tree_walk(procs, None, all_stack, all_visited),
        ),
    decreases process_ids(procs).difference(all_visited).len(), all_stack.len(),
{
    let kw = Some(keyword);
    let u = process_ids(procs);
    lemma_process_ids_finite(procs);
    if all_stack.len() == 0 {
        assert(stack.len() == 0);
        assert(keep_shown(procs, kw, Seq::<TreeEntry>::empty()) == Seq::<TreeEntry>::empty());
    } else {
        let e = all_stack.last();
        let rest_all = all_stack.drop_last();
        let shared = stack.len() > 0 && e == stack.last() && padded_with_hidden(
            procs,
            keyword,
            rest_all,
            stack.drop_last(),
        );
        let kids = child_entries(e, sorted_children(procs, e.pid));
        let all_out = tree_walk(procs, None, all_stack, all_visited);
        if !shared {
            // `e` is a hidden entry that only the walk without keyword has
            assert(!shown_in_tree(procs, kw, e.pid));
            if all_visited.contains(e.pid) || !u.contains(e.pid) {
                lemma_filtered_walk(procs, keyword, rest_all, stack, all_visited, visited);
            } else {
                lemma_visit_shrinks(u, all_visited, e.pid);
                lemma_hidden_child_entries(procs, keyword, e);
                lemma_padded_append_hidden(procs, keyword, rest_all, stack, kids);
                lemma_filtered_walk(procs, keyword, rest_all + kids, stack, all_visited.insert(e.pid), visited);
                lemma_keep_shown_front(procs, None, e, tree_walk(procs, None, rest_all + kids, all_visited.insert(e.pid)));
                lemma_keep_shown_front(procs, kw, e, tree_walk(procs, None, rest_all + kids, all_visited.insert(e.pid)));
            }
        } else {
            let rest = stack.drop_last();
            if !u.contains(e.pid) {
                lemma_filtered_walk(procs, keyword, rest_all, rest, all_visited, visited);
            } else if shown_in_tree(procs, kw, e.pid) {
                if all_visited.contains(e.pid) {
                    lemma_filtered_walk(procs, keyword, rest_all, rest, all_visited, visited);
                } else {
                    lemma_visit_shrinks(u, all_visited, e.pid);
                    lemma_padded_append_same(procs, keyword, rest_all, rest, kids);
                    lemma_filtered_walk(
                        procs,
                        keyword,
                        rest_all + kids,
                        rest + kids,
                        all_visited.insert(e.pid),
                        visited.insert(e.pid),
                    );
                    lemma_keep_shown_front(procs, kw, e, tree_walk(procs, None, rest_all + kids, all_visited.insert(e.pid)));
                }
            } else {
                let v2 = if visited.contains(e.pid) {
                    visited
                } else {
                    visited.insert(e.pid)
                };
                assert(tree_walk(procs, kw, stack, visited) == tree_walk(procs, kw, rest, v2));
                if all_visited.contains(e.pid) {
                    lemma_filtered_walk(procs, keyword, rest_all, rest, all_visited, v2);
                } else {
                    lemma_visit_shrinks(u, all_visited, e.pid);
                    lemma_hidden_child_entries(procs, keyword, e);
                    lemma_padded_append_hidden(procs, keyword, rest_all, rest, kids);
                    lemma_filtered_walk(procs, keyword, rest_all + kids, rest, all_visited.insert(e.pid), v2);
                    lemma_keep_shown_front(procs, kw, e, tree_walk(procs, None, rest_all + kids, all_visited.insert(e.pid)));
                }
            }
        }
    }
}

/// With a filter, the tree view is the tree view without one, less the
/// processes that are not shown: every kept line is drawn exactly as it is
/// without the filter, and in the same order.
pub proof fn lemma_tree_filter_is_sublist(procs: Seq<ProcessSnapshot>, keyword: Seq<char>)
    ensures
        tree_nodes(procs, Some(keyword)) == keep_shown(procs, Some(keyword), tree_nodes(procs, None)),
{
    let start = root_entries(tree_roots(procs));
    assert(padded_with_hidden(procs, keyword, Seq::<TreeEntry>::empty(), Seq::<TreeEntry>::empty()));
    lemma_padded_append_same(
        procs,
        keyword,
        Seq::<TreeEntry>::empty(),
        Seq::<TreeEntry>::empty(),
        start,
    );
    assert(Seq::<TreeEntry>::empty() + start =~= start);
    lemma_filtered_walk(procs, keyword, start, start, Set::empty(), Set::empty());

}

/// No two snapshots in `procs` carry the same id.
pub open spec fn distinct_pids(procs: Seq<ProcessSnapshot>) -> bool {
    forall|i: int, j: int| 0 <= i < j < procs.len() ==> #[trigger] procs[i].pid != #[trigger] procs[j].pid
}

/// `e` is listed as a child of `parent`.
spec fn child_entry_of(e: ProcessSnapshot, parent: u32) -> bool {
    e.parent_pid == parent && e.pid != e.parent_pid
}

proof fn lemma_distinct_prefix(procs: Seq<ProcessSnapshot>)
    requires
        procs.len() > 0,
        distinct_pids(procs),
    ensures
        distinct_pids(procs.drop_last()),
        forall|i: int| 0 <= i < procs.len() - 1 ==> #[trigger] procs[i].pid != procs.last().pid,
{
    assert forall|i: int| 0 <= i < procs.len() - 1 implies #[trigger] procs[i].pid != procs.last().pid by {
        assert(procs[i].pid != procs[procs.len() - 1].pid);
    }
    let short = procs.drop_last();
    assert forall|i: int, j: int| 0 <= i < j < short.len() implies #[trigger] short[i].pid
        != #[trigger] short[j].pid by {
        assert(procs[i].pid != procs[j].pid);
    }
}

/// What the child table lists, entry by entry; with distinct ids no child is
/// listed twice.
proof fn lemma_child_table_entries(procs: Seq<ProcessSnapshot>, k: u32)
    ensures
        forall|x: u32|
            (child_table(procs).contains_key(k) && child_table(procs)[k].contains(x)) <==> exists|i: int|
                0 <= i < procs.len() && #[trigger] procs[i].pid == x && child_entry_of(procs[i], k),
        child_table(procs).contains_key(k) <==> exists|i: int|
            0 <= i < procs.len() && child_entry_of(#[trigger] procs[i], k),
        distinct_pids(procs) && child_table(procs).contains_key(k) ==> child_table(procs)[k].no_duplicates(),
    decreases procs.len(),
{
    if procs.len() > 0 {
        let short = procs.drop_last();
        let last = procs.last();
        let n = procs.len() - 1;
        lemma_child_table_entries(short, k);
        let m = child_table(short);
        assert forall|i: int| 0 <= i < n implies #[trigger] short[i] == procs[i] by {}
        assert forall|x: u32|
            (child_table(procs).contains_key(k) && child_table(procs)[k].contains(x)) <==> exists|i: int|
                0 <= i < procs.len() && #[trigger] procs[i].pid == x && child_entry_of(procs[i], k) by {
            if exists|i: int| 0 <= i < procs.len() && #[trigger] procs[i].pid == x && child_entry_of(procs[i], k) {
                let i = choose|i: int| 0 <= i < procs.len() && #[trigger] procs[i].pid == x && child_entry_of(procs[i], k);
                if i < n {
                    assert(short[i].pid == x && child_entry_of(short[i], k));
                    let kk = m[k];
                    if child_entry_of(last, k) {
                        assert(kk.push(last.pid)[kk.push(last.pid).len() - 1] == last.pid);
                        assert(kk.contains(x));
                        let j = choose|j: int| 0 <= j < kk.len() && kk[j] == x;
                        assert(kk.push(last.pid)[j] == x);
                    }
                } else {
                    assert(procs[n] == last);
                    let sib = if m.contains_key(k) { m[k] } else { Seq::empty() };
                    assert(sib.push(last.pid)[sib.len() as int] == x);
                }
            }
            if child_table(procs).contains_key(k) && child_table(procs)[k].contains(x) {
                if child_entry_of(last, k) {
                    let sib = if m.contains_key(k) { m[k] } else { Seq::empty() };
                    let j = choose|j: int| 0 <= j < sib.push(last.pid).len() && sib.push(last.pid)[j] == x;
                    if j < sib.len() {
                        assert(sib.contains(x));
                        let i = choose|i: int| 0 <= i < short.len() && #[trigger] short[i].pid == x && child_entry_of(short[i], k);
                        assert(procs[i].pid == x);
                    } else {
                        assert(procs[n].pid == x);
                    }
                } else {
                    let i = choose|i: int| 0 <= i < short.len() && #[trigger] short[i].pid == x && child_entry_of(short[i], k);
                    assert(procs[i].pid == x);
                }
            }
        }
        if exists|i: int| 0 <= i < procs.len() && child_entry_of(#[trigger] procs[i], k) {
            let i = choose|i: int| 0 <= i < procs.len() && child_entry_of(#[trigger] procs[i], k);
            if i < n {
                assert(child_entry_of(short[i], k));
            }
        }
        if child_table(procs).contains_key(k) && !child_entry_of(last, k) {
            let i = choose|i: int| 0 <= i < short.len() && child_entry_of(#[trigger] short[i], k);
            assert(child_entry_of(procs[i], k));
        }
        if child_table(procs).contains_key(k) && child_entry_of(last, k) {
            assert(child_entry_of(procs[n], k));
        }
        if distinct_pids(procs) && child_table(procs).contains_key(k) {
            lemma_distinct_prefix(procs);
            if child_entry_of(last, k) {
                let sib = if m.contains_key(k) { m[k] } else { Seq::empty() };
                let l = sib.push(last.pid);
                assert forall|a: int, b: int| 0 <= a < l.len() && 0 <= b < l.len() && a != b implies l[a]
                    != l[b] by {
                    if a < sib.len() && b < sib.len() {
                    } else if a < sib.len() {
                        assert(sib.contains(sib[a]));
                        let i = choose|i: int| 0 <= i < short.len() && #[trigger] short[i].pid == sib[a] && child_entry_of(short[i], k);
                        assert(procs[i].pid != last.pid);
                    } else if b < sib.len() {
                        assert(sib.contains(sib[b]));
                        let i = choose|i: int| 0 <= i < short.len() && #[trigger] short[i].pid == sib[b] && child_entry_of(short[i], k);
                        assert(procs[i].pid != last.pid);
                    }
                }
            }
        }
    }
}

/// What the root candidates are, entry by entry; with distinct ids none is
/// listed twice.
proof fn lemma_root_candidate_entries(procs: Seq<ProcessSnapshot>, names: Map<u32, Seq<char>>)
    ensures
        forall|x: u32|
            root_candidates(procs, names).contains(x) <==> exists|i: int|
                0 <= i < procs.len() && #[trigger] procs[i].pid == x && is_tree_root(procs[i], names),
        distinct_pids(procs) ==> root_candidates(procs, names).no_duplicates(),
    decreases procs.len(),
{
    if procs.len() > 0 {
        let short = procs.drop_last();
        let last = procs.last();
        let n = procs.len() - 1;
        let r = root_candidates(short, names);
        lemma_root_candidate_entries(short, names);
        assert forall|i: int| 0 <= i < n implies #[trigger] short[i] == procs[i] by {}
        assert forall|x: u32|
            root_candidates(procs, names).contains(x) <==> exists|i: int|
                0 <= i < procs.len() && #[trigger] procs[i].pid == x && is_tree_root(procs[i], names) by {
            if exists|i: int| 0 <= i < procs.len() && #[trigger] procs[i].pid == x && is_tree_root(procs[i], names) {
                let i = choose|i: int| 0 <= i < procs.len() && #[trigger] procs[i].pid == x && is_tree_root(procs[i], names);
                if i < n {
                    assert(short[i].pid == x);
                    assert(r.contains(x));
                    let j = choose|j: int| 0 <= j < r.len() && r[j] == x;
                    if is_tree_root(last, names) {
                        assert(r.push(last.pid)[j] == x);
                    }
                } else {
                    assert(procs[n] == last);
                    assert(r.push(last.pid)[r.len() as int] == x);
                }
            }
            if root_candidates(procs, names).contains(x) {
                let rc = root_candidates(procs, names);
                let j = choose|j: int| 0 <= j < rc.len() && rc[j] == x;
                if is_tree_root(last, names) && j == r.len() {
                    assert(procs[n].pid == x);
                } else {
                    assert(r[j] == x);
                    assert(r.contains(x));
                    let i = choose|i: int| 0 <= i < short.len() && #[trigger] short[i].pid == x && is_tree_root(short[i], names);
                    assert(procs[i].pid == x);
                }
            }
        }
        if distinct_pids(procs) && is_tree_root(last, names) {
            lemma_distinct_prefix(procs);
            let l = r.push(last.pid);
            assert forall|a: int, b: int| 0 <= a < l.len() && 0 <= b < l.len() && a != b implies l[a]
                != l[b] by {
                if a < r.len() && b < r.len() {
                } else if a < r.len() {
                    assert(r.contains(r[a]));
                    let i = choose|i: int| 0 <= i < short.len() && #[trigger] short[i].pid == r[a] && is_tree_root(short[i], names);
                    assert(procs[i].pid != last.pid);
                } else if b < r.len() {
                    assert(r.contains(r[b]));
                    let i = choose|i: int| 0 <= i < short.len() && #[trigger] short[i].pid == r[b] && is_tree_root(short[i], names);
                    assert(procs[i].pid != last.pid);
                }
            }
        } else if distinct_pids(procs) {
            lemma_distinct_prefix(procs);
        }
    }
}

/// Two lists of distinct ids with the same members sort to the same list.
proof fn lemma_same_members_sort(a: Seq<u32>, b: Seq<u32>)
    requires
        a.no_duplicates(),
        b.no_duplicates(),
        forall|x: u32| a.contains(x) <==> b.contains(x),
    ensures
        a.sort_by(pid_le()) == b.sort_by(pid_le()),
{
    a.lemma_multiset_has_no_duplicates();
    b.lemma_multiset_has_no_duplicates();
    assert forall|x: u32| a.to_multiset().count(x) == b.to_multiset().count(x) by {
        vstd::seq_lib::to_multiset_contains(a, x);
        vstd::seq_lib::to_multiset_contains(b, x);
        if a.contains(x) {
            assert(a.to_multiset().contains(x));
            assert(b.to_multiset().contains(x));
        }
    }
    assert(a.to_multiset() =~= b.to_multiset());
    lemma_pid_le_total();
    a.lemma_sort_by_ensures(pid_le());
    b.lemma_sort_by_ensures(pid_le());
    vstd::seq_lib::lemma_sorted_unique(a.sort_by(pid_le()), b.sort_by(pid_le()), pid_le());
}

/// The name an id carries when ids are distinct.
proof fn lemma_name_table_entries(procs: Seq<ProcessSnapshot>)
    requires
        distinct_pids(procs),
    ensures
        forall|x: u32|
            name_table(procs).contains_key(x) <==> exists|i: int|
                0 <= i < procs.len() && #[trigger] procs[i].pid == x,
        forall|i: int| 0 <= i < procs.len() ==> name_table(procs)[#[trigger] procs[i].pid] == procs[i].name@,
    decreases procs.len(),
{
    if procs.len() > 0 {
        let short = procs.drop_last();
        let n = procs.len() - 1;
        lemma_distinct_prefix(procs);
        lemma_name_table_entries(short);
        assert forall|i: int| 0 <= i < n implies #[trigger] short[i] == procs[i] by {}
        assert forall|x: u32|
            name_table(procs).contains_key(x) <==> exists|i: int|
                0 <= i < procs.len() && #[trigger] procs[i].pid == x by {
            if name_table(procs).contains_key(x) && x != procs.last().pid {
                assert(name_table(short).contains_key(x));
                let i = choose|i: int| 0 <= i < short.len() && #[trigger] short[i].pid == x;
                assert(short[i] == procs[i]);
                assert(procs[i].pid == x);
            } else if name_table(procs).contains_key(x) {
                assert(procs[n].pid == x);
            }
            if exists|i: int| 0 <= i < procs.len() && #[trigger] procs[i].pid == x {
                let i = choose|i: int| 0 <= i < procs.len() && #[trigger] procs[i].pid == x;
                if i < n {
                    assert(short[i].pid == x);
                }
            }
        }
        assert forall|i: int| 0 <= i < procs.len() implies name_table(procs)[#[trigger] procs[i].pid]
            == procs[i].name@ by {
            if i < n {
                assert(short[i].pid == procs[i].pid);
            }
        }
    }
}

/// A snapshot is in one listing exactly when it is in the other.
proof fn lemma_same_snapshots(p: Seq<ProcessSnapshot>, q: Seq<ProcessSnapshot>)
    requires
        p.to_multiset() == q.to_multiset(),
    ensures
        forall|e: ProcessSnapshot|
            #![trigger p.contains(e)]
            #![trigger q.contains(e)]
            p.contains(e) <==> q.contains(e),
{
    assert forall|e: ProcessSnapshot| p.contains(e) <==> q.contains(e) by {
        vstd::seq_lib::to_multiset_contains(p, e);
        vstd::seq_lib::to_multiset_contains(q, e);
    }
}

/// Two listings of the same snapshots with distinct ids list the same
/// children of `k`, and sort them the same.
proof fn lemma_reordered_children(p: Seq<ProcessSnapshot>, q: Seq<ProcessSnapshot>, k: u32)
    requires
        distinct_pids(p),
        distinct_pids(q),
        p.to_multiset() == q.to_multiset(),
    ensures
        sorted_children(p, k) == sorted_children(q, k),
        forall|b: u32| child_link(child_table(p), k, b) <==> child_link(child_table(q), k, b),
{
    lemma_same_snapshots(p, q);
    lemma_child_table_entries(p, k);
    lemma_child_table_entries(q, k);
    assert forall|x: u32| (child_table(p).contains_key(k) && child_table(p)[k].contains(x)) <==> (
    child_table(q).contains_key(k) && child_table(q)[k].contains(x)) by {
        if child_table(p).contains_key(k) && child_table(p)[k].contains(x) {
            let i = choose|i: int| 0 <= i < p.len() && #[trigger] p[i].pid == x && child_entry_of(p[i], k);
            assert(p.contains(p[i]));
            let j = choose|j: int| 0 <= j < q.len() && q[j] == p[i];
            assert(q[j].pid == x && child_entry_of(q[j], k));
        }
        if child_table(q).contains_key(k) && child_table(q)[k].contains(x) {
            let j = choose|j: int| 0 <= j < q.len() && #[trigger] q[j].pid == x && child_entry_of(q[j], k);
            assert(q.contains(q[j]));
            let i = choose|i: int| 0 <= i < p.len() && p[i] == q[j];
            assert(p[i].pid == x && child_entry_of(p[i], k));
        }
    }
    if child_table(p).contains_key(k) {
        let i = choose|i: int| 0 <= i < p.len() && child_entry_of(#[trigger] p[i], k);
        assert(p.contains(p[i]));
        let j = choose|j: int| 0 <= j < q.len() && q[j] == p[i];
        assert(child_entry_of(q[j], k));
    }
    if child_table(q).contains_key(k) {
        let j = choose|j: int| 0 <= j < q.len() && child_entry_of(#[trigger] q[j], k);
        assert(q.contains(q[j]));
        let i = choose|i: int| 0 <= i < p.len() && p[i] == q[j];
        assert(child_entry_of(p[i], k));
    }
    if child_table(p).contains_key(k) {
        lemma_same_members_sort(child_table(p)[k], child_table(q)[k]);
    }
}

/// The tree view's inputs agree for two listings of the same snapshots with
/// distinct ids.
proof fn lemma_reordered_tables(p: Seq<ProcessSnapshot>, q: Seq<ProcessSnapshot>)
    requires
        distinct_pids(p),
        distinct_pids(q),
        p.to_multiset() == q.to_multiset(),
    ensures
        process_ids(p) == process_ids(q),
        name_table(p) == name_table(q),
        tree_roots(p) == tree_roots(q),
        forall|k: u32| #[trigger] sorted_children(p, k) == sorted_children(q, k),
        forall|a: u32, b: u32| #[trigger] child_link(child_table(p), a, b) <==> child_link(child_table(q), a, b),
{
    lemma_same_snapshots(p, q);
    let ip = p.map_values(|e: ProcessSnapshot| e.pid);
    let iq = q.map_values(|e: ProcessSnapshot| e.pid);
    assert forall|x: u32| process_ids(p).contains(x) <==> process_ids(q).contains(x) by {
        if process_ids(p).contains(x) {
            let i = choose|i: int| 0 <= i < ip.len() && ip[i] == x;
            assert(p.contains(p[i]));
            let j = choose|j: int| 0 <= j < q.len() && q[j] == p[i];
            assert(iq[j] == x);
            assert(iq.contains(x));
        }
        if process_ids(q).contains(x) {
            let j = choose|j: int| 0 <= j < iq.len() && iq[j] == x;
            assert(q.contains(q[j]));
            let i = choose|i: int| 0 <= i < p.len() && p[i] == q[j];
            assert(ip[i] == x);
            assert(ip.contains(x));
        }
    }
    assert(process_ids(p) =~= process_ids(q));
    lemma_name_table_entries(p);
    lemma_name_table_entries(q);
    assert forall|x: u32| #[trigger] name_table(p).contains_key(x) implies name_table(q).contains_key(x)
        && name_table(p)[x] == name_table(q)[x] by {
        let i = choose|i: int| 0 <= i < p.len() && #[trigger] p[i].pid == x;
        assert(p.contains(p[i]));
        let j = choose|j: int| 0 <= j < q.len() && q[j] == p[i];
        assert(q[j].pid == x);
    }
    assert forall|x: u32| #[trigger] name_table(q).contains_key(x) implies name_table(p).contains_key(x) by {
        let j = choose|j: int| 0 <= j < q.len() && #[trigger] q[j].pid == x;
        assert(q.contains(q[j]));
        let i = choose|i: int| 0 <= i < p.len() && p[i] == q[j];
        assert(p[i].pid == x);
    }
    assert(name_table(p) =~= name_table(q));
    let names = name_table(p);
    lemma_root_candidate_entries(p, names);
    lemma_root_candidate_entries(q, names);
    assert forall|x: u32| root_candidates(p, names).contains(x) <==> root_candidates(q, names).contains(x) by {
        if root_candidates(p, names).contains(x) {
            let i = choose|i: int| 0 <= i < p.len() && #[trigger] p[i].pid == x && is_tree_root(p[i], names);
            assert(p.contains(p[i]));
            let j = choose|j: int| 0 <= j < q.len() && q[j] == p[i];
            assert(q[j].pid == x && is_tree_root(q[j], names));
        }
        if root_candidates(q, names).contains(x) {
            let j = choose|j: int| 0 <= j < q.len() && #[trigger] q[j].pid == x && is_tree_root(q[j], names);
            assert(q.contains(q[j]));
            let i = choose|i: int| 0 <= i < p.len() && p[i] == q[j];
            assert(p[i].pid == x && is_tree_root(p[i], names));
        }
    }
    lemma_same_members_sort(root_candidates(p, names), root_candidates(q, names));
    assert forall|k: u32| #[trigger] sorted_children(p, k) == sorted_children(q, k) by {
        lemma_reordered_children(p, q, k);
    }
    assert forall|a: u32, b: u32| #[trigger] child_link(child_table(p), a, b) <==> child_link(
        child_table(q),
        a,
        b,
    ) by {
        lemma_reordered_children(p, q, a);
    }
}

proof fn lemma_reordered_shown(
    p: Seq<ProcessSnapshot>,
    q: Seq<ProcessSnapshot>,
    keyword: Option<Seq<char>>,
    x: u32,
)
    requires
        distinct_pids(p),
        distinct_pids(q),
        p.to_multiset() == q.to_multiset(),
    ensures
        shown_in_tree(p, keyword, x) == shown_in_tree(q, keyword, x),
{
    lemma_reordered_tables(p, q);
    let tp = child_table(p);
    let tq = child_table(q);
    assert forall|path: Seq<u32>| #[trigger] follows_children(tp, path) <==> follows_children(tq, path) by {
        if follows_children(tp, path) {
            assert forall|i: int| 0 <= i < path.len() - 1 implies #[trigger] child_link(tq, path[i], path[i + 1]) by {
                assert(child_link(tp, path[i], path[i + 1]));
            }
        }
        if follows_children(tq, path) {
            assert forall|i: int| 0 <= i < path.len() - 1 implies #[trigger] child_link(tp, path[i], path[i + 1]) by {
                assert(child_link(tq, path[i], path[i + 1]));
            }
        }
    }
    if let Some(k) = keyword {
        let names = name_table(p);
        if descendant_matches(tp, names, x, k) {
            let path = choose|path: Seq<u32>|
                #![trigger follows_children(tp, path)]
                path.len() >= 2 && path[0] == x && follows_children(tp, path) && contains_text(
                    lowercase(name_or_empty(names, path.last())),
                    k,
                );
            assert(follows_children(tq, path));
        }
        if descendant_matches(tq, names, x, k) {
            let path = choose|path: Seq<u32>|
                #![trigger follows_children(tq, path)]
                path.len() >= 2 && path[0] == x && follows_children(tq, path) && contains_text(
                    lowercase(name_or_empty(names, path.last())),
                    k,
                );
            assert(follows_children(tp, path));
        }
    }
}

proof fn lemma_reordered_walk(
    p: Seq<ProcessSnapshot>,
    q: Seq<ProcessSnapshot>,
    keyword: Option<Seq<char>>,
    stack: Seq<TreeEntry>,
    visited: Set<u32>,
)
    requires
        distinct_pids(p),
        distinct_pids(q),
        p.to_multiset() == q.to_multiset(),
    ensures
        tree_walk(p, keyword, stack, visited) == tree_walk(q, keyword, stack, visited),
    decreases process_ids(p).difference(visited).len(), stack.len(),
{
    lemma_reordered_tables(p, q);
    if stack.len() > 0 {
        let node = stack.last();
        let rest = stack.drop_last();
        if visited.contains(node.pid) || !process_ids(p).contains(node.pid) {
            lemma_reordered_walk(p, q, keyword, rest, visited);
        } else {
            lemma_process_ids_finite(p);
            lemma_visit_shrinks(process_ids(p), visited, node.pid);
            lemma_reordered_shown(p, q, keyword, node.pid);
            let v2 = visited.insert(node.pid);
            assert(sorted_children(p, node.pid) == sorted_children(q, node.pid));
            if shown_in_tree(p, keyword, node.pid) {
                lemma_reordered_walk(
                    p,
                    q,
                    keyword,
                    rest + child_entries(node, sorted_children(p, node.pid)),
                    v2,
                );
            } else {
                lemma_reordered_walk(p, q, keyword, rest, v2);
            }
        }
    }
}

/// With distinct ids, the tree view does not depend on the order in which the
/// snapshots are listed: any reordering gives the same entries and the same
/// names, so the same lines.
pub proof fn lemma_tree_ignores_listing_order(
    p: Seq<ProcessSnapshot>,
    q: Seq<ProcessSnapshot>,
    keyword: Option<Seq<char>>,
)
    requires
        distinct_pids(p),
        distinct_pids(q),
        p.to_multiset() == q.to_multiset(),
    ensures
        tree_nodes(p, keyword) == tree_nodes(q, keyword),
        name_table(p) == name_table(q),
{
    lemma_reordered_tables(p, q);
    lemma_reordered_walk(p, q, keyword, root_entries(tree_roots(p)), Set::empty());
}

/// Following parent links never comes back: each listed parent (other than
/// 0, and other than the process itself) ranks below its child.
pub open spec fn ranked_by(procs: Seq<ProcessSnapshot>, rank: spec_fn(u32) -> nat) -> bool {
    forall|i: int|
        0 <= i < procs.len() && procs[i].parent_pid != 0 && procs[i].parent_pid != procs[i].pid
            && process_ids(procs).contains(procs[i].parent_pid) ==> rank(#[trigger] procs[i].parent_pid)
            < rank(procs[i].pid)
}

/// Only process 0 may name itself as its parent.
pub open spec fn no_self_parents(procs: Seq<ProcessSnapshot>) -> bool {
    forall|i: int| 0 <= i < procs.len() && #[trigger] procs[i].pid != 0 ==> procs[i].parent_pid != procs[i].pid
}

proof fn lemma_drawn_by_rank(
    procs: Seq<ProcessSnapshot>,
    rank: spec_fn(u32) -> nat,
    x: u32,
)
    requires
        distinct_pids(procs),
        ranked_by(procs, rank),
        no_self_parents(procs),
        process_ids(procs).contains(x),
    ensures
        drawn(tree_nodes(procs, None), x),
    decreases rank(x),
{
    let names = name_table(procs);
    let nodes = tree_nodes(procs, None);
    lemma_tree_without_filter_is_complete(procs);
    lemma_name_table_entries(procs);
    let ids = procs.map_values(|p: ProcessSnapshot| p.pid);
    let i = choose|i: int| 0 <= i < ids.len() && ids[i] == x;
    let e = procs[i];
    assert(e.pid == x);
    if is_tree_root(e, names) {
        lemma_root_candidate_entries(procs, names);
        assert(root_candidates(procs, names).contains(x));
        lemma_pid_le_total();
        root_candidates(procs, names).lemma_sort_by_ensures(pid_le());
        vstd::seq_lib::to_multiset_contains(root_candidates(procs, names), x);
        vstd::seq_lib::to_multiset_contains(tree_roots(procs), x);
        assert(tree_roots(procs).contains(x));
    } else {
        let y = e.parent_pid;
        assert(names.contains_key(y));
        let j = choose|j: int| 0 <= j < procs.len() && #[trigger] procs[j].pid == y;
        lemma_pid_in_process_ids(procs, j);
        assert(e.pid != 0);
        assert(y != e.pid);
        assert(rank(y) < rank(x));
        lemma_drawn_by_rank(procs, rank, y);
        let k = choose|k: int| 0 <= k < nodes.len() && #[trigger] nodes[k].pid == y;
        lemma_child_table_entries(procs, y);
        assert(child_entry_of(procs[i], y));
        let t = child_table(procs);
        assert(t.contains_key(y) && t[y].contains(x));
        lemma_pid_le_total();
        t[y].lemma_sort_by_ensures(pid_le());
        vstd::seq_lib::to_multiset_contains(t[y], x);
        vstd::seq_lib::to_multiset_contains(sorted_children(procs, y), x);
        assert(sorted_children(procs, nodes[k].pid).contains(x));
    }
}

/// Without a filter, for distinct ids whose parent links never come back and
/// where only process 0 is its own parent, every listed process is drawn, and
/// (by `lemma_tree_lists_each_process_once`) exactly once.
pub proof fn lemma_tree_draws_every_process(procs: Seq<ProcessSnapshot>, rank: spec_fn(u32) -> nat)
    requires
        distinct_pids(procs),
        ranked_by(procs, rank),
        no_self_parents(procs),
    ensures
        forall|x: u32| #[trigger] process_ids(procs).contains(x) ==> drawn(tree_nodes(procs, None), x),
{
    assert forall|x: u32| #[trigger] process_ids(procs).contains(x) implies drawn(
        tree_nodes(procs, None),
        x,
    ) by {
        lemma_drawn_by_rank(procs, rank, x);
    }
}

/// The indentation of a tree line has one column of four characters per
/// ancestor flag, outermost first: a blank column for an ancestor that was a
/// last child, a vertical bar otherwise.
pub proof fn lemma_branch_prefix_columns(flags: Seq<bool>)
    ensures
        branch_prefix(flags).len() == 4 * flags.len(),
        forall|j: int|
            0 <= j < flags.len() ==> #[trigger] branch_prefix(flags).subrange(4 * j, 4 * j + 4) == (
            if flags[j] {
                "    "@
            } else {
                "│   "@
            }),
    decreases flags.len(),
{
    reveal_strlit("    ");
    reveal_strlit("│   ");
    if flags.len() > 0 {
        let short = flags.drop_last();
        lemma_branch_prefix_columns(short);
        let front = branch_prefix(short);
        let col: Seq<char> = if flags.last() {
            "    "@
        } else {
            "│   "@
        };
        assert(branch_prefix(flags) == front + col);
        assert forall|j: int| 0 <= j < flags.len() implies #[trigger] branch_prefix(flags).subrange(
            4 * j,
            4 * j + 4,
        ) == (if flags[j] {
            "    "@
        } else {
            "│   "@
        }) by {
            if j < short.len() {
                assert(flags[j] == short[j]);
                assert((front + col).subrange(4 * j, 4 * j + 4) =~= front.subrange(4 * j, 4 * j + 4));
            } else {
                assert((front + col).subrange(4 * j, 4 * j + 4) =~= col);
            }
        }
    }
}

/// Adding an innermost ancestor flag adds its column at the end of the
/// indentation, after the columns of the outer ancestors.
pub proof fn lemma_branch_prefix_push(flags: Seq<bool>, last_child: bool)
    ensures
        branch_prefix(flags.push(last_child)) == branch_prefix(flags) + (if last_child {
            "    "@
        } else {
            "│   "@
        }),
{
    assert(flags.push(last_child).drop_last() =~= flags);
}

/// The layout of a tree line. A root's line is its name and id. Below a root,
/// the line starts with one column per ancestor flag after the first (the
/// outermost ancestor's own flag draws nothing), outermost first; then the
/// branch to the process, a corner for a last child and a tee otherwise; then
/// the name and id.
pub proof fn lemma_tree_line_layout(name: Seq<char>, pid: u32, is_last: bool, flags: Seq<bool>)
    ensures
        flags.len() == 0 ==> tree_line(name, pid, is_last, flags) == name + " (PID: "@ + decimal(
            pid as nat,
        ) + ")"@,
        flags.len() > 0 ==> {
            let line = tree_line(name, pid, is_last, flags);
            let n = flags.len() - 1;
            &&& forall|j: int|
                0 <= j < n ==> #[trigger] line.subrange(4 * j, 4 * j + 4) == (if flags[j + 1] {
                    "    "@
                } else {
                    "│   "@
                })
            &&& line.subrange(4 * n, 4 * n + 4) == (if is_last {
                "└── "@
            } else {
                "├── "@
            })
            &&& line.skip(4 * n + 4) == name + " (PID: "@ + decimal(pid as nat) + ")"@
        },
{
    reveal_strlit("└── ");
    reveal_strlit("├── ");
    if flags.len() > 0 {
        let inner = flags.skip(1);
        lemma_branch_prefix_columns(inner);
        let n = flags.len() - 1;
        let front = branch_prefix(inner);
        let corner: Seq<char> = if is_last {
            "└── "@
        } else {
            "├── "@
        };
        let label = name + " (PID: "@ + decimal(pid as nat) + ")"@;
        let line = tree_line(name, pid, is_last, flags);
        assert(line == front + corner + label);
        assert forall|j: int| 0 <= j < n implies #[trigger] line.subrange(4 * j, 4 * j + 4) == (if flags[
            j + 1] {
            "    "@
        } else {
            "│   "@
        }) by {
            assert(inner[j] == flags[j + 1]);
            assert(front.subrange(4 * j, 4 * j + 4) == (if inner[j] {
                "    "@
            } else {
                "│   "@
            }));
            assert((front + corner + label).subrange(4 * j, 4 * j + 4) =~= front.subrange(
                4 * j,
                4 * j + 4,
            ));
        }
        assert((front + corner + label).subrange(4 * n, 4 * n + 4) =~= corner);
        assert((front + corner + label).skip(4 * n + 4) =~= label);
    }
}

/// With a filter, a process that the tree draws without the filter is still
/// drawn when its own lower-cased name contains the keyword, or when some
/// process below it has such a name: the filter hides only processes with
/// neither.
pub proof fn lemma_tree_filter_keeps_matching_processes(
    procs: Seq<ProcessSnapshot>,
    keyword: Seq<char>,
    pid: u32,
)
    requires
        drawn(tree_nodes(procs, None), pid),
        contains_text(lowercase(display_name(name_table(procs), pid)), keyword) || descendant_matches(
            child_table(procs),
            name_table(procs),
            pid,
            keyword,
        ),
    ensures
        drawn(tree_nodes(procs, Some(keyword)), pid),
{
    lemma_tree_filter_is_sublist(procs, keyword);
    lemma_keep_shown_keeps(procs, Some(keyword), tree_nodes(procs, None), pid);
}

proof fn lemma_keep_shown_keeps(
    procs: Seq<ProcessSnapshot>,
    keyword: Option<Seq<char>>,
    nodes: Seq<TreeEntry>,
    pid: u32,
)
    requires
        drawn(nodes, pid),
        shown_in_tree(procs, keyword, pid),
    ensures
        drawn(keep_shown(procs, keyword, nodes), pid),
    decreases nodes.len(),
{
    let kept = keep_shown(procs, keyword, nodes);
    let rest = keep_shown(procs, keyword, nodes.drop_first());
    if nodes[0].pid == pid {
        assert(kept[0] == nodes[0]);
    } else {
        let k = choose|k: int| 0 <= k < nodes.len() && #[trigger] nodes[k].pid == pid;
        assert(nodes.drop_first()[k - 1].pid == pid);
        lemma_keep_shown_keeps(procs, keyword, nodes.drop_first(), pid);
        let m = choose|m: int| 0 <= m < rest.len() && #[trigger] rest[m].pid == pid;
        if shown_in_tree(procs, keyword, nodes[0].pid) {
            assert(kept[m + 1] == rest[m]);
        } else {
            assert(kept[m] == rest[m]);
        }
    }
}

/// The recorded names are those of the listed ids.
proof fn lemma_name_table_keys(procs: Seq<ProcessSnapshot>)
    ensures
        forall|x: u32|
            name_table(procs).contains_key(x) <==> exists|i: int|
                0 <= i < procs.len() && #[trigger] procs[i].pid == x,
    decreases procs.len(),
{
    if procs.len() > 0 {
        let short = procs.drop_last();
        lemma_name_table_keys(short);
        assert(name_table(procs) == name_table(short).insert(procs.last().pid, procs.last().name@));
        assert forall|x: u32|
            name_table(procs).contains_key(x) <==> exists|i: int|
                0 <= i < procs.len() && #[trigger] procs[i].pid == x by {
            if name_table(procs).contains_key(x) && x != procs.last().pid {
                assert(name_table(short).contains_key(x));
                let i = choose|i: int| 0 <= i < short.len() && #[trigger] short[i].pid == x;
                assert(procs[i] == short[i]);
            }
            if exists|i: int| 0 <= i < procs.len() && #[trigger] procs[i].pid == x {
                let i = choose|i: int| 0 <= i < procs.len() && #[trigger] procs[i].pid == x;
                if i < short.len() {
                    assert(short[i] == procs[i]);
                } else {
                    assert(procs[i] == procs.last());
                }
            }
        }
    }
}

/// When a shown process that was not drawn yet comes off the work stack, it
/// is drawn next, and right after it comes its child with the smallest id
/// (when that child is shown and not drawn yet), one level deeper: its
/// ancestor flags are the parent's followed by the parent's own flag, and it
/// is marked as the last child exactly when it is the only one.
pub proof fn lemma_walk_enters_smallest_child(
    procs: Seq<ProcessSnapshot>,
    keyword: Option<Seq<char>>,
    rest: Seq<TreeEntry>,
    node: TreeEntry,
    visited: Set<u32>,
    child: u32,
)
    requires
        process_ids(procs).contains(node.pid),
        !visited.contains(node.pid),
        shown_in_tree(procs, keyword, node.pid),
        child_link(child_table(procs), node.pid, child),
        forall|x: u32| child_link(child_table(procs), node.pid, x) ==> child <= x,
        !visited.contains(child),
        shown_in_tree(procs, keyword, child),
    ensures
        tree_walk(procs, keyword, rest.push(node), visited).len() >= 2,
        tree_walk(procs, keyword, rest.push(node), visited)[0] == node,
        tree_walk(procs, keyword, rest.push(node), visited)[1] == (TreeEntry {
            pid: child,
            is_last: child_table(procs)[node.pid].len() == 1,
            parent_last_flags: node.parent_last_flags.push(node.is_last),
        }),
{
    let stack = rest.push(node);
    assert(stack.last() == node);
    assert(stack.drop_last() =~= rest);
    let t = child_table(procs);
    let kids = sorted_children(procs, node.pid);
    lemma_pid_le_total();
    t[node.pid].lemma_sort_by_ensures(pid_le());
    vstd::seq_lib::to_multiset_len(t[node.pid]);
    vstd::seq_lib::to_multiset_len(kids);
    vstd::seq_lib::to_multiset_contains(t[node.pid], child);
    vstd::seq_lib::to_multiset_contains(kids, child);
    let m = choose|m: int| 0 <= m < kids.len() && kids[m] == child;
    vstd::seq_lib::to_multiset_contains(kids, kids[0]);
    vstd::seq_lib::to_multiset_contains(t[node.pid], kids[0]);
    assert(kids.contains(kids[0]));
    assert(child_link(t, node.pid, kids[0]));
    if m > 0 {
        assert(pid_le()(kids[0], kids[m]));
    }
    assert(kids[0] == child);
    lemma_child_table_pids(procs, node.pid, child);
    lemma_child_table_entries(procs, node.pid);
    let i = choose|i: int| 0 <= i < procs.len() && #[trigger] procs[i].pid == child && child_entry_of(procs[i], node.pid);
    assert(child != node.pid);
    lemma_process_ids_finite(procs);
    lemma_visit_shrinks(process_ids(procs), visited, node.pid);
    let v2 = visited.insert(node.pid);
    let next = rest + child_entries(node, kids);
    let tail = tree_walk(procs, keyword, next, v2);
    assert(tree_walk(procs, keyword, stack, visited) == seq![node] + tail);
    assert(next.last() == child_entries(node, kids)[kids.len() - 1]);
    assert(next.last().pid == child);
    lemma_visit_shrinks(process_ids(procs), v2, child);
    assert(tail == seq![next.last()] + tree_walk(
        procs,
        keyword,
        next.drop_last() + child_entries(next.last(), sorted_children(procs, child)),
        v2.insert(child),
    ));
}

/// Snapshot `i` starts a tree: it is process 0, its parent is 0, or no listed
/// snapshot has its parent's id.
pub open spec fn starts_a_tree(procs: Seq<ProcessSnapshot>, i: int) -> bool {
    procs[i].pid == 0 || procs[i].parent_pid == 0 || (forall|j: int|
        0 <= j < procs.len() ==> #[trigger] procs[j].pid != procs[i].parent_pid)
}

proof fn lemma_starts_a_tree_is_root(procs: Seq<ProcessSnapshot>)
    ensures
        forall|i: int|
            0 <= i < procs.len() ==> (starts_a_tree(procs, i) <==> #[trigger] is_tree_root(
                procs[i],
                name_table(procs),
            )),
        forall|x: u32|
            root_candidates(procs, name_table(procs)).contains(x) <==> exists|i: int|
                0 <= i < procs.len() && #[trigger] procs[i].pid == x && starts_a_tree(procs, i),
{
    let names = name_table(procs);
    lemma_name_table_keys(procs);
    lemma_root_candidate_entries(procs, names);
    assert forall|i: int| 0 <= i < procs.len() implies (starts_a_tree(procs, i) <==> #[trigger] is_tree_root(
        procs[i],
        names,
    )) by {
        if names.contains_key(procs[i].parent_pid) {
            let j = choose|j: int| 0 <= j < procs.len() && #[trigger] procs[j].pid == procs[i].parent_pid;
        }
    }
}

/// The smallest root id comes first among the roots, and it is listed.
proof fn lemma_first_root(procs: Seq<ProcessSnapshot>, first: int)
    requires
        0 <= first < procs.len(),
        starts_a_tree(procs, first),
    ensures
        tree_roots(procs).len() > 0,
        process_ids(procs).contains(tree_roots(procs)[0]),
        exists|i: int|
            0 <= i < procs.len() && #[trigger] procs[i].pid == tree_roots(procs)[0] && starts_a_tree(
                procs,
                i,
            ),
        forall|i: int|
            0 <= i < procs.len() && starts_a_tree(procs, i) ==> tree_roots(procs)[0]
                <= #[trigger] procs[i].pid,
{
    let names = name_table(procs);
    let cands = root_candidates(procs, names);
    let roots = tree_roots(procs);
    lemma_starts_a_tree_is_root(procs);
    assert(cands.contains(procs[first].pid));
    lemma_pid_le_total();
    cands.lemma_sort_by_ensures(pid_le());
    vstd::seq_lib::to_multiset_len(cands);
    vstd::seq_lib::to_multiset_len(roots);
    vstd::seq_lib::to_multiset_contains(cands, procs[first].pid);
    vstd::seq_lib::to_multiset_contains(roots, procs[first].pid);
    let r0 = roots[0];
    vstd::seq_lib::to_multiset_contains(roots, r0);
    vstd::seq_lib::to_multiset_contains(cands, r0);
    assert(roots.contains(r0));
    assert(cands.contains(r0));
    lemma_root_candidates_pids(procs, names, r0);
    assert forall|i: int| 0 <= i < procs.len() && starts_a_tree(procs, i) implies r0
        <= #[trigger] procs[i].pid by {
        assert(cands.contains(procs[i].pid));
        vstd::seq_lib::to_multiset_contains(cands, procs[i].pid);
        vstd::seq_lib::to_multiset_contains(roots, procs[i].pid);
        let m = choose|m: int| 0 <= m < roots.len() && roots[m] == procs[i].pid;
        if m > 0 {
            assert(pid_le()(roots[0], roots[m]));
        }
    }
}

/// Without a filter, the tree view starts with the root of smallest id (see
/// `starts_a_tree`), as a last entry with no ancestors; where that root has
/// children, the next line is its child of smallest id, one level down, marked
/// as the last child exactly when it has no siblings.
pub proof fn lemma_tree_starts_at_smallest_root(procs: Seq<ProcessSnapshot>, first: int)
    requires
        0 <= first < procs.len(),
        starts_a_tree(procs, first),
    ensures
        tree_nodes(procs, None).len() > 0,
        tree_nodes(procs, None)[0].is_last,
        tree_nodes(procs, None)[0].parent_last_flags.len() == 0,
        exists|i: int|
            0 <= i < procs.len() && #[trigger] procs[i].pid == tree_nodes(procs, None)[0].pid
                && starts_a_tree(procs, i),
        forall|i: int|
            0 <= i < procs.len() && starts_a_tree(procs, i) ==> tree_nodes(procs, None)[0].pid
                <= #[trigger] procs[i].pid,
        forall|c: u32|
            #![trigger child_link(child_table(procs), tree_nodes(procs, None)[0].pid, c)]
            child_link(child_table(procs), tree_nodes(procs, None)[0].pid, c) && (forall|x: u32|
                child_link(child_table(procs), tree_nodes(procs, None)[0].pid, x) ==> c <= x) ==> {
                &&& tree_nodes(procs, None).len() >= 2
                &&& tree_nodes(procs, None)[1] == (TreeEntry {
                    pid: c,
                    is_last: child_table(procs)[tree_nodes(procs, None)[0].pid].len() == 1,
                    parent_last_flags: seq![true],
                })
            },
{
    lemma_first_root(procs, first);
    let roots = tree_roots(procs);
    let r0 = roots[0];
    let stack = root_entries(roots);
    let node = stack.last();
    assert(node == TreeEntry { pid: r0, is_last: true, parent_last_flags: Seq::empty() });
    assert(stack =~= stack.drop_last().push(node));
    lemma_process_ids_finite(procs);
    lemma_visit_shrinks(process_ids(procs), Set::empty(), r0);
    let nodes = tree_nodes(procs, None);
    assert(nodes[0] == node);
    assert forall|c: u32|
        #![trigger child_link(child_table(procs), nodes[0].pid, c)]
        child_link(child_table(procs), nodes[0].pid, c) && (forall|x: u32|
            child_link(child_table(procs), nodes[0].pid, x) ==> c <= x) implies {
            &&& nodes.len() >= 2
            &&& nodes[1] == (TreeEntry {
                pid: c,
                is_last: child_table(procs)[nodes[0].pid].len() == 1,
                parent_last_flags: seq![true],
            })
        } by {
        lemma_walk_enters_smallest_child(procs, None, stack.drop_last(), node, Set::empty(), c);
        assert(Seq::<bool>::empty().push(true) =~= seq![true]);
    }
}

} // verus!
