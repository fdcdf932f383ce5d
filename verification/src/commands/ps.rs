use vstd::prelude::*;
use vstd::relations::sorted_by;
use vstd::relations::total_ordering;
use vstd::string::StringExecFns;
use crate::process_info::ProcessSnapshot;
use crate::text::lemma_text_less_irreflexive;
use crate::text::lemma_text_less_total;
use crate::text::lemma_text_less_transitive;
use crate::text::contains_text;
use crate::text::lowercase;
use crate::text::text_contains;
use crate::text::str_less;
use crate::text::text_less;
use crate::text::to_lowercase;

verus! {

/// The field by which a process list is ordered.
#[derive(Clone, Copy, Debug, PartialEq, Eq)]
pub enum SortKey {
    /// Ascending by name.
    Name,
    /// Highest CPU usage first (by `cpu_rank`).
    Cpu,
    /// Largest memory use first.
    Memory,
    /// Ascending by status text.
    Status,
    /// Ascending by process id.
    Pid,
}

/// The ordering that a (lower-cased) sort option selects; anything not
/// recognised orders by process id.
pub open spec fn sort_key_for(option: Seq<char>) -> SortKey {
    if option == "name"@ {
        SortKey::Name
    } else if option == "cpu"@ {
        SortKey::Cpu
    } else if option == "memory"@ || option == "mem"@ {
        SortKey::Memory
    } else if option == "status"@ {
        SortKey::Status
    } else {
        SortKey::Pid
    }
}

/// The ordering selected by a sort option, compared without regard to case.
pub fn sort_key_of(sort_by: &str) -> (r: SortKey)
    ensures
        r == sort_key_for(lowercase(sort_by@)),
{
    let option = to_lowercase(sort_by);
    sort_key_from_lowercase(&option)
}

/// The ordering selected by an already lower-cased sort option.
pub fn sort_key_from_lowercase(option: &String) -> (r: SortKey)
    ensures
        r == sort_key_for(option@),
{
    if *option == String::from_str("name") {
        SortKey::Name
    } else if *option == String::from_str("cpu") {
        SortKey::Cpu
    } else if *option == String::from_str("memory") || *option == String::from_str("mem") {
        SortKey::Memory
    } else if *option == String::from_str("status") {
        SortKey::Status
    } else {
        SortKey::Pid
    }
}

/// A number that orders CPU usages, given as `f32` bit patterns, as their
/// values: negative zero counts as zero, negative values come below positive
/// ones, and within each sign the patterns follow the magnitudes. (Patterns
/// of NaN get some number too; they have no order among values.)
pub open spec fn cpu_rank(bits: u32) -> u32 {
    let b: u32 = if bits == 0x8000_0000 {
        0
    } else {
        bits
    };
    if b >= 0x8000_0000 {
        (0xffff_ffff - b) as u32
    } else {
        (b + 0x8000_0000) as u32
    }
}

/// CPU ranks follow the values of the usages: among non-negative patterns
/// the rank rises with the pattern, among negative ones it falls as the
/// magnitude rises, every negative value ranks below every non-negative
/// one, and two patterns share a rank only when equal or both zero.
pub proof fn lemma_cpu_rank_orders_values(a: u32, b: u32)
    ensures
        a < 0x8000_0000 && b < 0x8000_0000 ==> (cpu_rank(a) < cpu_rank(b) <==> a < b),
        a > 0x8000_0000 && b > 0x8000_0000 ==> (cpu_rank(a) < cpu_rank(b) <==> a > b),
        a > 0x8000_0000 && b < 0x8000_0000 ==> cpu_rank(a) < cpu_rank(b),
        a == 0x8000_0000 && b < 0x8000_0000 ==> (cpu_rank(a) < cpu_rank(b) <==> 0 < b),
        a > 0x8000_0000 && b == 0x8000_0000 ==> cpu_rank(a) < cpu_rank(b),
        cpu_rank(a) == cpu_rank(b) <==> (a == b || (a % 0x8000_0000 == 0 && b % 0x8000_0000 == 0)),
{
}

/// The rank of a CPU usage bit pattern.
pub fn cpu_rank_of(bits: u32) -> (r: u32)
    ensures
        r == cpu_rank(bits),
{
    let b: u32 = if bits == 0x8000_0000 {
        0
    } else {
        bits
    };
    if b >= 0x8000_0000 {
        0xffff_ffff - b
    } else {
        b + 0x8000_0000
    }
}

/// `a` belongs strictly before `b` under `key`.
pub open spec fn goes_before(a: ProcessSnapshot, b: ProcessSnapshot, key: SortKey) -> bool {
    match key {
        SortKey::Name => text_less(a.name@, b.name@),
        SortKey::Cpu => cpu_rank(a.cpu_usage) > cpu_rank(b.cpu_usage),
        SortKey::Memory => a.memory_bytes > b.memory_bytes,
        SortKey::Status => text_less(a.status@, b.status@),
        SortKey::Pid => a.pid < b.pid,
    }
}

/// `a` and `b` are equal in the field that `key` orders by.
pub open spec fn same_rank(a: ProcessSnapshot, b: ProcessSnapshot, key: SortKey) -> bool {
    match key {
        SortKey::Name => a.name@ == b.name@,
        SortKey::Cpu => cpu_rank(a.cpu_usage) == cpu_rank(b.cpu_usage),
        SortKey::Memory => a.memory_bytes == b.memory_bytes,
        SortKey::Status => a.status@ == b.status@,
        SortKey::Pid => a.pid == b.pid,
    }
}

/// The order of positions in `s` that a stable sort follows: by the key, and
/// among equal keys by position.
pub open spec fn position_order(s: Seq<ProcessSnapshot>, key: SortKey) -> spec_fn(int, int) -> bool {
    |i: int, j: int| goes_before(s[i], s[j], key) || (same_rank(s[i], s[j], key) && i <= j)
}

/// The positions of `s` in stably sorted order.
pub open spec fn sorted_positions(s: Seq<ProcessSnapshot>, key: SortKey) -> Seq<int> {
    Seq::new(s.len(), |i: int| i).sort_by(position_order(s, key))
}

/// `s` sorted stably by `key`: ordered by the key, with entries of equal key
/// in the order they were given.
pub open spec fn stable_sorted(s: Seq<ProcessSnapshot>, key: SortKey) -> Seq<ProcessSnapshot> {
    let pos = sorted_positions(s, key);
    Seq::new(s.len(), |k: int| s[pos[k]])
}

/// For any two snapshots exactly one holds: the first goes before the
/// second, the second before the first, or they rank the same; ranking is
/// transitive.
pub proof fn lemma_rank_laws(a: ProcessSnapshot, b: ProcessSnapshot, c: ProcessSnapshot, key: SortKey)
    ensures
        !goes_before(a, a, key),
        same_rank(a, a, key),
        goes_before(a, b, key) || goes_before(b, a, key) || same_rank(a, b, key),
        !(goes_before(a, b, key) && goes_before(b, a, key)),
        !(goes_before(a, b, key) && same_rank(a, b, key)),
        same_rank(a, b, key) ==> same_rank(b, a, key),
        same_rank(a, b, key) && same_rank(b, c, key) ==> same_rank(a, c, key),
        goes_before(a, b, key) && goes_before(b, c, key) ==> goes_before(a, c, key),
        goes_before(a, b, key) && same_rank(b, c, key) ==> goes_before(a, c, key),
        same_rank(a, b, key) && goes_before(b, c, key) ==> goes_before(a, c, key),
{
    match key {
        SortKey::Name => {
            lemma_text_less_irreflexive(a.name@);
            lemma_text_less_total(a.name@, b.name@);
            if text_less(a.name@, b.name@) && text_less(b.name@, c.name@) {
                lemma_text_less_transitive(a.name@, b.name@, c.name@);
            }
        },
        SortKey::Status => {
            lemma_text_less_irreflexive(a.status@);
            lemma_text_less_total(a.status@, b.status@);
            if text_less(a.status@, b.status@) && text_less(b.status@, c.status@) {
                lemma_text_less_transitive(a.status@, b.status@, c.status@);
            }
        },
        _ => {},
    }
}

/// The order of positions of a stable sort is a total order.
pub proof fn lemma_position_order_total(s: Seq<ProcessSnapshot>, key: SortKey)
    ensures
        total_ordering(position_order(s, key)),
{
    let le = position_order(s, key);
    assert forall|i: int| #[trigger] le(i, i) by {
        lemma_rank_laws(s[i], s[i], s[i], key);
    }
    assert forall|i: int, j: int| #[trigger] le(i, j) && #[trigger] le(j, i) implies i == j by {
        lemma_rank_laws(s[i], s[j], s[j], key);
        lemma_rank_laws(s[j], s[i], s[i], key);
    }
    assert forall|i: int, j: int, k: int| #[trigger] le(i, j) && #[trigger] le(j, k) implies le(
        i,
        k,
    ) by {
        lemma_rank_laws(s[i], s[j], s[k], key);
    }
    assert forall|i: int, j: int| #[trigger] le(i, j) || #[trigger] le(j, i) by {
        lemma_rank_laws(s[i], s[j], s[j], key);
    }
    assert(vstd::relations::reflexive(le));
    assert(vstd::relations::antisymmetric(le));
    assert(vstd::relations::transitive(le));
    assert(vstd::relations::strongly_connected(le));
}

/// Whether `a` belongs strictly before `b` under `key`.
fn precedes(a: &ProcessSnapshot, b: &ProcessSnapshot, key: SortKey) -> (r: bool)
    ensures
        r == goes_before(*a, *b, key),
{
    match key {
        SortKey::Name => str_less(a.name.as_str(), b.name.as_str()),
        SortKey::Cpu => cpu_rank_of(a.cpu_usage) > cpu_rank_of(b.cpu_usage),
        SortKey::Memory => a.memory_bytes > b.memory_bytes,
        SortKey::Status => str_less(a.status.as_str(), b.status.as_str()),
        SortKey::Pid => a.pid < b.pid,
    }
}

/// Sorts `procs` stably by `key`.
pub fn sort_by_key(procs: &mut Vec<ProcessSnapshot>, key: SortKey)
    ensures
        final(procs)@ == stable_sorted(old(procs)@, key),
        forall|i: int, j: int|
            #![trigger final(procs)@[i], final(procs)@[j]]
            0 <= i < j < final(procs)@.len() ==> {
                let r = final(procs)@;
                &&& key == SortKey::Name ==> !text_less(r[j].name@, r[i].name@)
                &&& key == SortKey::Status ==> !text_less(r[j].status@, r[i].status@)
                &&& key == SortKey::Cpu ==> cpu_rank(r[i].cpu_usage) >= cpu_rank(r[j].cpu_usage)
                &&& key == SortKey::Memory ==> r[i].memory_bytes >= r[j].memory_bytes
                &&& key == SortKey::Pid ==> r[i].pid <= r[j].pid
            },
{
    broadcast use vstd::seq_lib::group_to_multiset_ensures;

    let ghost s = old(procs)@;
    let ghost le = position_order(s, key);
    let ghost range = Seq::new(s.len(), |i: int| i);
    let mut out: Vec<ProcessSnapshot> = Vec::new();
    let ghost mut ids: Seq<int> = Seq::empty();
    let ghost mut taken: int = 0;
    assert(procs@ =~= s.subrange(0, s.len() as int));
    assert(range.take(0) =~= Seq::<int>::empty());
    while procs.len() > 0
        invariant
            le == position_order(s, key),
            range == Seq::new(s.len(), |i: int| i),
            0 <= taken <= s.len(),
            procs@ == s.subrange(taken, s.len() as int),
            out@.len() == ids.len(),
            forall|k: int| 0 <= k < ids.len() ==> 0 <= #[trigger] ids[k] < taken,
            forall|k: int| 0 <= k < ids.len() ==> #[trigger] out@[k] == s[ids[k]],
            sorted_by(ids, le),
            ids.to_multiset() == range.take(taken).to_multiset(),
        decreases procs@.len(),
    {
        let x = procs.remove(0);
        assert(x == s[taken]);
        let mut pos: usize = 0;
        while pos < out.len() && !precedes(&x, &out[pos], key)
            invariant
                0 <= pos <= out@.len(),
                forall|k: int| 0 <= k < pos ==> !goes_before(x, #[trigger] out@[k], key),
            decreases out@.len() - pos,
        {
            pos = pos + 1;
        }
        let ghost before = ids;
        let ghost out_before = out@;
        out.insert(pos, x);
        proof {
            ids = ids.insert(pos as int, taken);
            lemma_position_order_total(s, key);
            // positions before `pos` go no later than the new one; those from `pos` on go after it
            assert forall|a: int| 0 <= a < pos implies #[trigger] le(before[a], taken) by {
                lemma_rank_laws(s[before[a]], s[taken], s[taken], key);
                assert(out_before[a] == s[before[a]]);
            }
            if pos < before.len() {
                assert(out_before[pos as int] == s[before[pos as int]]);
                assert(le(taken, before[pos as int]));
            }
            assert forall|a: int, b: int| 0 <= a < b < ids.len() implies #[trigger] le(ids[a], ids[b]) by {
                if b < pos {
                    assert(le(before[a], before[b]));
                } else if a > pos {
                    assert(le(before[a - 1], before[b - 1]));
                } else if a == pos {
                    if b > pos + 1 {
                        assert(le(before[pos as int], before[b - 1]));
                    }
                } else {
                    if b == pos {
                    } else {
                        assert(le(before[a], taken));
                        assert(le(taken, before[pos as int]));
                        assert(le(before[pos as int], before[b - 1]) || b - 1 == pos);
                    }
                }
            }
            assert forall|k: int| 0 <= k < ids.len() implies #[trigger] out@[k] == s[ids[k]] by {
                if k < pos {
                    assert(out@[k] == out_before[k]);
                } else if k > pos {
                    assert(out@[k] == out_before[k - 1]);
                }
            }
            vstd::seq_lib::to_multiset_insert(before, pos as int, taken);
            assert(range.take(taken + 1) =~= range.take(taken).push(taken));
            vstd::seq_lib::to_multiset_build(range.take(taken), taken);
            taken = taken + 1;
            assert(procs@ =~= s.subrange(taken, s.len() as int));
        }
    }
    proof {
        assert(range.take(s.len() as int) =~= range);
        lemma_position_order_total(s, key);
        range.lemma_sort_by_ensures(le);
        vstd::seq_lib::lemma_sorted_unique(ids, sorted_positions(s, key), le);
        assert(ids == sorted_positions(s, key));
        vstd::seq_lib::to_multiset_len(ids);
        vstd::seq_lib::to_multiset_len(range);
        assert(ids.len() == s.len());
        assert forall|k: int| 0 <= k < s.len() implies #[trigger] out@[k] == stable_sorted(s, key)[k] by {
            assert(out@[k] == s[ids[k]]);
        }
        assert(out@ =~= stable_sorted(s, key));
    }
    *procs = out;
    proof {
        let r = procs@;
        lemma_stable_sorted_by_field(s, key);
        assert forall|i: int, j: int| #![trigger r[i], r[j]] 0 <= i < j < r.len() implies {
            &&& key == SortKey::Name ==> !text_less(r[j].name@, r[i].name@)
            &&& key == SortKey::Status ==> !text_less(r[j].status@, r[i].status@)
            &&& key == SortKey::Cpu ==> cpu_rank(r[i].cpu_usage) >= cpu_rank(r[j].cpu_usage)
            &&& key == SortKey::Memory ==> r[i].memory_bytes >= r[j].memory_bytes
            &&& key == SortKey::Pid ==> r[i].pid <= r[j].pid
        } by {
            assert(r[i] == stable_sorted(s, key)[i]);
            assert(r[j] == stable_sorted(s, key)[j]);
        }
    }
}

/// Sorts the processes by the named field: "name", "cpu" (highest first),
/// "memory" or "mem" (largest first), "status", or by process id for any other
/// option; the option is compared without regard to case, and processes that
/// tie keep their order.
pub fn sort_processes(procs: &mut Vec<ProcessSnapshot>, sort_by: &str)
    ensures
        final(procs)@ == stable_sorted(old(procs)@, sort_key_for(lowercase(sort_by@))),
        forall|i: int, j: int|
            #![trigger final(procs)@[i], final(procs)@[j]]
            0 <= i < j < final(procs)@.len() ==> {
                let r = final(procs)@;
                let key = sort_key_for(lowercase(sort_by@));
                &&& key == SortKey::Name ==> !text_less(r[j].name@, r[i].name@)
                &&& key == SortKey::Status ==> !text_less(r[j].status@, r[i].status@)
                &&& key == SortKey::Cpu ==> cpu_rank(r[i].cpu_usage) >= cpu_rank(r[j].cpu_usage)
                &&& key == SortKey::Memory ==> r[i].memory_bytes >= r[j].memory_bytes
                &&& key == SortKey::Pid ==> r[i].pid <= r[j].pid
            },
{
    let key = sort_key_of(sort_by);
    sort_by_key(procs, key);
}

/// Sequences with the same elements keep the same elements under any map.
proof fn lemma_image_multiset<A, B>(a: Seq<A>, b: Seq<A>, f: spec_fn(A) -> B)
    requires
        a.to_multiset() == b.to_multiset(),
    ensures
        a.map_values(f).to_multiset() == b.map_values(f).to_multiset(),
    decreases a.len(),
{
    broadcast use vstd::seq_lib::group_to_multiset_ensures;
    broadcast use vstd::multiset::group_multiset_axioms;

    if a.len() == 0 {
        vstd::seq_lib::to_multiset_len(a);
        vstd::seq_lib::to_multiset_len(b);
        assert(a.map_values(f) =~= Seq::<B>::empty());
        assert(b.map_values(f) =~= Seq::<B>::empty());
    } else {
        let x = a[0];
        vstd::seq_lib::to_multiset_contains(a, x);
        assert(a.contains(x));
        vstd::seq_lib::to_multiset_contains(b, x);
        let idx = choose|idx: int| 0 <= idx < b.len() && b[idx] == x;
        vstd::seq_lib::to_multiset_remove(a, 0);
        vstd::seq_lib::to_multiset_remove(b, idx);
        assert(a.remove(0) =~= a.drop_first());
        lemma_image_multiset(a.drop_first(), b.remove(idx), f);
        let fa = a.map_values(f);
        let fb = b.map_values(f);
        assert(fa.remove(0) =~= a.drop_first().map_values(f));
        assert(fb.remove(idx) =~= b.remove(idx).map_values(f));
        vstd::seq_lib::to_multiset_remove(fa, 0);
        vstd::seq_lib::to_multiset_remove(fb, idx);
        vstd::seq_lib::to_multiset_contains(fa, f(x));
        vstd::seq_lib::to_multiset_contains(fb, f(x));
        assert(fa[0] == f(x));
        assert(fb[idx] == f(x));
        assert(fa.to_multiset() =~= fa.remove(0).to_multiset().insert(f(x)));
        assert(fb.to_multiset() =~= fb.remove(idx).to_multiset().insert(f(x)));
    }
}

/// Stable sorting rearranges: it keeps every snapshot, as often as it occurs,
/// and each output entry is the input entry at its sorted position, every
/// position used once.
pub proof fn lemma_stable_sorted_permutes(s: Seq<ProcessSnapshot>, key: SortKey)
    ensures
        stable_sorted(s, key).len() == s.len(),
        stable_sorted(s, key).to_multiset() == s.to_multiset(),
        sorted_positions(s, key).to_multiset() == Seq::new(s.len(), |i: int| i).to_multiset(),
        forall|k: int|
            0 <= k < s.len() ==> 0 <= #[trigger] sorted_positions(s, key)[k] < s.len()
                && stable_sorted(s, key)[k] == s[sorted_positions(s, key)[k]],
{
    let range = Seq::new(s.len(), |i: int| i);
    let pos = sorted_positions(s, key);
    lemma_position_order_total(s, key);
    range.lemma_sort_by_ensures(position_order(s, key));
    vstd::seq_lib::to_multiset_len(pos);
    vstd::seq_lib::to_multiset_len(range);
    assert forall|k: int| 0 <= k < s.len() implies 0 <= #[trigger] pos[k] < s.len() by {
        vstd::seq_lib::to_multiset_contains(pos, pos[k]);
        vstd::seq_lib::to_multiset_contains(range, pos[k]);
        assert(pos.contains(pos[k]));
    }
    let pick = |i: int| s[i];
    lemma_image_multiset(pos, range, pick);
    assert(pos.map_values(pick) =~= stable_sorted(s, key));
    assert(range.map_values(pick) =~= s);
}

/// Stable sorting orders by the key, and entries of equal key keep the
/// relative order they were given in.
pub proof fn lemma_stable_sorted_ordered(s: Seq<ProcessSnapshot>, key: SortKey)
    ensures
        forall|i: int, j: int|
            0 <= i < j < s.len() ==> !goes_before(
                #[trigger] stable_sorted(s, key)[j],
                #[trigger] stable_sorted(s, key)[i],
                key,
            ),
        forall|i: int, j: int|
            0 <= i < j < s.len() && same_rank(stable_sorted(s, key)[i], stable_sorted(s, key)[j], key)
                ==> #[trigger] sorted_positions(s, key)[i] < #[trigger] sorted_positions(s, key)[j],
{
    let range = Seq::new(s.len(), |i: int| i);
    let pos = sorted_positions(s, key);
    let le = position_order(s, key);
    lemma_position_order_total(s, key);
    range.lemma_sort_by_ensures(le);
    lemma_stable_sorted_permutes(s, key);
    vstd::seq_lib::to_multiset_len(pos);
    vstd::seq_lib::to_multiset_len(range);
    assert forall|i: int, j: int| 0 <= i < j < s.len() implies !goes_before(
        #[trigger] stable_sorted(s, key)[j],
        #[trigger] stable_sorted(s, key)[i],
        key,
    ) by {
        assert(le(pos[i], pos[j]));
        lemma_rank_laws(s[pos[i]], s[pos[j]], s[pos[j]], key);
    }
    assert forall|i: int, j: int|
        0 <= i < j < s.len() && same_rank(stable_sorted(s, key)[i], stable_sorted(s, key)[j], key)
        implies #[trigger] pos[i] < #[trigger] pos[j] by {
        assert(le(pos[i], pos[j]));
        lemma_rank_laws(s[pos[i]], s[pos[j]], s[pos[j]], key);
        lemma_positions_distinct(s, key, i, j);
    }
}

/// Sorted positions are distinct.
proof fn lemma_positions_distinct(s: Seq<ProcessSnapshot>, key: SortKey, i: int, j: int)
    requires
        0 <= i < j < s.len(),
    ensures
        sorted_positions(s, key)[i] != sorted_positions(s, key)[j],
{
    let range = Seq::new(s.len(), |x: int| x);
    let pos = sorted_positions(s, key);
    lemma_stable_sorted_permutes(s, key);
    assert(range.no_duplicates());
    range.lemma_multiset_has_no_duplicates();
    vstd::seq_lib::to_multiset_len(pos);
    vstd::seq_lib::to_multiset_len(range);
    assert forall|x: int| pos.to_multiset().contains(x) implies pos.to_multiset().count(x) == 1 by {
        assert(range.to_multiset().contains(x));
    }
    pos.lemma_multiset_has_no_duplicates_conv();
    assert(pos.no_duplicates());
}

/// `p` matches a lower-cased keyword: its lower-cased name contains the keyword.
pub open spec fn matches_keyword(p: ProcessSnapshot, keyword: Seq<char>) -> bool {
    contains_text(lowercase(p.name@), keyword)
}

/// The snapshots that match `keyword`, in the order they were given.
pub open spec fn matching(procs: Seq<ProcessSnapshot>, keyword: Seq<char>) -> Seq<ProcessSnapshot>
    decreases procs.len(),
{
    if procs.len() == 0 {
        Seq::empty()
    } else {
        let r = matching(procs.drop_last(), keyword);
        if matches_keyword(procs.last(), keyword) {
            r.push(procs.last())
        } else {
            r
        }
    }
}

/// The snapshots kept by an optional filter (compared in lower case).
pub open spec fn kept_by_filter(procs: Seq<ProcessSnapshot>, filter: Option<String>) -> Seq<
    ProcessSnapshot,
> {
    match filter {
        Some(f) => matching(procs, lowercase(f@)),
        None => procs,
    }
}

/// At most the first `limit` entries of `s`.
pub open spec fn first_n(s: Seq<ProcessSnapshot>, limit: Option<usize>) -> Seq<ProcessSnapshot> {
    match limit {
        Some(n) => if n < s.len() {
            s.take(n as int)
        } else {
            s
        },
        None => s,
    }
}

/// Whether the name of `p` matches a lower-cased keyword, without regard to case.
pub fn process_matches(p: &ProcessSnapshot, keyword: &str) -> (r: bool)
    ensures
        r == matches_keyword(*p, keyword@),
        r == contains_text(lowercase(p.name@), keyword@),
{
    let name = to_lowercase(p.name.as_str());
    text_contains(name.as_str(), keyword)
}

/// The snapshots that a process listing shows: those matching the filter
/// (if any), sorted by `sort_by` as `sort_processes` does, cut to at most
/// `limit` entries.
pub fn select_processes(
    procs: &Vec<ProcessSnapshot>,
    filter: &Option<String>,
    sort_by: &str,
    limit: Option<usize>,
) -> (r: Vec<ProcessSnapshot>)
    ensures
        r@ == first_n(
            stable_sorted(kept_by_filter(procs@, *filter), sort_key_for(lowercase(sort_by@))),
            limit,
        ),
        forall|i: int|
            #![trigger r@[i]]
            0 <= i < r@.len() ==> match *filter {
                Some(f) => contains_text(lowercase(r@[i].name@), lowercase(f@)),
                None => true,
            },
        limit is None ==> forall|e: ProcessSnapshot|
            #[trigger] r@.contains(e) <==> procs@.contains(e) && match *filter {
                Some(f) => contains_text(lowercase(e.name@), lowercase(f@)),
                None => true,
            },
{
    let mut kept: Vec<ProcessSnapshot> = Vec::new();
    match filter {
        None => {
            let mut i: usize = 0;
            while i < procs.len()
                invariant
                    0 <= i <= procs@.len(),
                    kept@ == procs@.take(i as int),
                decreases procs@.len() - i,
            {
                kept.push(procs[i].clone());
                assert(procs@.take(i + 1) =~= procs@.take(i as int).push(procs@[i as int]));
                i = i + 1;
            }
            assert(procs@.take(procs@.len() as int) =~= procs@);
        },
        Some(keyword) => {
            let lower = to_lowercase(keyword.as_str());
            let mut i: usize = 0;
            while i < procs.len()
                invariant
                    0 <= i <= procs@.len(),
                    lower@ == lowercase(keyword@),
                    kept@ == matching(procs@.take(i as int), lower@),
                decreases procs@.len() - i,
            {
                assert(procs@.take(i + 1).drop_last() =~= procs@.take(i as int));
                if process_matches(&procs[i], lower.as_str()) {
                    kept.push(procs[i].clone());
                }
                i = i + 1;
            }
            assert(procs@.take(procs@.len() as int) =~= procs@);
        },
    }
    sort_processes(&mut kept, sort_by);
    if let Some(n) = limit {
        kept.truncate(n);
    }
    proof {
        if let Some(f) = filter {
            lemma_selection_matches(
                procs@,
                lowercase(f@),
                sort_key_for(lowercase(sort_by@)),
                limit,
            );
            let shown = first_n(
                stable_sorted(matching(procs@, lowercase(f@)), sort_key_for(lowercase(sort_by@))),
                limit,
            );
            assert(kept@ == shown);
            assert forall|i: int| 0 <= i < kept@.len() implies contains_text(
                lowercase(#[trigger] kept@[i].name@),
                lowercase(f@),
            ) by {
                assert(matches_keyword(shown[i], lowercase(f@)));
            }
        }
        if limit is None {
            let key = sort_key_for(lowercase(sort_by@));
            let chosen = kept_by_filter(procs@, *filter);
            lemma_stable_sorted_permutes(chosen, key);
            if let Some(f) = filter {
                lemma_matching_keeps_names(procs@, lowercase(f@));
            }
            assert forall|e: ProcessSnapshot| #[trigger] kept@.contains(e) <==> chosen.contains(e) by {
                vstd::seq_lib::to_multiset_contains(kept@, e);
                vstd::seq_lib::to_multiset_contains(chosen, e);
            }
        }
    }
    kept
}

/// Every snapshot that a listing selects matches the filter keyword, and
/// there are at most `limit` of them.
pub proof fn lemma_selection_matches(
    procs: Seq<ProcessSnapshot>,
    keyword: Seq<char>,
    key: SortKey,
    limit: Option<usize>,
)
    ensures
        forall|i: int|
            0 <= i < first_n(stable_sorted(matching(procs, keyword), key), limit).len()
                ==> matches_keyword(
                #[trigger] first_n(stable_sorted(matching(procs, keyword), key), limit)[i],
                keyword,
            ),
        limit matches Some(n) ==> first_n(stable_sorted(matching(procs, keyword), key), limit).len()
            <= n,
{
    let m = matching(procs, keyword);
    lemma_matching_all_match(procs, keyword);
    lemma_stable_sorted_permutes(m, key);
    let r = first_n(stable_sorted(m, key), limit);
    assert forall|i: int| 0 <= i < r.len() implies matches_keyword(#[trigger] r[i], keyword) by {
        assert(r[i] == stable_sorted(m, key)[i]);
        let p = sorted_positions(m, key)[i];
        assert(m[p] == stable_sorted(m, key)[i]);
    }
}

/// Every snapshot kept by a keyword matches it.
pub proof fn lemma_matching_all_match(procs: Seq<ProcessSnapshot>, keyword: Seq<char>)
    ensures
        forall|i: int|
            0 <= i < matching(procs, keyword).len() ==> matches_keyword(
                #[trigger] matching(procs, keyword)[i],
                keyword,
            ),
    decreases procs.len(),
{
    if procs.len() > 0 {
        lemma_matching_all_match(procs.drop_last(), keyword);
        let r = matching(procs.drop_last(), keyword);
        assert forall|i: int| 0 <= i < matching(procs, keyword).len() implies matches_keyword(
            #[trigger] matching(procs, keyword)[i],
            keyword,
        ) by {
            if i < r.len() {
                assert(matching(procs, keyword)[i] == r[i]);
            }
        }
    }
}

/// What a stable sort guarantees of each pair of entries, field by field: by
/// name or status, no later entry's text comes before an earlier one's in
/// code-point order; by CPU, usage never rises along the list; by memory,
/// use never rises; by id, ids never fall. Entries that tie in the field keep
/// the order in which they were given.
pub proof fn lemma_stable_sorted_by_field(s: Seq<ProcessSnapshot>, key: SortKey)
    ensures
        forall|i: int, j: int|
            #![trigger stable_sorted(s, key)[i], stable_sorted(s, key)[j]]
            0 <= i < j < s.len() ==> {
                let r = stable_sorted(s, key);
                &&& key == SortKey::Name ==> !text_less(r[j].name@, r[i].name@)
                &&& key == SortKey::Status ==> !text_less(r[j].status@, r[i].status@)
                &&& key == SortKey::Cpu ==> cpu_rank(r[i].cpu_usage) >= cpu_rank(r[j].cpu_usage)
                &&& key == SortKey::Memory ==> r[i].memory_bytes >= r[j].memory_bytes
                &&& key == SortKey::Pid ==> r[i].pid <= r[j].pid
            },
        forall|i: int, j: int|
            0 <= i < j < s.len() && (match key {
                SortKey::Name => stable_sorted(s, key)[i].name@ == stable_sorted(s, key)[j].name@,
                SortKey::Cpu => cpu_rank(stable_sorted(s, key)[i].cpu_usage) == cpu_rank(
                    stable_sorted(s, key)[j].cpu_usage,
                ),
                SortKey::Memory => stable_sorted(s, key)[i].memory_bytes == stable_sorted(
                    s,
                    key,
                )[j].memory_bytes,
                SortKey::Status => stable_sorted(s, key)[i].status@ == stable_sorted(s, key)[j].status@,
                SortKey::Pid => stable_sorted(s, key)[i].pid == stable_sorted(s, key)[j].pid,
            }) ==> #[trigger] sorted_positions(s, key)[i] < #[trigger] sorted_positions(s, key)[j],
{
    lemma_stable_sorted_ordered(s, key);
}

/// A limit keeps the first entries of a list: as many as the limit allows,
/// or all of them when there are fewer or there is no limit.
pub proof fn lemma_first_n_keeps_front(s: Seq<ProcessSnapshot>, limit: Option<usize>)
    ensures
        first_n(s, limit).len() == match limit {
            Some(n) => if (n as int) < s.len() {
                n as int
            } else {
                s.len() as int
            },
            None => s.len() as int,
        },
        first_n(s, limit) == s.take(first_n(s, limit).len() as int),
{
    assert(s.take(s.len() as int) =~= s);
}

/// A keyword keeps exactly the listed snapshots whose lower-cased name
/// contains it; nothing else about a snapshot, such as its status, counts.
pub proof fn lemma_matching_keeps_names(procs: Seq<ProcessSnapshot>, keyword: Seq<char>)
    ensures
        forall|e: ProcessSnapshot|
            #[trigger] matching(procs, keyword).contains(e) <==> procs.contains(e) && contains_text(
                lowercase(e.name@),
                keyword,
            ),
    decreases procs.len(),
{
    if procs.len() > 0 {
        let front = procs.drop_last();
        lemma_matching_keeps_names(front, keyword);
        let r = matching(front, keyword);
        assert forall|e: ProcessSnapshot| #[trigger] matching(procs, keyword).contains(e) <==> procs.contains(
            e,
        ) && contains_text(lowercase(e.name@), keyword) by {
            assert(procs =~= front.push(procs.last()));
            if matching(procs, keyword).contains(e) {
                let i = choose|i: int| 0 <= i < matching(procs, keyword).len() && matching(procs, keyword)[i] == e;
                if i < r.len() {
                    assert(r[i] == e);
                    assert(r.contains(e));
                    let k = choose|k: int| 0 <= k < front.len() && front[k] == e;
                    assert(procs[k] == e);
                } else {
                    assert(e == procs.last());
                    assert(procs[procs.len() - 1] == e);
                }
            }
            if procs.contains(e) && contains_text(lowercase(e.name@), keyword) {
                let k = choose|k: int| 0 <= k < procs.len() && procs[k] == e;
                if k < front.len() {
                    assert(front[k] == e);
                    assert(r.contains(e));
                    let i = choose|i: int| 0 <= i < r.len() && r[i] == e;
                    assert(matching(procs, keyword)[i] == e);
                } else {
                    let m = matching(procs, keyword);
                    assert(m[m.len() - 1] == e);
                }
            }
        }
    }
}

/// Whether a snapshot matches a keyword depends on its name alone: two
/// snapshots with the same name match the same keywords, and a snapshot
/// matches when its lower-cased name contains the keyword.
pub proof fn lemma_match_depends_on_name(p: ProcessSnapshot, q: ProcessSnapshot, keyword: Seq<char>)
    ensures
        matches_keyword(p, keyword) == contains_text(lowercase(p.name@), keyword),
        p.name@ == q.name@ ==> matches_keyword(p, keyword) == matches_keyword(q, keyword),
{
}

/// Sorting an already sorted list changes nothing.
pub proof fn lemma_stable_sort_idempotent(s: Seq<ProcessSnapshot>, key: SortKey)
    ensures
        stable_sorted(stable_sorted(s, key), key) == stable_sorted(s, key),
{
    let r = stable_sorted(s, key);
    lemma_stable_sorted_permutes(s, key);
    lemma_stable_sorted_ordered(s, key);
    let le = position_order(r, key);
    let range = Seq::new(r.len(), |i: int| i);
    assert forall|i: int, j: int| 0 <= i < j < range.len() implies #[trigger] le(range[i], range[j]) by {
        lemma_rank_laws(r[i], r[j], r[j], key);
    }
    assert(sorted_by(range, le));
    lemma_position_order_total(r, key);
    range.lemma_sort_by_ensures(le);
    vstd::seq_lib::lemma_sorted_unique(range, sorted_positions(r, key), le);
    assert(stable_sorted(r, key) =~= r);
}

} // verus!
