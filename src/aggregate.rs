use vstd::prelude::*;

use std::collections::HashMap;

use crate::namespace::Namespace;
use crate::snapshot::{NsCtx, StatNs};

verus! {

broadcast use vstd::std_specs::hash::group_hash_axioms;

/// What is known of one namespace after aggregation: its kind, how many
/// memberships of it were seen, and the process that was merged last.
pub struct ListNs {
    pub nstype: Namespace,
    pub nproc: u32,
    pub pid: i32,
    pub ppid: i32,
    pub cmdline: String,
}

/// Merges one membership `c` of the process `s` into `m`: a first sighting
/// starts a count of one, a later one adds one; the kind and the process
/// fields are those of this membership.
pub open spec fn merge_one(m: Map<u64, ListNs>, s: StatNs, c: NsCtx) -> Map<u64, ListNs> {
    m.insert(
        c.nsid,
        ListNs {
            nstype: c.nstype,
            nproc: if m.contains_key(c.nsid) {
                (m[c.nsid].nproc + 1) as u32
            } else {
                1
            },
            pid: s.pid,
            ppid: s.ppid,
            cmdline: s.cmdline,
        },
    )
}

/// Merges the first `n` memberships of `s` into `m`, in order.
pub open spec fn merge_prefix(m: Map<u64, ListNs>, s: StatNs, n: nat) -> Map<u64, ListNs>
    decreases n,
{
    if n == 0 || n > s.nses@.len() {
        m
    } else {
        merge_one(merge_prefix(m, s, (n - 1) as nat), s, s.nses@[n - 1])
    }
}

/// Merges all memberships of `s` into `m`.
pub open spec fn merge_snapshot(m: Map<u64, ListNs>, s: StatNs) -> Map<u64, ListNs> {
    merge_prefix(m, s, s.nses@.len())
}

/// Folds the snapshots `ss`, in order, into `m`.
pub open spec fn aggregate_from(m: Map<u64, ListNs>, ss: Seq<StatNs>) -> Map<u64, ListNs>
    decreases ss.len(),
{
    if ss.len() == 0 {
        m
    } else {
        merge_snapshot(aggregate_from(m, ss.drop_last()), ss.last())
    }
}

/// The per-namespace summary of a sequence of snapshots.
pub open spec fn aggregate(ss: Seq<StatNs>) -> Map<u64, ListNs> {
    aggregate_from(Map::empty(), ss)
}

/// The number of memberships over all snapshots.
pub open spec fn total_memberships(ss: Seq<StatNs>) -> nat
    decreases ss.len(),
{
    if ss.len() == 0 {
        0
    } else {
        total_memberships(ss.drop_last()) + ss.last().nses@.len()
    }
}

proof fn lemma_total_prefix(ss: Seq<StatNs>, i: int)
    requires
        0 <= i <= ss.len(),
    ensures
        total_memberships(ss.subrange(0, i)) <= total_memberships(ss),
    decreases ss.len(),
{
    if i < ss.len() {
        assert(ss.drop_last() == ss.subrange(0, ss.len() - 1));
        assert(ss.drop_last().subrange(0, i) == ss.subrange(0, i));
        lemma_total_prefix(ss.drop_last(), i);
    } else {
        assert(ss.subrange(0, i) == ss);
    }
}

/// Folds the snapshots, in order, into a map from namespace identifier to
/// its summary.
pub fn statns_to_nslist(svec: Vec<StatNs>) -> (r: HashMap<u64, ListNs>)
    requires
        total_memberships(svec@) <= u32::MAX,
    ensures
        r@ == aggregate(svec@),
{
    let mut result: HashMap<u64, ListNs> = HashMap::new();
    let mut i: usize = 0;
    while i < svec.len()
        invariant
            0 <= i <= svec@.len(),
            total_memberships(svec@) <= u32::MAX,
            result@ == aggregate(svec@.subrange(0, i as int)),
            forall|k: u64| #[trigger]
                result@.contains_key(k) ==> result@[k].nproc <= total_memberships(
                    svec@.subrange(0, i as int),
                ),
        decreases svec@.len() - i,
    {
        let statns = &svec[i];
        let ghost start = result@;
        let ghost done = total_memberships(svec@.subrange(0, i as int));
        assert(svec@.subrange(0, i + 1).drop_last() == svec@.subrange(0, i as int));
        assert(svec@.subrange(0, i + 1).last() == *statns);
        proof {
            lemma_total_prefix(svec@, i + 1);
        }
        let mut j: usize = 0;
        while j < statns.nses.len()
            invariant
                0 <= j <= statns.nses@.len(),
                done + statns.nses@.len() <= u32::MAX,
                result@ == merge_prefix(start, *statns, j as nat),
                forall|k: u64| #[trigger]
                    result@.contains_key(k) ==> result@[k].nproc <= done + j,
            decreases statns.nses@.len() - j,
        {
            let nsctx = statns.nses[j];
            let nsid = nsctx.nsid;
            let nproc: u32 = match result.get(&nsid) {
                Some(l) => l.nproc + 1,
                None => 1,
            };
            result.insert(
                nsid,
                ListNs {
                    nstype: nsctx.nstype,
                    nproc,
                    pid: statns.pid,
                    ppid: statns.ppid,
                    cmdline: statns.cmdline.clone(),
                },
            );
            j += 1;
        }
        i += 1;
    }
    assert(svec@.subrange(0, svec@.len() as int) == svec@);
    result
}

/// Whether the snapshot `s` holds a membership of namespace `k`.
pub open spec fn holds(s: StatNs, k: u64) -> bool {
    exists|j: int| 0 <= j < s.nses@.len() && (#[trigger] s.nses@[j]).nsid == k
}

/// Whether the first `n` memberships of `s` include namespace `k`.
pub open spec fn holds_within(s: StatNs, k: u64, n: nat) -> bool {
    exists|j: int| 0 <= j < n && (#[trigger] s.nses@[j]).nsid == k
}

/// No namespace appears twice among the memberships of `s`.
pub open spec fn distinct_ids(s: StatNs) -> bool {
    forall|i: int, j: int|
        0 <= i < j < s.nses@.len() ==> (#[trigger] s.nses@[i]).nsid != (#[trigger] s.nses@[j]).nsid
}

/// The number of snapshots in `ss` that hold namespace `k`.
pub open spec fn snapshots_holding(ss: Seq<StatNs>, k: u64) -> nat
    decreases ss.len(),
{
    if ss.len() == 0 {
        0
    } else {
        snapshots_holding(ss.drop_last(), k) + if holds(ss.last(), k) {
            1nat
        } else {
            0nat
        }
    }
}

/// The position of the last snapshot in `ss` that holds namespace `k`, or -1.
pub open spec fn last_holder(ss: Seq<StatNs>, k: u64) -> int
    decreases ss.len(),
{
    if ss.len() == 0 {
        -1
    } else if holds(ss.last(), k) {
        ss.len() - 1
    } else {
        last_holder(ss.drop_last(), k)
    }
}

/// Merging the memberships of one snapshot: namespace `k` is present after it
/// when it was before or the snapshot holds it; where the snapshot holds it,
/// the process fields are the snapshot's, and, with no namespace repeated in
/// the snapshot, the count grew by exactly one.
proof fn lemma_merge_prefix(m: Map<u64, ListNs>, s: StatNs, n: nat, k: u64)
    requires
        n <= s.nses@.len(),
    ensures
        merge_prefix(m, s, n).contains_key(k) == (m.contains_key(k) || holds_within(s, k, n)),
        holds_within(s, k, n) ==> {
            let r = merge_prefix(m, s, n)[k];
            &&& r.pid == s.pid
            &&& r.ppid == s.ppid
            &&& r.cmdline == s.cmdline
        },
        !holds_within(s, k, n) && m.contains_key(k) ==> merge_prefix(m, s, n)[k] == m[k],
        holds_within(s, k, n) && distinct_ids(s) && (m.contains_key(k) ==> m[k].nproc
            < u32::MAX) ==> merge_prefix(m, s, n)[k].nproc == if m.contains_key(k) {
            m[k].nproc + 1
        } else {
            1
        },
    decreases n,
{
    if n > 0 {
        let n1 = (n - 1) as nat;
        lemma_merge_prefix(m, s, n1, k);
        let c = s.nses@[n1 as int];
        if c.nsid == k {
            if distinct_ids(s) {
                assert(!holds_within(s, k, n1)) by {
                    if holds_within(s, k, n1) {
                        let j = choose|j: int| 0 <= j < n1 && (#[trigger] s.nses@[j]).nsid == k;
                        assert(s.nses@[j].nsid != s.nses@[n1 as int].nsid);
                    }
                }
            }
            assert(holds_within(s, k, n));
        } else {
            if holds_within(s, k, n) {
                let j = choose|j: int| 0 <= j < n && (#[trigger] s.nses@[j]).nsid == k;
                assert(j < n1);
                assert(holds_within(s, k, n1));
            }
            if holds_within(s, k, n1) {
                let j = choose|j: int| 0 <= j < n1 && (#[trigger] s.nses@[j]).nsid == k;
                assert(holds_within(s, k, n));
            }
        }
    }
}

proof fn lemma_holding_le_total(ss: Seq<StatNs>, k: u64)
    ensures
        snapshots_holding(ss, k) <= total_memberships(ss),
    decreases ss.len(),
{
    if ss.len() > 0 {
        lemma_holding_le_total(ss.drop_last(), k);
        if holds(ss.last(), k) {
            let j = choose|j: int| 0 <= j < ss.last().nses@.len() && (#[trigger] ss.last().nses@[j]).nsid == k;
        }
    }
}

/// Each namespace's summary counts the snapshots that hold it, and its
/// process fields are those of the last snapshot that holds it; a namespace
/// that no snapshot holds has no summary. This holds where no snapshot
/// repeats a namespace and the memberships are few enough to count.
pub proof fn lemma_member_count(ss: Seq<StatNs>, k: u64)
    requires
        total_memberships(ss) <= u32::MAX,
        forall|i: int| 0 <= i < ss.len() ==> distinct_ids(#[trigger] ss[i]),
    ensures
        aggregate(ss).contains_key(k) == (snapshots_holding(ss, k) > 0),
        aggregate(ss).contains_key(k) ==> {
            let r = aggregate(ss)[k];
            let h = last_holder(ss, k);
            &&& 0 <= h < ss.len()
            &&& r.nproc == snapshots_holding(ss, k)
            &&& r.pid == ss[h].pid
            &&& r.ppid == ss[h].ppid
            &&& r.cmdline == ss[h].cmdline
        },
    decreases ss.len(),
{
    if ss.len() > 0 {
        let dl = ss.drop_last();
        let s = ss.last();
        assert forall|i: int| 0 <= i < dl.len() implies distinct_ids(#[trigger] dl[i]) by {
            assert(dl[i] == ss[i]);
        }
        lemma_member_count(dl, k);
        lemma_holding_le_total(dl, k);
        let m = aggregate(dl);
        assert(aggregate(ss) == merge_snapshot(m, s));
        assert(distinct_ids(ss[ss.len() - 1]));
        lemma_merge_prefix(m, s, s.nses@.len(), k);
        if holds(s, k) {
            let j = choose|j: int| 0 <= j < s.nses@.len() && (#[trigger] s.nses@[j]).nsid == k;
            assert(holds_within(s, k, s.nses@.len()));
        } else {
            if holds_within(s, k, s.nses@.len()) {
                let j = choose|j: int| 0 <= j < s.nses@.len() && (#[trigger] s.nses@[j]).nsid == k;
            }
            let h = last_holder(dl, k);
            if m.contains_key(k) {
                assert(ss[h] == dl[h]);
            }
        }
    }
}

/// Folding two sequences one after the other is folding their concatenation.
pub proof fn lemma_aggregate_concat(m: Map<u64, ListNs>, a: Seq<StatNs>, b: Seq<StatNs>)
    ensures
        aggregate_from(m, a + b) == aggregate_from(aggregate_from(m, a), b),
    decreases b.len(),
{
    if b.len() > 0 {
        assert((a + b).drop_last() == a + b.drop_last());
        assert((a + b).last() == b.last());
        lemma_aggregate_concat(m, a, b.drop_last());
    } else {
        assert(a + b == a);
    }
}

/// A snapshot without memberships changes nothing, wherever it stands in the
/// sequence.
pub proof fn lemma_empty_snapshot_ignored(s1: Seq<StatNs>, e: StatNs, s2: Seq<StatNs>)
    requires
        e.nses@.len() == 0,
    ensures
        aggregate(s1 + seq![e] + s2) == aggregate(s1 + s2),
{
    let m = Map::empty();
    lemma_aggregate_concat(m, s1 + seq![e], s2);
    lemma_aggregate_concat(m, s1, seq![e]);
    lemma_aggregate_concat(m, s1, s2);
    assert(seq![e].drop_last() == Seq::<StatNs>::empty());
    assert(aggregate_from(aggregate_from(m, s1), Seq::<StatNs>::empty()) == aggregate_from(m, s1));
}

/// Aggregation is a function of the snapshot sequence alone: the same
/// sequence gives the same summaries, representatives included.
pub proof fn lemma_aggregate_deterministic(a: Seq<StatNs>, b: Seq<StatNs>)
    requires
        a == b,
    ensures
        aggregate(a) == aggregate(b),
{
}

} // verus!
