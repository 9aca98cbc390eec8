use vstd::prelude::*;

use crate::namespace::{ns_of_name, ns_str_to_const, Namespace};
use crate::parse::{ns_link_inode, ns_symlink_to_ino};

verus! {

broadcast use vstd::seq_lib::group_to_multiset_ensures;

/// One process's membership of one namespace.
#[derive(Debug, Clone, Copy, PartialEq, Eq, Structural)]
pub struct NsCtx {
    pub nsid: u64,
    pub nstype: Namespace,
}

impl NsCtx {
    pub fn new(nsid: u64, nstype: Namespace) -> (r: NsCtx)
        ensures
            r.nsid == nsid,
            r.nstype == nstype,
    {
        NsCtx { nsid, nstype }
    }
}

/// What was read of one process: its command line, its identifier and its
/// parent's, and the namespaces it belongs to, in the order they were found.
pub struct StatNs {
    pub cmdline: String,
    pub pid: i32,
    pub ppid: i32,
    pub nses: Vec<NsCtx>,
}

impl StatNs {
    pub fn new(cmdline: String, pid: i32, ppid: i32, nses: Vec<NsCtx>) -> (r: StatNs)
        ensures
            r.cmdline == cmdline,
            r.pid == pid,
            r.ppid == ppid,
            r.nses == nses,
    {
        StatNs { cmdline, pid, ppid, nses }
    }
}

/// The membership that an entry `name` of a namespace link directory, whose
/// link reads `target`, stands for: the name must be a canonical namespace
/// name and the target well formed.
pub open spec fn entry_membership(name: Seq<char>, target: Seq<char>) -> Option<NsCtx> {
    match (ns_of_name(name), ns_link_inode(target)) {
        (Some(n), Some(v)) => Some(NsCtx { nsid: v, nstype: n }),
        _ => None,
    }
}

/// The memberships that a list of (entry name, link target) pairs gives, in
/// their order; entries that stand for none are left out.
pub open spec fn entries_memberships(entries: Seq<(String, String)>) -> Seq<NsCtx>
    decreases entries.len(),
{
    if entries.len() == 0 {
        Seq::empty()
    } else {
        let rest = entries_memberships(entries.drop_last());
        match entry_membership(entries.last().0@, entries.last().1@) {
            Some(c) => rest.push(c),
            None => rest,
        }
    }
}

/// Resolves one entry of a namespace link directory.
pub fn resolve_ns_entry(name: &str, target: &str) -> (r: Option<NsCtx>)
    ensures
        r == entry_membership(name@, target@),
{
    match ns_str_to_const(name) {
        None => None,
        Some(n) => match ns_symlink_to_ino(target) {
            None => None,
            Some(v) => Some(NsCtx { nsid: v, nstype: n }),
        },
    }
}

/// Resolves the symbolic links of a process's namespace directory, given as
/// (entry name, link target) pairs, into that process's memberships.
pub fn get_ns_stat(entries: &Vec<(String, String)>) -> (r: Vec<NsCtx>)
    ensures
        r@ == entries_memberships(entries@),
{
    let mut result: Vec<NsCtx> = Vec::new();
    let mut i: usize = 0;
    while i < entries.len()
        invariant
            0 <= i <= entries@.len(),
            result@ == entries_memberships(entries@.subrange(0, i as int)),
        decreases entries@.len() - i,
    {
        assert(entries@.subrange(0, i + 1).drop_last() == entries@.subrange(0, i as int));
        let entry = &entries[i];
        match resolve_ns_entry(entry.0.as_str(), entry.1.as_str()) {
            Some(c) => result.push(c),
            None => {},
        }
        i += 1;
    }
    assert(entries@.subrange(0, entries@.len() as int) == entries@);
    result
}

/// The snapshots that hold at least one membership, in their order.
pub open spec fn with_memberships(s: Seq<StatNs>) -> Seq<StatNs>
    decreases s.len(),
{
    if s.len() == 0 {
        Seq::empty()
    } else if s[0].nses@.len() > 0 {
        seq![s[0]] + with_memberships(s.drop_first())
    } else {
        with_memberships(s.drop_first())
    }
}

pub open spec fn sorted_by_pid(s: Seq<StatNs>) -> bool {
    forall|i: int, j: int| 0 <= i < j < s.len() ==> s[i].pid <= s[j].pid
}

/// Every snapshot that `with_memberships` keeps holds a membership.
proof fn lemma_with_memberships_nonempty(s: Seq<StatNs>, x: StatNs)
    requires
        with_memberships(s).to_multiset().contains(x),
    ensures
        x.nses@.len() > 0,
    decreases s.len(),
{
    if s.len() > 0 {
        let rest = with_memberships(s.drop_first());
        if s[0].nses@.len() > 0 {
            assert(seq![s[0]] + rest == rest.insert(0, s[0]));
            if x != s[0] {
                lemma_with_memberships_nonempty(s.drop_first(), x);
            }
        } else {
            lemma_with_memberships_nonempty(s.drop_first(), x);
        }
    }
}

/// Drops the snapshots without memberships and orders the rest by process
/// identifier, ascending.
pub fn collect_snapshots(svec: Vec<StatNs>) -> (r: Vec<StatNs>)
    ensures
        r@.to_multiset() == with_memberships(svec@).to_multiset(),
        sorted_by_pid(r@),
        forall|i: int| 0 <= i < r@.len() ==> (#[trigger] r@[i]).nses@.len() > 0,
{
    let ghost orig = svec@;
    let mut rest = svec;
    let mut out: Vec<StatNs> = Vec::new();
    while rest.len() > 0
        invariant
            rest@.len() <= orig.len(),
            rest@ == orig.subrange(0, rest@.len() as int),
            out@.to_multiset() == with_memberships(
                orig.subrange(rest@.len() as int, orig.len() as int),
            ).to_multiset(),
            sorted_by_pid(out@),
        decreases rest@.len(),
    {
        let ghost k = rest@.len() as int;
        let ghost tail = orig.subrange(k, orig.len() as int);
        let ghost longer = orig.subrange(k - 1, orig.len() as int);
        assert(longer.drop_first() == tail);
        let x = rest.pop().unwrap();
        assert(longer[0] == x);
        assert(rest@ == orig.subrange(0, k - 1));
        if x.nses.len() > 0 {
            let mut pos: usize = 0;
            while pos < out.len() && out[pos].pid < x.pid
                invariant
                    pos <= out@.len(),
                    forall|i: int| 0 <= i < pos ==> out@[i].pid < x.pid,
                decreases out@.len() - pos,
            {
                pos += 1;
            }
            let ghost before = out@;
            assert(seq![x] + with_memberships(tail) == with_memberships(tail).insert(0, x));
            out.insert(pos, x);
            assert(sorted_by_pid(out@)) by {
                assert forall|i: int, j: int| 0 <= i < j < out@.len() implies out@[i].pid
                    <= out@[j].pid by {
                    if pos < before.len() {
                        assert(before[pos as int].pid >= x.pid);
                    }
                    if j > pos && i < pos {
                        assert(before[i].pid <= before[j - 1].pid);
                    }
                    if j > pos as int + 1 && i == pos {
                        assert(before[pos as int].pid <= before[j - 1].pid);
                    }
                }
            }
        }
    }
    assert(orig.subrange(0, orig.len() as int) == orig);
    proof {
        assert forall|i: int| 0 <= i < out@.len() implies (#[trigger] out@[i]).nses@.len() > 0 by {
            assert(out@.to_multiset().contains(out@[i]));
            lemma_with_memberships_nonempty(orig, out@[i]);
        }
    }
    out
}

} // verus!
