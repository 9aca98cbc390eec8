use nsutils::{
    collect_snapshots, get_next_pid, get_ns_stat, ns_const_to_str, ns_str_to_const,
    ns_symlink_to_ino, parse_ns_link, resolve_ns_entry, statns_to_nslist, Namespace, NsCtx,
    StatNs,
};

fn snapshot(cmd: &str, pid: i32, ppid: i32, nses: Vec<NsCtx>) -> StatNs {
    StatNs::new(cmd.to_string(), pid, ppid, nses)
}

fn entry(name: &str, target: &str) -> (String, String) {
    (name.to_string(), target.to_string())
}

#[test]
fn test_statns_to_nslist() {
    let mut listns: Vec<NsCtx> = Vec::<NsCtx>::new();
    let test_nsid = 4000000000u64;
    let test_pid = 12345;
    let test_ppid = 1234;

    listns.push(NsCtx::new(test_nsid, Namespace::Mount));
    let statns = StatNs::new("/bin/bash".to_string(), test_pid, test_ppid, listns);

    let mut vec_statns: Vec<StatNs> = Vec::<StatNs>::new();
    vec_statns.push(statns);

    let map_listns = statns_to_nslist(vec_statns);

    assert_eq!(ns_const_to_str(&map_listns[&test_nsid].nstype), "mnt");
    assert_eq!(map_listns[&test_nsid].nproc, 1u32);
    assert_eq!(map_listns[&test_nsid].pid, test_pid);
    assert_eq!(map_listns[&test_nsid].ppid, test_ppid);
    assert_eq!(map_listns[&test_nsid].cmdline, "/bin/bash".to_string());
}

#[test]
fn two_processes_share_a_mount_namespace() {
    let mnt = 4026531840u64;
    let pidns = 4026531838u64;
    let svec = vec![
        snapshot(
            "init",
            10,
            1,
            vec![NsCtx::new(mnt, Namespace::Mount), NsCtx::new(pidns, Namespace::Pid)],
        ),
        snapshot("sh", 20, 10, vec![NsCtx::new(mnt, Namespace::Mount)]),
    ];
    let map = statns_to_nslist(svec);
    assert_eq!(map.len(), 2);
    assert_eq!(map[&mnt].nproc, 2);
    assert_eq!(map[&mnt].pid, 20);
    assert_eq!(map[&mnt].ppid, 10);
    assert_eq!(map[&mnt].cmdline, "sh");
    assert_eq!(map[&mnt].nstype, Namespace::Mount);
    assert_eq!(map[&pidns].nproc, 1);
    assert_eq!(map[&pidns].pid, 10);
    assert_eq!(map[&pidns].nstype, Namespace::Pid);
}

#[test]
fn member_count_is_number_of_holding_snapshots() {
    let a = 100u64;
    let b = 200u64;
    let svec = vec![
        snapshot("p1", 1, 0, vec![NsCtx::new(a, Namespace::Net)]),
        snapshot("p2", 2, 1, vec![NsCtx::new(b, Namespace::Uts), NsCtx::new(a, Namespace::Net)]),
        snapshot("p3", 3, 1, vec![NsCtx::new(a, Namespace::Net)]),
        snapshot("p4", 4, 1, vec![NsCtx::new(b, Namespace::Uts)]),
    ];
    let map = statns_to_nslist(svec);
    assert_eq!(map[&a].nproc, 3);
    assert_eq!(map[&a].pid, 3);
    assert_eq!(map[&b].nproc, 2);
    assert_eq!(map[&b].pid, 4);
    assert_eq!(map[&b].cmdline, "p4");
}

#[test]
fn last_membership_sets_the_kind() {
    let svec = vec![
        snapshot("p1", 1, 0, vec![NsCtx::new(7, Namespace::Ipc)]),
        snapshot("p2", 2, 0, vec![NsCtx::new(7, Namespace::User)]),
    ];
    let map = statns_to_nslist(svec);
    assert_eq!(map[&7].nstype, Namespace::User);
    assert_eq!(map[&7].nproc, 2);
}

#[test]
fn aggregation_is_repeatable() {
    let build = || {
        vec![
            snapshot("a", 5, 1, vec![NsCtx::new(11, Namespace::Pid), NsCtx::new(12, Namespace::Net)]),
            snapshot("b", 9, 5, vec![NsCtx::new(11, Namespace::Pid)]),
        ]
    };
    let first = statns_to_nslist(build());
    let second = statns_to_nslist(build());
    assert_eq!(first.len(), second.len());
    for (k, v) in first.iter() {
        let w = &second[k];
        assert_eq!(v.nstype, w.nstype);
        assert_eq!(v.nproc, w.nproc);
        assert_eq!(v.pid, w.pid);
        assert_eq!(v.ppid, w.ppid);
        assert_eq!(v.cmdline, w.cmdline);
    }
}

#[test]
fn empty_snapshot_contributes_nothing() {
    let with_empty = vec![
        snapshot("a", 1, 0, vec![NsCtx::new(11, Namespace::Pid)]),
        snapshot("gone", 2, 0, vec![]),
        snapshot("b", 3, 0, vec![NsCtx::new(11, Namespace::Pid)]),
    ];
    let kept = collect_snapshots(with_empty);
    assert_eq!(kept.len(), 2);
    assert!(kept.iter().all(|s| s.pid != 2));
    let map = statns_to_nslist(kept);
    assert_eq!(map.len(), 1);
    assert_eq!(map[&11].nproc, 2);
    assert_eq!(map[&11].pid, 3);

    let only_empty = vec![snapshot("gone", 2, 0, vec![])];
    assert!(statns_to_nslist(only_empty).is_empty());
}

#[test]
fn nothing_discovered_gives_empty_summary() {
    let snapshots = collect_snapshots(Vec::new());
    assert!(snapshots.is_empty());
    assert!(statns_to_nslist(snapshots).is_empty());
}

#[test]
fn snapshots_are_sorted_by_pid() {
    let svec = vec![
        snapshot("c", 30, 1, vec![NsCtx::new(1, Namespace::Mount)]),
        snapshot("a", 10, 1, vec![NsCtx::new(1, Namespace::Mount)]),
        snapshot("e", 15, 1, vec![]),
        snapshot("b", 20, 1, vec![NsCtx::new(1, Namespace::Mount)]),
    ];
    let sorted = collect_snapshots(svec);
    let pids: Vec<i32> = sorted.iter().map(|s| s.pid).collect();
    assert_eq!(pids, vec![10, 20, 30]);
    let map = statns_to_nslist(sorted);
    assert_eq!(map[&1].pid, 30);
    assert_eq!(map[&1].cmdline, "c");
}

#[test]
fn parse_well_formed_link() {
    assert_eq!(
        parse_ns_link("mnt:[4026531840]"),
        Some(NsCtx::new(4026531840, Namespace::Mount))
    );
    assert_eq!(parse_ns_link("user:[1]"), Some(NsCtx::new(1, Namespace::User)));
    assert_eq!(ns_symlink_to_ino("mnt:[4026531840]"), Some(4026531840));
    assert_eq!(ns_symlink_to_ino("cgroup:[4026531835]"), Some(4026531835));
    assert_eq!(
        ns_symlink_to_ino("net:[18446744073709551615]"),
        Some(18446744073709551615)
    );
}

#[test]
fn parse_malformed_link() {
    assert_eq!(parse_ns_link("mnt:4026531840"), None);
    assert_eq!(parse_ns_link("mnt:[4026531840"), None);
    assert_eq!(parse_ns_link("mnt:[abc]"), None);
    assert_eq!(parse_ns_link("mnt:[]"), None);
    assert_eq!(parse_ns_link("cgroup:[4026531835]"), None);
    assert_eq!(ns_symlink_to_ino(":[12]"), None);
    assert_eq!(ns_symlink_to_ino("mnt[12]"), None);
    assert_eq!(ns_symlink_to_ino("mnt:[12x]"), None);
    assert_eq!(ns_symlink_to_ino("mnt:[-12]"), None);
    assert_eq!(ns_symlink_to_ino("net:[18446744073709551616]"), None);
    assert_eq!(ns_symlink_to_ino(""), None);
}

#[test]
fn unrecognised_entry_is_ignored() {
    let entries = vec![
        entry("cgroup", "cgroup:[4026531835]"),
        entry("mnt", "mnt:[4026531840]"),
        entry("time", "time:[4026531834]"),
        entry("net", "net:[4026531992]"),
    ];
    let nses = get_ns_stat(&entries);
    assert_eq!(
        nses,
        vec![
            NsCtx::new(4026531840, Namespace::Mount),
            NsCtx::new(4026531992, Namespace::Net)
        ]
    );
}

#[test]
fn malformed_target_skips_only_that_link() {
    let entries = vec![
        entry("ipc", "ipc:4026531839"),
        entry("uts", "uts:[4026531838]"),
    ];
    assert_eq!(get_ns_stat(&entries), vec![NsCtx::new(4026531838, Namespace::Uts)]);
    assert_eq!(resolve_ns_entry("ipc", "ipc:4026531839"), None);
    assert_eq!(
        resolve_ns_entry("pid", "pid:[4026531836]"),
        Some(NsCtx::new(4026531836, Namespace::Pid))
    );
}

#[test]
fn process_directory_names() {
    assert_eq!(get_next_pid("123", true), Some(123));
    assert_eq!(get_next_pid("0123", true), Some(123));
    assert_eq!(get_next_pid("123", false), None);
    assert_eq!(get_next_pid("self", true), None);
    assert_eq!(get_next_pid("12a", true), None);
    assert_eq!(get_next_pid("", true), None);
    assert_eq!(get_next_pid("2147483647", true), Some(2147483647));
    assert_eq!(get_next_pid("2147483648", true), None);
}

#[test]
fn namespace_names() {
    let all = [
        (Namespace::Ipc, "ipc"),
        (Namespace::Mount, "mnt"),
        (Namespace::Net, "net"),
        (Namespace::Pid, "pid"),
        (Namespace::User, "user"),
        (Namespace::Uts, "uts"),
    ];
    for (ns, name) in all.iter() {
        assert_eq!(ns_const_to_str(ns), *name);
        assert_eq!(ns_str_to_const(name), Some(*ns));
    }
    assert_eq!(ns_str_to_const("cgroup"), None);
    assert_eq!(ns_str_to_const("mount"), None);
    assert_eq!(ns_str_to_const(""), None);
}
