use vstd::prelude::*;

verus! {

/// The six kinds of namespace this library recognises.
#[derive(Debug, Clone, Copy, PartialEq, Eq, Structural)]
pub enum Namespace {
    Ipc,
    Mount,
    Net,
    Pid,
    User,
    Uts,
}

/// The canonical short name of a namespace kind, as it appears in a
/// process's namespace link directory.
pub open spec fn ns_name(ns: Namespace) -> Seq<char> {
    match ns {
        Namespace::Ipc => seq!['i', 'p', 'c'],
        Namespace::Mount => seq!['m', 'n', 't'],
        Namespace::Net => seq!['n', 'e', 't'],
        Namespace::Pid => seq!['p', 'i', 'd'],
        Namespace::User => seq!['u', 's', 'e', 'r'],
        Namespace::Uts => seq!['u', 't', 's'],
    }
}

/// The namespace kind whose canonical name is `name`, if any.
pub open spec fn ns_of_name(name: Seq<char>) -> Option<Namespace> {
    if name == ns_name(Namespace::Ipc) {
        Some(Namespace::Ipc)
    } else if name == ns_name(Namespace::Mount) {
        Some(Namespace::Mount)
    } else if name == ns_name(Namespace::Net) {
        Some(Namespace::Net)
    } else if name == ns_name(Namespace::Pid) {
        Some(Namespace::Pid)
    } else if name == ns_name(Namespace::User) {
        Some(Namespace::User)
    } else if name == ns_name(Namespace::Uts) {
        Some(Namespace::Uts)
    } else {
        None
    }
}

/// Names and kinds correspond one to one.
pub proof fn lemma_name_round_trip(ns: Namespace)
    ensures
        ns_of_name(ns_name(ns)) == Some(ns),
{
    assert(ns_name(Namespace::Ipc) != ns_name(Namespace::Mount));
    assert(ns_name(Namespace::Ipc) != ns_name(Namespace::Net));
    assert(ns_name(Namespace::Ipc) != ns_name(Namespace::Pid));
    assert(ns_name(Namespace::Ipc) != ns_name(Namespace::User));
    assert(ns_name(Namespace::Ipc) != ns_name(Namespace::Uts));
    assert(ns_name(Namespace::Mount) != ns_name(Namespace::Net));
    assert(ns_name(Namespace::Mount) != ns_name(Namespace::Pid));
    assert(ns_name(Namespace::Mount) != ns_name(Namespace::User));
    assert(ns_name(Namespace::Mount) != ns_name(Namespace::Uts));
    assert(ns_name(Namespace::Net) != ns_name(Namespace::Pid));
    assert(ns_name(Namespace::Net) != ns_name(Namespace::User));
    assert(ns_name(Namespace::Net) != ns_name(Namespace::Uts));
    assert(ns_name(Namespace::Pid) != ns_name(Namespace::User));
    assert(ns_name(Namespace::Pid) != ns_name(Namespace::Uts));
    assert(ns_name(Namespace::User) != ns_name(Namespace::Uts));
}

/// Character-wise equality of two strings.
pub fn str_eq(a: &str, b: &str) -> (r: bool)
    ensures
        r == (a@ == b@),
{
    let n = a.unicode_len();
    if n != b.unicode_len() {
        return false;
    }
    let mut i: usize = 0;
    while i < n
        invariant
            n == a@.len(),
            n == b@.len(),
            0 <= i <= n,
            a@.subrange(0, i as int) == b@.subrange(0, i as int),
        decreases n - i,
    {
        if a.get_char(i) != b.get_char(i) {
            return false;
        }
        assert(a@.subrange(0, i + 1) == a@.subrange(0, i as int).push(a@[i as int]));
        assert(b@.subrange(0, i + 1) == b@.subrange(0, i as int).push(b@[i as int]));
        i += 1;
    }
    assert(a@ == a@.subrange(0, n as int));
    assert(b@ == b@.subrange(0, n as int));
    true
}

/// Returns the namespace kind named `nsname`, or `None` for any other name.
pub fn ns_str_to_const(nsname: &str) -> (r: Option<Namespace>)
    ensures
        r == ns_of_name(nsname@),
{
    proof {
        reveal_strlit("ipc");
        reveal_strlit("mnt");
        reveal_strlit("net");
        reveal_strlit("pid");
        reveal_strlit("user");
        reveal_strlit("uts");
        assert("ipc"@ == ns_name(Namespace::Ipc));
        assert("mnt"@ == ns_name(Namespace::Mount));
        assert("net"@ == ns_name(Namespace::Net));
        assert("pid"@ == ns_name(Namespace::Pid));
        assert("user"@ == ns_name(Namespace::User));
        assert("uts"@ == ns_name(Namespace::Uts));
    }
    if str_eq(nsname, "ipc") {
        Some(Namespace::Ipc)
    } else if str_eq(nsname, "mnt") {
        Some(Namespace::Mount)
    } else if str_eq(nsname, "net") {
        Some(Namespace::Net)
    } else if str_eq(nsname, "pid") {
        Some(Namespace::Pid)
    } else if str_eq(nsname, "user") {
        Some(Namespace::User)
    } else if str_eq(nsname, "uts") {
        Some(Namespace::Uts)
    } else {
        None
    }
}

/// Returns the canonical name of `ns`.
pub fn ns_const_to_str(ns: &Namespace) -> (r: &'static str)
    ensures
        r@ == ns_name(*ns),
{
    match ns {
        Namespace::Ipc => {
            proof { reveal_strlit("ipc"); }
            "ipc"
        },
        Namespace::Mount => {
            proof { reveal_strlit("mnt"); }
            "mnt"
        },
        Namespace::Net => {
            proof { reveal_strlit("net"); }
            "net"
        },
        Namespace::Pid => {
            proof { reveal_strlit("pid"); }
            "pid"
        },
        Namespace::User => {
            proof { reveal_strlit("user"); }
            "user"
        },
        Namespace::Uts => {
            proof { reveal_strlit("uts"); }
            "uts"
        },
    }
}

} // verus!
