use vstd::prelude::*;

use crate::namespace::{ns_of_name, ns_str_to_const};
use crate::snapshot::NsCtx;

verus! {

pub open spec fn is_digit(c: char) -> bool {
    '0' <= c && c <= '9'
}

pub open spec fn all_digits(s: Seq<char>) -> bool {
    forall|i: int| 0 <= i < s.len() ==> is_digit(#[trigger] s[i])
}

/// The value of a sequence of decimal digits, most significant first.
pub open spec fn digits_value(s: Seq<char>) -> nat
    decreases s.len(),
{
    if s.len() == 0 {
        0
    } else {
        digits_value(s.drop_last()) * 10 + ((s.last() as u32) - ('0' as u32)) as nat
    }
}

/// A non-empty run of decimal digits whose value is at most `max`.
pub open spec fn decimal_within(s: Seq<char>, max: nat) -> bool {
    s.len() > 0 && all_digits(s) && digits_value(s) <= max
}

/// A longer run of digits is worth at least as much as its prefix.
proof fn lemma_digits_value_prefix(s: Seq<char>, k: int)
    requires
        all_digits(s),
        0 <= k <= s.len(),
    ensures
        digits_value(s) >= digits_value(s.subrange(0, k)),
    decreases s.len(),
{
    if k < s.len() {
        assert(s.drop_last() == s.subrange(0, s.len() - 1));
        assert(s.drop_last().subrange(0, k) == s.subrange(0, k));
        assert(all_digits(s.drop_last()));
        lemma_digits_value_prefix(s.drop_last(), k);
    } else {
        assert(s.subrange(0, k) == s);
    }
}

/// Reads the characters `start..end` of `s` as a decimal number no greater
/// than `max`.
fn parse_decimal(s: &str, start: usize, end: usize, max: u64) -> (r: Option<u64>)
    requires
        start <= end <= s@.len(),
    ensures
        match r {
            Some(v) => decimal_within(s@.subrange(start as int, end as int), max as nat)
                && v == digits_value(s@.subrange(start as int, end as int)),
            None => !decimal_within(s@.subrange(start as int, end as int), max as nat),
        },
{
    if start == end {
        return None;
    }
    let ghost t = s@.subrange(start as int, end as int);
    let mut acc: u64 = 0;
    let mut k: usize = start;
    while k < end
        invariant
            start <= k <= end <= s@.len(),
            t == s@.subrange(start as int, end as int),
            all_digits(t.subrange(0, k - start)),
            acc == digits_value(t.subrange(0, k - start)),
            acc <= max,
        decreases end - k,
    {
        let c = s.get_char(k);
        let ghost pre = t.subrange(0, k - start);
        let ghost next = t.subrange(0, k + 1 - start);
        assert(next.drop_last() == pre);
        assert(next.last() == c);
        if !('0' <= c && c <= '9') {
            proof {
                assert(!is_digit(t[k - start]));
            }
            return None;
        }
        let d: u64 = (c as u32 - '0' as u32) as u64;
        if d > max || acc > (max - d) / 10 {
            proof {
                assert(acc * 10 + d > max) by (nonlinear_arith)
                    requires
                        d > max || acc > (max - d) / 10,
                        acc >= 0,
                ;
                assert(all_digits(next));
                assert(digits_value(next) == acc * 10 + d);
                if all_digits(t) {
                    lemma_digits_value_prefix(t, k + 1 - start);
                }
            }
            return None;
        }
        proof {
            assert(acc * 10 + d <= max) by (nonlinear_arith)
                requires
                    acc <= (max - d) / 10,
                    d <= max,
            ;
            assert(all_digits(next));
        }
        acc = acc * 10 + d;
        k += 1;
    }
    assert(t.subrange(0, end - start) == t);
    Some(acc)
}

/// `t` reads `<name>:[<digits>]`: a non-empty name without a colon, the colon
/// at `p`, an opening bracket, a decimal number that fits in a `u64`, and a
/// closing bracket at the end.
pub open spec fn link_well_formed(t: Seq<char>, p: int) -> bool {
    &&& 0 < p
    &&& p + 3 < t.len()
    &&& t[p] == ':'
    &&& t[p + 1] == '['
    &&& t.last() == ']'
    &&& forall|i: int| 0 <= i < p ==> t[i] != ':'
    &&& decimal_within(t.subrange(p + 2, t.len() - 1), u64::MAX as nat)
}

/// The position of the colon in a well-formed link target.
pub open spec fn link_colon(t: Seq<char>) -> int {
    choose|p: int| link_well_formed(t, p)
}

/// The namespace identifier that a link target names, if it is well formed.
pub open spec fn ns_link_inode(t: Seq<char>) -> Option<u64> {
    if exists|p: int| link_well_formed(t, p) {
        Some(digits_value(t.subrange(link_colon(t) + 2, t.len() - 1)) as u64)
    } else {
        None
    }
}

/// The membership that a link target `<name>:[<digits>]` describes, where the
/// name is one of the canonical namespace names.
pub open spec fn ns_link_target(t: Seq<char>) -> Option<NsCtx> {
    match ns_link_inode(t) {
        Some(v) => match ns_of_name(t.subrange(0, link_colon(t))) {
            Some(n) => Some(NsCtx { nsid: v, nstype: n }),
            None => None,
        },
        None => None,
    }
}

/// The first colon of a string starts its only well-formed reading.
proof fn lemma_colon_unique(t: Seq<char>, p: int, q: int)
    requires
        0 <= p <= t.len(),
        forall|i: int| 0 <= i < p ==> t[i] != ':',
        p < t.len() ==> t[p] == ':',
        link_well_formed(t, q),
    ensures
        q == p,
{
    if q < p {
        assert(t[q] != ':');
    } else if q > p {
        assert(t[p] == ':');
    }
}

/// The position of the first colon of `s`, or its length if it has none.
fn find_colon(s: &str) -> (r: usize)
    ensures
        r <= s@.len(),
        forall|i: int| 0 <= i < r ==> s@[i] != ':',
        r < s@.len() ==> s@[r as int] == ':',
{
    let n = s.unicode_len();
    let mut p: usize = 0;
    while p < n
        invariant
            n == s@.len(),
            p <= n,
            forall|i: int| 0 <= i < p ==> s@[i] != ':',
        decreases n - p,
    {
        if s.get_char(p) == ':' {
            return p;
        }
        p += 1;
    }
    p
}

/// Reads the namespace identifier out of a link target of the form
/// `<name>:[<decimal>]`; any other text gives `None`.
pub fn ns_symlink_to_ino(symlink_ns: &str) -> (r: Option<u64>)
    ensures
        r == ns_link_inode(symlink_ns@),
{
    let ghost t = symlink_ns@;
    let n = symlink_ns.unicode_len();
    let p = find_colon(symlink_ns);
    if p == 0 || p >= n || n - p <= 3 {
        proof {
            if exists|q: int| link_well_formed(t, q) {
                let q = choose|q: int| link_well_formed(t, q);
                lemma_colon_unique(t, p as int, q);
            }
        }
        return None;
    }
    if symlink_ns.get_char(p + 1) != '[' || symlink_ns.get_char(n - 1) != ']' {
        proof {
            if exists|q: int| link_well_formed(t, q) {
                let q = choose|q: int| link_well_formed(t, q);
                lemma_colon_unique(t, p as int, q);
            }
        }
        return None;
    }
    let v = parse_decimal(symlink_ns, p + 2, n - 1, u64::MAX);
    proof {
        if v is Some {
            assert(link_well_formed(t, p as int));
        }
        if exists|q: int| link_well_formed(t, q) {
            let q = choose|q: int| link_well_formed(t, q);
            lemma_colon_unique(t, p as int, q);
            lemma_colon_unique(t, p as int, link_colon(t));
        }
    }
    v
}

/// Reads a link target `<name>:[<decimal>]` whose name is one of the
/// canonical namespace names into the membership it describes.
pub fn parse_ns_link(target: &str) -> (r: Option<NsCtx>)
    ensures
        r == ns_link_target(target@),
{
    let ghost t = target@;
    match ns_symlink_to_ino(target) {
        None => None,
        Some(v) => {
            let p = find_colon(target);
            proof {
                let q = choose|q: int| link_well_formed(t, q);
                lemma_colon_unique(t, p as int, q);
                lemma_colon_unique(t, p as int, link_colon(t));
            }
            let name = target.substring_char(0, p);
            match ns_str_to_const(name) {
                Some(n) => Some(NsCtx { nsid: v, nstype: n }),
                None => None,
            }
        },
    }
}

/// The process identifier that an entry of the process-information root
/// stands for: a directory named by a decimal number that fits in an `i32`.
pub open spec fn pid_of_entry(name: Seq<char>, is_dir: bool) -> Option<i32> {
    if is_dir && decimal_within(name, i32::MAX as nat) {
        Some(digits_value(name) as i32)
    } else {
        None
    }
}

/// Returns the process identifier of the entry `name` of the
/// process-information root, or `None` where the entry is no process directory.
pub fn get_next_pid(name: &str, is_dir: bool) -> (r: Option<i32>)
    ensures
        r == pid_of_entry(name@, is_dir),
{
    if !is_dir {
        return None;
    }
    let n = name.unicode_len();
    match parse_decimal(name, 0, n, i32::MAX as u64) {
        Some(v) => {
            proof {
                assert(name@.subrange(0, n as int) == name@);
            }
            Some(v as i32)
        },
        None => {
            proof {
                assert(name@.subrange(0, n as int) == name@);
            }
            None
        },
    }
}

} // verus!
