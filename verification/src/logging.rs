//! Debug filters: which log targets are shown, and how a filter grows.
//!
//! A filter is a list of node ids, written in decimal and separated by
//! commas. A log target is the role, an underscore and the id of the node
//! that logs. Texts are handled as their bytes.

use vstd::prelude::*;

verus! {

/// The comma that separates the entries of a filter.
pub const SEPARATOR: u8 = 44;

/// The three filters, one per role.
#[derive(Debug, Clone, Copy, PartialEq, Eq, Structural)]
pub enum FilterVariable {
    Client,
    Drone,
    Server,
}

/// The bytes of `client`.
pub open spec fn client_name() -> Seq<u8> {
    seq![99u8, 108u8, 105u8, 101u8, 110u8, 116u8]
}

/// The bytes of `drone`.
pub open spec fn drone_name() -> Seq<u8> {
    seq![100u8, 114u8, 111u8, 110u8, 101u8]
}

/// The bytes of `server`.
pub open spec fn server_name() -> Seq<u8> {
    seq![115u8, 101u8, 114u8, 118u8, 101u8, 114u8]
}

/// The start of every target of a role: its name and an underscore.
pub open spec fn role_prefix(name: Seq<u8>) -> Seq<u8> {
    name.push(95u8)
}

/// The decimal digits of a number, without leading zeros.
pub open spec fn decimal(n: nat) -> Seq<u8>
    decreases n,
{
    if n < 10 {
        seq![(48 + n) as u8]
    } else {
        decimal(n / 10).push((48 + n % 10) as u8)
    }
}

/// The ids in decimal, with a comma between one and the next.
pub open spec fn joined_ids(ids: Seq<u64>) -> Seq<u8>
    decreases ids.len(),
{
    if ids.len() == 0 {
        Seq::empty()
    } else if ids.len() == 1 {
        decimal(ids[0] as nat)
    } else {
        joined_ids(ids.drop_last()).push(SEPARATOR) + decimal(ids.last() as nat)
    }
}

/// A filter after ids were added: the ids alone where the filter was
/// empty, else the filter, a comma and the ids.
pub open spec fn extended(existing: Seq<u8>, ids: Seq<u64>) -> Seq<u8> {
    if existing.len() > 0 {
        existing.push(SEPARATOR) + joined_ids(ids)
    } else {
        joined_ids(ids)
    }
}

/// `filter[lo..hi]` is one entry of the filter: it holds no comma, and a
/// comma or an end of the filter stands on each side of it.
pub open spec fn is_entry(filter: Seq<u8>, lo: int, hi: int) -> bool {
    &&& 0 <= lo <= hi <= filter.len()
    &&& (lo == 0 || filter[lo - 1] == SEPARATOR)
    &&& (hi == filter.len() || filter[hi] == SEPARATOR)
    &&& forall|i: int| lo <= i < hi ==> filter[i] != SEPARATOR
}

/// `target` begins with `start`.
pub open spec fn begins_with(target: Seq<u8>, start: Seq<u8>) -> bool {
    start.len() <= target.len() && target.subrange(0, start.len() as int) == start
}

/// Some entry of the filter, put behind the prefix, begins the target. An
/// empty filter has one entry, the empty one, and so admits every target
/// of the role.
pub open spec fn filter_admits(filter: Seq<u8>, prefix: Seq<u8>, target: Seq<u8>) -> bool {
    exists|lo: int, hi: int| #[trigger]
        is_entry(filter, lo, hi) && begins_with(target, prefix + filter.subrange(lo, hi))
}

/// Whether two texts are the same.
pub fn same_bytes(left: &[u8], right: &[u8]) -> (same: bool)
    ensures
        same == (left@ == right@),
{
    if left.len() != right.len() {
        return false;
    }
    let mut i: usize = 0;
    while i < left.len()
        invariant
            i <= left@.len(),
            left@.len() == right@.len(),
            forall|j: int| 0 <= j < i ==> left@[j] == right@[j],
        decreases left@.len() - i,
    {
        if left[i] != right[i] {
            return false;
        }
        i += 1;
    }
    assert(left@ =~= right@);
    true
}

/// The filter that a role's name stands for, if it is the name of a role.
pub fn filter_variable(target_type: &[u8]) -> (variable: Option<FilterVariable>)
    ensures
        variable == if target_type@ == client_name() {
            Some(FilterVariable::Client)
        } else if target_type@ == drone_name() {
            Some(FilterVariable::Drone)
        } else if target_type@ == server_name() {
            Some(FilterVariable::Server)
        } else {
            None::<FilterVariable>
        },
{
    let client: [u8; 6] = [99, 108, 105, 101, 110, 116];
    let drone: [u8; 5] = [100, 114, 111, 110, 101];
    let server: [u8; 6] = [115, 101, 114, 118, 101, 114];
    assert(client@ =~= client_name());
    assert(drone@ =~= drone_name());
    assert(server@ =~= server_name());
    if same_bytes(target_type, client.as_slice()) {
        Some(FilterVariable::Client)
    } else if same_bytes(target_type, drone.as_slice()) {
        Some(FilterVariable::Drone)
    } else if same_bytes(target_type, server.as_slice()) {
        Some(FilterVariable::Server)
    } else {
        None
    }
}

/// Appends the decimal digits of `n`.
pub fn push_decimal(out: &mut Vec<u8>, n: u64)
    ensures
        final(out)@ == old(out)@ + decimal(n as nat),
    decreases n,
{
    if n >= 10 {
        push_decimal(out, n / 10);
    }
    out.push((48 + n % 10) as u8);
    assert(out@ =~= old(out)@ + decimal(n as nat));
}

/// The filter with the ids added to it.
pub fn extended_filter(existing: &[u8], ids: &[u64]) -> (filter: Vec<u8>)
    ensures
        filter@ == extended(existing@, ids@),
{
    let mut filter: Vec<u8> = Vec::new();
    let mut j: usize = 0;
    while j < existing.len()
        invariant
            j <= existing@.len(),
            filter@ == existing@.subrange(0, j as int),
        decreases existing@.len() - j,
    {
        filter.push(existing[j]);
        assert(filter@ =~= existing@.subrange(0, j + 1));
        j += 1;
    }
    assert(filter@ =~= existing@);
    if existing.len() > 0 {
        filter.push(SEPARATOR);
    }
    let ghost head = filter@;
    let mut i: usize = 0;
    assert(filter@ =~= head + joined_ids(ids@.subrange(0, 0)));
    while i < ids.len()
        invariant
            i <= ids@.len(),
            filter@ == head + joined_ids(ids@.subrange(0, i as int)),
        decreases ids@.len() - i,
    {
        let ghost before = ids@.subrange(0, i as int);
        let ghost after = ids@.subrange(0, i + 1);
        if i > 0 {
            filter.push(SEPARATOR);
        }
        push_decimal(&mut filter, ids[i]);
        proof {
            assert(after.drop_last() =~= before);
            assert(after.last() == ids@[i as int]);
            assert(filter@ =~= head + joined_ids(after));
        }
        i += 1;
    }
    assert(ids@.subrange(0, ids@.len() as int) =~= ids@);
    filter
}

/// Whether the target begins with the given start.
pub fn starts_with(target: &[u8], start: &[u8]) -> (yes: bool)
    ensures
        yes == begins_with(target@, start@),
{
    if start.len() > target.len() {
        return false;
    }
    let mut i: usize = 0;
    while i < start.len()
        invariant
            i <= start@.len(),
            start@.len() <= target@.len(),
            forall|j: int| 0 <= j < i ==> target@[j] == start@[j],
        decreases start@.len() - i,
    {
        if target[i] != start[i] {
            assert(target@.subrange(0, start@.len() as int)[i as int] != start@[i as int]);
            return false;
        }
        i += 1;
    }
    assert(target@.subrange(0, start@.len() as int) =~= start@);
    true
}

/// An entry that starts at `lo` ends where the scan from `lo` stopped.
proof fn lemma_entry_end(filter: Seq<u8>, lo: int, hi: int, end: int)
    requires
        is_entry(filter, lo, hi),
        is_entry(filter, lo, end),
    ensures
        hi == end,
{
    if hi < end {
        assert(filter[hi] == SEPARATOR);
    } else if end < hi {
        assert(filter[end] == SEPARATOR);
    }
}

/// Whether some entry of the filter, behind the prefix, begins the target.
pub fn admits(filter: &[u8], prefix: &[u8], target: &[u8]) -> (yes: bool)
    ensures
        yes == filter_admits(filter@, prefix@, target@),
{
    let mut lo: usize = 0;
    loop
        invariant
            lo <= filter@.len(),
            lo == 0 || filter@[lo - 1] == SEPARATOR,
            forall|l: int, h: int|
                l < lo && #[trigger] is_entry(filter@, l, h) ==> !begins_with(
                    target@,
                    prefix@ + filter@.subrange(l, h),
                ),
        decreases filter@.len() - lo,
    {
        let mut start: Vec<u8> = Vec::new();
        let mut k: usize = 0;
        while k < prefix.len()
            invariant
                k <= prefix@.len(),
                start@ == prefix@.subrange(0, k as int),
            decreases prefix@.len() - k,
        {
            start.push(prefix[k]);
            assert(start@ =~= prefix@.subrange(0, k + 1));
            k += 1;
        }
        assert(start@ =~= prefix@);
        let mut hi: usize = lo;
        while hi < filter.len() && filter[hi] != SEPARATOR
            invariant
                lo <= hi <= filter@.len(),
                start@ == prefix@ + filter@.subrange(lo as int, hi as int),
                forall|i: int| lo <= i < hi ==> filter@[i] != SEPARATOR,
            decreases filter@.len() - hi,
        {
            start.push(filter[hi]);
            assert(start@ =~= prefix@ + filter@.subrange(lo as int, hi + 1));
            hi += 1;
        }
        assert(is_entry(filter@, lo as int, hi as int));
        if starts_with(target, start.as_slice()) {
            return true;
        }
        assert forall|l: int, h: int| l <= lo && #[trigger] is_entry(filter@, l, h) implies !begins_with(
            target@,
            prefix@ + filter@.subrange(l, h),
        ) by {
            if l == lo {
                lemma_entry_end(filter@, l, h, hi as int);
            }
        }
        if hi == filter.len() {
            assert forall|l: int, h: int| #[trigger] is_entry(filter@, l, h) implies l <= lo by {
                if l > lo {
                    assert(filter@[l - 1] == SEPARATOR);
                }
            }
            return false;
        }
        assert forall|l: int, h: int| l < hi + 1 && #[trigger] is_entry(filter@, l, h) implies l <= lo by {
            if l > lo {
                assert(filter@[l - 1] == SEPARATOR);
            }
        }
        lo = hi + 1;
    }
}

/// Whether a log target is shown: the client filter admits it as a client,
/// the drone filter as a drone, or the server filter as a server.
pub fn target_enabled(client_filter: &[u8], drone_filter: &[u8], server_filter: &[u8], target: &[u8]) -> (shown:
    bool)
    ensures
        shown == (filter_admits(client_filter@, role_prefix(client_name()), target@) || filter_admits(
            drone_filter@,
            role_prefix(drone_name()),
            target@,
        ) || filter_admits(server_filter@, role_prefix(server_name()), target@)),
{
    let client: [u8; 7] = [99, 108, 105, 101, 110, 116, 95];
    let drone: [u8; 6] = [100, 114, 111, 110, 101, 95];
    let server: [u8; 7] = [115, 101, 114, 118, 101, 114, 95];
    assert(client@ =~= role_prefix(client_name()));
    assert(drone@ =~= role_prefix(drone_name()));
    assert(server@ =~= role_prefix(server_name()));
    admits(client_filter, client.as_slice(), target) || admits(drone_filter, drone.as_slice(), target)
        || admits(server_filter, server.as_slice(), target)
}

} // verus!
