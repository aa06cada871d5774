//! Putting the fragments of a message back together.

use vstd::prelude::*;
use vstd::set_lib::{lemma_int_range, lemma_len_subset, set_int_range};
use crate::fragmenter::{chunk_end, fragment_count, is_fragment_of};
use crate::packet::{Fragment, FRAGMENT_SIZE};

verus! {

/// The buffer after `fragment` was placed into `entry`: the payload stands
/// at 128 times the fragment's index, the buffer has grown to hold it where
/// it was shorter, new bytes that no payload covers are zero, and all other
/// bytes are as before.
pub open spec fn placed(entry: Seq<u8>, fragment: Fragment) -> Seq<u8> {
    let start = fragment.fragment_index as int * 128;
    let end = start + fragment.length as int;
    let len = if entry.len() < end {
        end
    } else {
        entry.len() as int
    };
    Seq::new(
        len as nat,
        |p: int|
            if start <= p < end {
                fragment.data@[p - start]
            } else if p < entry.len() {
                entry[p]
            } else {
                0u8
            },
    )
}

/// The buffer after a sequence of fragments was placed, one after the other.
pub open spec fn placed_all(entry: Seq<u8>, fragments: Seq<Fragment>) -> Seq<u8>
    decreases fragments.len(),
{
    if fragments.len() == 0 {
        entry
    } else {
        placed(placed_all(entry, fragments.drop_last()), fragments.last())
    }
}

/// Places the payload of `fragment` into `entry` at 128 times its index. A
/// buffer that is too short grows, and a gap is filled with zeros.
pub fn assembler(entry: &mut Vec<u8>, fragment: &Fragment)
    requires
        fragment.length as int <= 128,
        fragment.fragment_index as int * 128 + fragment.length as int <= usize::MAX as int,
    ensures
        final(entry)@ == placed(old(entry)@, *fragment),
{
    let start: usize = fragment.fragment_index as usize * FRAGMENT_SIZE;
    let size: usize = fragment.length as usize;
    let end: usize = start + size;
    if entry.len() < end {
        entry.resize(end, 0);
    }
    let ghost grown = entry@;
    assert(start == fragment.fragment_index as int * 128);
    assert(grown.len() == if old(entry)@.len() < end { end as int } else { old(entry)@.len() as int });
    assert forall|p: int| 0 <= p < grown.len() implies grown[p] == if p < old(entry)@.len() {
        old(entry)@[p]
    } else {
        0u8
    } by {
        if old(entry)@.len() < end && p < old(entry)@.len() {
            assert(grown.subrange(0, old(entry)@.len() as int)[p] == old(entry)@[p]);
        }
    }
    let mut j: usize = 0;
    while j < size
        invariant
            j <= size,
            size <= 128,
            end == start + size,
            end <= entry@.len(),
            entry@.len() == grown.len(),
            start == fragment.fragment_index as int * 128,
            size == fragment.length as int,
            grown.len() == if old(entry)@.len() < end {
                end as int
            } else {
                old(entry)@.len() as int
            },
            forall|p: int|
                0 <= p < grown.len() ==> grown[p] == if p < old(entry)@.len() {
                    old(entry)@[p]
                } else {
                    0u8
                },
            forall|p: int| start <= p < start + j ==> entry@[p] == fragment.data@[p - start],
            forall|p: int|
                0 <= p < entry@.len() && !(start <= p < start + j) ==> entry@[p] == grown[p],
        decreases size - j,
    {
        entry.set(start + j, fragment.data[j]);
        j += 1;
    }
    proof {
        let expected = placed(old(entry)@, *fragment);
        assert(entry@.len() == expected.len());
        assert forall|p: int| 0 <= p < entry@.len() implies entry@[p] == expected[p] by {
            if start <= p < end {
                assert(entry@[p] == fragment.data@[p - start]);
            } else {
                assert(entry@[p] == grown[p]);
            }
        }
        assert(entry@ =~= expected);
    }
}

/// Some fragment of the sequence has index `i`.
pub open spec fn delivered(fragments: Seq<Fragment>, i: int) -> bool {
    exists|t: int| 0 <= t < fragments.len() && (#[trigger] fragments[t]).fragment_index == i
}

/// Every fragment of the sequence is a fragment of the message `bytes`.
pub open spec fn all_fragments_of(fragments: Seq<Fragment>, bytes: Seq<u8>) -> bool {
    forall|t: int|
        0 <= t < fragments.len() ==> is_fragment_of(
            #[trigger] fragments[t],
            bytes,
            fragments[t].fragment_index as int,
        )
}

/// Every fragment of a message of `len` bytes occurs in the sequence.
pub open spec fn all_delivered(fragments: Seq<Fragment>, len: int) -> bool {
    forall|i: int| 0 <= i < fragment_count(len) ==> delivered(fragments, i)
}

/// `buffer` agrees with `bytes` on every chunk that was delivered, and is
/// long enough to hold each of them.
spec fn partial_copy(buffer: Seq<u8>, bytes: Seq<u8>, fragments: Seq<Fragment>) -> bool {
    &&& buffer.len() <= bytes.len()
    &&& forall|p: int|
        0 <= p < buffer.len() && delivered(fragments, p / 128) ==> #[trigger] buffer[p] == bytes[p]
    &&& forall|i: int| #[trigger]
        delivered(fragments, i) ==> buffer.len() >= chunk_end(bytes.len() as int, i)
}

proof fn lemma_partial_copy(bytes: Seq<u8>, fragments: Seq<Fragment>)
    requires
        all_fragments_of(fragments, bytes),
    ensures
        partial_copy(placed_all(Seq::<u8>::empty(), fragments), bytes, fragments),
    decreases fragments.len(),
{
    if fragments.len() > 0 {
        let earlier = fragments.drop_last();
        let f = fragments.last();
        let k = f.fragment_index as int;
        assert forall|t: int| 0 <= t < earlier.len() implies is_fragment_of(
            #[trigger] earlier[t],
            bytes,
            earlier[t].fragment_index as int,
        ) by {
            assert(earlier[t] == fragments[t]);
        }
        lemma_partial_copy(bytes, earlier);
        let before = placed_all(Seq::<u8>::empty(), earlier);
        let after = placed(before, f);
        assert(after == placed_all(Seq::<u8>::empty(), fragments));
        assert(is_fragment_of(f, bytes, k));
        let start = k * 128;
        let end = start + f.length as int;
        assert(end == chunk_end(bytes.len() as int, k));
        assert forall|i: int| delivered(fragments, i) implies i == k || delivered(earlier, i) by {
            let t = choose|t: int| 0 <= t < fragments.len() && (#[trigger] fragments[t]).fragment_index == i;
            if t < earlier.len() {
                assert(earlier[t].fragment_index == i);
            }
        }
        assert forall|p: int| 0 <= p < after.len() && delivered(fragments, p / 128) implies #[trigger] after[p]
            == bytes[p] by {
            if start <= p < end {
                assert(f.payload()[p - start] == bytes[p]);
            } else if p / 128 == k {
                assert(p < bytes.len());
            } else {
                assert(delivered(earlier, p / 128));
                assert(before.len() >= chunk_end(bytes.len() as int, p / 128));
                assert(p < before.len());
            }
        }
        assert forall|i: int| #[trigger] delivered(fragments, i) implies after.len() >= chunk_end(
            bytes.len() as int,
            i,
        ) by {
            if i != k {
                assert(delivered(earlier, i));
            }
        }
    }
}

/// However the fragments of a message are ordered, and whether or not some
/// arrive more than once: once each has been placed into an empty buffer,
/// the buffer holds the message, byte for byte.
pub proof fn lemma_any_order_rebuilds(bytes: Seq<u8>, fragments: Seq<Fragment>)
    requires
        all_fragments_of(fragments, bytes),
        all_delivered(fragments, bytes.len() as int),
    ensures
        placed_all(Seq::<u8>::empty(), fragments) == bytes,
{
    lemma_partial_copy(bytes, fragments);
    let buffer = placed_all(Seq::<u8>::empty(), fragments);
    let count = fragment_count(bytes.len() as int);
    if bytes.len() > 0 {
        assert(delivered(fragments, count - 1));
        assert(chunk_end(bytes.len() as int, count - 1) == bytes.len());
        assert forall|p: int| 0 <= p < buffer.len() implies buffer[p] == bytes[p] by {
            assert(delivered(fragments, p / 128));
        }
    }
    assert(buffer =~= bytes);
}

/// Two deliveries of the same message, each complete, in whatever order,
/// leave the same buffer.
pub proof fn lemma_order_is_irrelevant(bytes: Seq<u8>, first: Seq<Fragment>, second: Seq<Fragment>)
    requires
        all_fragments_of(first, bytes),
        all_fragments_of(second, bytes),
        all_delivered(first, bytes.len() as int),
        all_delivered(second, bytes.len() as int),
    ensures
        placed_all(Seq::<u8>::empty(), first) == placed_all(Seq::<u8>::empty(), second),
{
    lemma_any_order_rebuilds(bytes, first);
    lemma_any_order_rebuilds(bytes, second);
}

/// Placing the same fragment a second time changes nothing.
pub proof fn lemma_placed_twice(entry: Seq<u8>, fragment: Fragment)
    requires
        fragment.length as int <= 128,
    ensures
        placed(placed(entry, fragment), fragment) == placed(entry, fragment),
{
    assert(placed(placed(entry, fragment), fragment) =~= placed(entry, fragment));
}

/// The indices that occur among the fragments.
pub open spec fn received_all(fragments: Seq<Fragment>) -> Set<int> {
    Set::new(|i: int| delivered(fragments, i))
}

/// One more fragment adds its index to those received.
pub proof fn lemma_received_step(fragments: Seq<Fragment>)
    requires
        fragments.len() > 0,
    ensures
        received_all(fragments) == received_all(fragments.drop_last()).insert(
            fragments.last().fragment_index as int,
        ),
{
    let earlier = fragments.drop_last();
    let k = fragments.last().fragment_index as int;
    assert forall|i: int| received_all(fragments).contains(i) == received_all(earlier).insert(k).contains(
        i,
    ) by {
        if delivered(fragments, i) {
            let t = choose|t: int| 0 <= t < fragments.len() && (#[trigger] fragments[t]).fragment_index == i;
            if t < earlier.len() {
                assert(earlier[t].fragment_index == i);
            }
        }
        if delivered(earlier, i) {
            let t = choose|t: int| 0 <= t < earlier.len() && (#[trigger] earlier[t]).fragment_index == i;
            assert(fragments[t].fragment_index == i);
        }
        if i == k {
            assert(fragments[fragments.len() - 1].fragment_index == i);
        }
    }
    assert(received_all(fragments) =~= received_all(earlier).insert(k));
}

/// Once every fragment of a message has arrived, in whatever order and
/// however often, the indices received are those below the fragment count,
/// and there are as many of them as the fragments say.
pub proof fn lemma_all_delivered_is_complete(bytes: Seq<u8>, fragments: Seq<Fragment>)
    requires
        all_fragments_of(fragments, bytes),
        all_delivered(fragments, bytes.len() as int),
    ensures
        received_all(fragments) == set_int_range(0, fragment_count(bytes.len() as int)),
        received_all(fragments).finite(),
        received_all(fragments).len() == fragment_count(bytes.len() as int),
        forall|t: int|
            0 <= t < fragments.len() ==> (#[trigger] fragments[t]).total_n_fragments
                == received_all(fragments).len(),
{
    let count = fragment_count(bytes.len() as int);
    assert forall|i: int| received_all(fragments).contains(i) implies 0 <= i < count by {
        let t = choose|t: int| 0 <= t < fragments.len() && (#[trigger] fragments[t]).fragment_index == i;
        assert(is_fragment_of(fragments[t], bytes, i));
    }
    assert(received_all(fragments) =~= set_int_range(0, count));
    lemma_int_range(0, count);
}

/// While a fragment of a message is missing, fewer indices were received
/// than the fragments say.
pub proof fn lemma_missing_is_incomplete(bytes: Seq<u8>, fragments: Seq<Fragment>, missing: int)
    requires
        all_fragments_of(fragments, bytes),
        0 <= missing < fragment_count(bytes.len() as int),
        !delivered(fragments, missing),
    ensures
        received_all(fragments).finite(),
        received_all(fragments).len() < fragment_count(bytes.len() as int),
{
    let count = fragment_count(bytes.len() as int);
    let rest = set_int_range(0, count).remove(missing);
    lemma_int_range(0, count);
    assert forall|i: int| received_all(fragments).contains(i) implies rest.contains(i) by {
        let t = choose|t: int| 0 <= t < fragments.len() && (#[trigger] fragments[t]).fragment_index == i;
        assert(is_fragment_of(fragments[t], bytes, i));
    }
    lemma_len_subset(received_all(fragments), rest);
}

/// The fragments of one session, as far as they have arrived.
pub struct ReassemblyBuffer {
    bytes: Vec<u8>,
    seen: Vec<bool>,
    count: usize,
    total: u64,
    indices: Ghost<Set<int>>,
}

impl ReassemblyBuffer {
    /// The bookkeeping agrees with itself: the count is the number of
    /// indices received.
    pub closed spec fn wf(&self) -> bool {
        &&& self.indices@.finite()
        &&& self.indices@.len() == self.count
        &&& forall|i: int| self.indices@.contains(i) == (0 <= i < self.seen@.len() && self.seen@[i])
    }

    /// The bytes assembled so far.
    pub closed spec fn bytes(&self) -> Seq<u8> {
        self.bytes@
    }

    /// The indices of the fragments received so far.
    pub closed spec fn received(&self) -> Set<int> {
        self.indices@
    }

    /// The fragment count recorded on the fragment that arrived last, 0
    /// before any has.
    pub closed spec fn total_count(&self) -> int {
        self.total as int
    }

    /// The buffer of a session of which nothing has arrived.
    pub fn new() -> (buffer: ReassemblyBuffer)
        ensures
            buffer.wf(),
            buffer.bytes() == Seq::<u8>::empty(),
            buffer.received() == Set::<int>::empty(),
            buffer.total_count() == 0,
    {
        ReassemblyBuffer {
            bytes: Vec::new(),
            seen: Vec::new(),
            count: 0,
            total: 0,
            indices: Ghost(Set::empty()),
        }
    }

    /// Takes one fragment in: places its payload, notes its index, and
    /// records the fragment count it states.
    pub fn reassemble(&mut self, fragment: &Fragment)
        requires
            old(self).wf(),
            fragment.length as int <= 128,
            fragment.fragment_index as int * 128 + fragment.length as int <= usize::MAX as int,
        ensures
            final(self).wf(),
            final(self).bytes() == placed(old(self).bytes(), *fragment),
            final(self).received() == old(self).received().insert(fragment.fragment_index as int),
            final(self).total_count() == fragment.total_n_fragments,
    {
        assembler(&mut self.bytes, fragment);
        self.total = fragment.total_n_fragments;
        let index: usize = fragment.fragment_index as usize;
        while self.seen.len() <= index
            invariant
                self.wf(),
                self.bytes@ == placed(old(self).bytes@, *fragment),
                self.indices == old(self).indices,
                self.total == fragment.total_n_fragments,
                index < usize::MAX,
            decreases index + 1 - self.seen@.len(),
        {
            self.seen.push(false);
        }
        if !self.seen[index] {
            proof {
                let n = self.seen@.len() as int;
                let rest = set_int_range(0, n).remove(index as int);
                lemma_int_range(0, n);
                assert(self.indices@.subset_of(rest));
                lemma_len_subset(self.indices@, rest);
            }
            self.seen.set(index, true);
            self.count = self.count + 1;
            proof {
                self.indices@ = self.indices@.insert(index as int);
            }
        } else {
            assert(self.indices@.insert(index as int) =~= self.indices@);
        }
    }

    /// Whether every fragment of the session has arrived: some fragment
    /// has, and the indices received are as many as it says.
    pub fn is_complete(&self) -> (complete: bool)
        requires
            self.wf(),
        ensures
            complete == (self.total_count() > 0 && self.received().len() == self.total_count()),
    {
        self.total > 0 && self.count as u64 == self.total
    }

    /// How many different indices have arrived.
    pub fn received_count(&self) -> (count: usize)
        requires
            self.wf(),
        ensures
            count == self.received().len(),
    {
        self.count
    }

    /// Gives up the buffer for the bytes assembled in it.
    pub fn into_bytes(self) -> (bytes: Vec<u8>)
        ensures
            bytes@ == self.bytes(),
    {
        self.bytes
    }
}

} // verus!
