//! Slicing a serialized message into routed fragments.

use vstd::prelude::*;
use crate::packet::{Fragment, NodeId, Packet, PacketType, SourceRoutingHeader, FRAGMENT_SIZE};

verus! {

/// Number of fragments that a serialized message of `len` bytes takes: `len`
/// divided by the fragment size, rounded up.
pub open spec fn fragment_count(len: int) -> int {
    (len + 127) / 128
}

/// Where chunk `i` of a message of `len` bytes ends.
pub open spec fn chunk_end(len: int, i: int) -> int {
    if (i + 1) * 128 <= len {
        (i + 1) * 128
    } else {
        len
    }
}

/// Chunk `i` of a serialized message: 128 bytes, or what is left of the
/// message for the last one.
pub open spec fn chunk(bytes: Seq<u8>, i: int) -> Seq<u8> {
    bytes.subrange(i * 128, chunk_end(bytes.len() as int, i))
}

/// `fragment` is fragment `i` of the serialized message `bytes`: it carries
/// chunk `i`, and the rest of its buffer is zero.
pub open spec fn is_fragment_of(fragment: Fragment, bytes: Seq<u8>, i: int) -> bool {
    &&& 0 <= i < fragment_count(bytes.len() as int)
    &&& fragment.fragment_index == i
    &&& fragment.total_n_fragments == fragment_count(bytes.len() as int)
    &&& fragment.length as int == chunk(bytes, i).len()
    &&& fragment.payload() == chunk(bytes, i)
    &&& forall|j: int| fragment.length <= j < 128 ==> fragment.data@[j] == 0
}

/// `packet` carries fragment `i` of `bytes` along `hops`, at its first hop.
pub open spec fn is_packet_of(
    packet: Packet,
    bytes: Seq<u8>,
    hops: Seq<NodeId>,
    session_id: u64,
    i: int,
) -> bool {
    &&& packet.session_id == session_id
    &&& packet.routing_header.hops@ == hops
    &&& packet.routing_header.hop_index == 0
    &&& packet.pack_type matches PacketType::MsgFragment(fragment) && is_fragment_of(fragment, bytes, i)
}

/// The sizes of the fragments: the count is the length divided by 128 and
/// rounded up, every chunk but the last holds 128 bytes, and the last holds
/// the rest, which is between 1 and 128 bytes.
pub proof fn lemma_fragment_sizes(bytes: Seq<u8>, i: int)
    requires
        0 <= i < fragment_count(bytes.len() as int),
    ensures
        128 * (fragment_count(bytes.len() as int) - 1) < bytes.len() <= 128 * fragment_count(
            bytes.len() as int,
        ),
        i < fragment_count(bytes.len() as int) - 1 ==> chunk(bytes, i).len() == 128,
        i == fragment_count(bytes.len() as int) - 1 ==> chunk(bytes, i).len() == bytes.len() - 128 * i,
        1 <= chunk(bytes, i).len() <= 128,
{
}

/// A fragment of a message keeps the fragment invariant: its index is below
/// the count it states, and its payload fits its buffer.
pub proof fn lemma_fragment_wf(fragment: Fragment, bytes: Seq<u8>, i: int)
    requires
        is_fragment_of(fragment, bytes, i),
    ensures
        fragment.wf(),
{
}

/// The payloads of the fragments that the packets carry, one after the
/// other in the order of the packets. A packet that carries no fragment
/// adds nothing.
pub open spec fn joined_payloads(packets: Seq<Packet>) -> Seq<u8>
    decreases packets.len(),
{
    if packets.len() == 0 {
        Seq::empty()
    } else {
        joined_payloads(packets.drop_last()) + match packets.last().pack_type {
            PacketType::MsgFragment(fragment) => fragment.payload(),
            _ => Seq::empty(),
        }
    }
}

/// The packets are the fragments of `bytes`, in order and without a gap, as
/// far as they go.
pub open spec fn are_packets_of(
    packets: Seq<Packet>,
    bytes: Seq<u8>,
    hops: Seq<NodeId>,
    session_id: u64,
) -> bool {
    &&& packets.len() <= fragment_count(bytes.len() as int)
    &&& forall|i: int|
        0 <= i < packets.len() ==> is_packet_of(#[trigger] packets[i], bytes, hops, session_id, i)
}

/// The payloads of the first fragments of a message, joined in order, are
/// the start of the message.
pub proof fn lemma_payloads_join_prefix(
    packets: Seq<Packet>,
    bytes: Seq<u8>,
    hops: Seq<NodeId>,
    session_id: u64,
)
    requires
        are_packets_of(packets, bytes, hops, session_id),
    ensures
        joined_payloads(packets) == bytes.subrange(
            0,
            if packets.len() == 0 {
                0
            } else {
                chunk_end(bytes.len() as int, packets.len() - 1)
            },
        ),
    decreases packets.len(),
{
    if packets.len() == 0 {
        assert(joined_payloads(packets) =~= bytes.subrange(0, 0));
    } else {
        let earlier = packets.drop_last();
        let k = packets.len() - 1;
        assert forall|i: int| 0 <= i < earlier.len() implies is_packet_of(
            #[trigger] earlier[i],
            bytes,
            hops,
            session_id,
            i,
        ) by {
            assert(earlier[i] == packets[i]);
        }
        lemma_payloads_join_prefix(earlier, bytes, hops, session_id);
        assert(is_packet_of(packets[k], bytes, hops, session_id, k));
        assert(joined_payloads(packets) =~= bytes.subrange(0, chunk_end(bytes.len() as int, k)));
    }
}

/// The payloads of all the fragments of a message, joined in the order of
/// their indices, are the message.
pub proof fn lemma_payloads_join(packets: Seq<Packet>, bytes: Seq<u8>, hops: Seq<NodeId>, session_id: u64)
    requires
        packets.len() == fragment_count(bytes.len() as int),
        are_packets_of(packets, bytes, hops, session_id),
    ensures
        joined_payloads(packets) == bytes,
{
    lemma_payloads_join_prefix(packets, bytes, hops, session_id);
    assert(bytes.subrange(0, bytes.len() as int) =~= bytes);
}

/// Fragment `index` of `message`, of `total` in all.
pub fn make_fragment(message: &Vec<u8>, index: usize, total: usize) -> (fragment: Fragment)
    requires
        total == fragment_count(message@.len() as int),
        index < total,
    ensures
        is_fragment_of(fragment, message@, index as int),
{
    let len: usize = message.len();
    assert(index * 128 < len) by {
        assert(128 * total <= len + 127);
    }
    let start: usize = index * FRAGMENT_SIZE;
    let size: usize = if len - start < FRAGMENT_SIZE {
        len - start
    } else {
        FRAGMENT_SIZE
    };
    let mut data: [u8; 128] = [0u8; 128];
    let mut j: usize = 0;
    while j < size
        invariant
            j <= size,
            size <= 128,
            start + size <= message.len(),
            forall|t: int| 0 <= t < j ==> data@[t] == message@[start + t],
            forall|t: int| j <= t < 128 ==> data@[t] == 0,
        decreases size - j,
    {
        data[j] = message[start + j];
        j += 1;
    }
    let fragment = Fragment {
        fragment_index: index as u64,
        total_n_fragments: total as u64,
        length: size as u8,
        data,
    };
    assert(fragment.payload() =~= chunk(message@, index as int));
    fragment
}

/// Splits a serialized message into packets of one fragment each. Every
/// fragment but the last carries 128 bytes, the last carries the rest; an
/// empty message gives no packet. Each packet has the same hops and session
/// id, and its cursor on the first hop.
pub fn fragment_message(message: &Vec<u8>, hops: Vec<NodeId>, session_id: u64) -> (packets: Vec<Packet>)
    ensures
        packets@.len() == fragment_count(message@.len() as int),
        are_packets_of(packets@, message@, hops@, session_id),
        joined_payloads(packets@) == message@,
{
    let whole: usize = message.len() / FRAGMENT_SIZE;
    let total: usize = if message.len() % FRAGMENT_SIZE == 0 {
        whole
    } else {
        whole + 1
    };
    let mut packets: Vec<Packet> = Vec::new();
    let mut index: usize = 0;
    while index < total
        invariant
            index <= total,
            total == fragment_count(message@.len() as int),
            packets@.len() == index,
            forall|i: int|
                0 <= i < index ==> is_packet_of(#[trigger] packets@[i], message@, hops@, session_id, i),
        decreases total - index,
    {
        let fragment = make_fragment(message, index, total);
        let packet = Packet {
            pack_type: PacketType::MsgFragment(fragment),
            routing_header: SourceRoutingHeader { hop_index: 0, hops: hops.clone() },
            session_id,
        };
        packets.push(packet);
        index += 1;
    }
    proof {
        lemma_payloads_join(packets@, message@, hops@, session_id);
    }
    packets
}

} // verus!
