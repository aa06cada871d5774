use dronegowski::assembler::{assembler, ReassemblyBuffer};
use dronegowski::fragmenter::{fragment_message, make_fragment};
use dronegowski::packet::{Fragment, Packet, PacketType, FRAGMENT_SIZE};

fn fragment_of(packet: &Packet) -> Fragment {
    match &packet.pack_type {
        PacketType::MsgFragment(fragment) => *fragment,
        _ => panic!("not a fragment"),
    }
}

fn message(len: usize) -> Vec<u8> {
    (0..len).map(|i| (i * 7 + 3) as u8).collect()
}

fn rebuild(packets: &[Packet], order: &[usize]) -> Vec<u8> {
    let mut entry = Vec::new();
    for &i in order {
        assembler(&mut entry, &fragment_of(&packets[i]));
    }
    entry
}

#[test]
fn three_hundred_bytes_give_three_fragments() {
    let bytes = message(300);
    let packets = fragment_message(&bytes, vec![1, 2, 3], 77);
    assert_eq!(packets.len(), 3);
    let lengths: Vec<u8> = packets.iter().map(|p| fragment_of(p).length).collect();
    assert_eq!(lengths, vec![128, 128, 44]);
    assert_eq!(rebuild(&packets, &[2, 1, 0]), bytes);
}

#[test]
fn fragments_carry_index_count_and_payload() {
    let bytes = message(300);
    let packets = fragment_message(&bytes, vec![4, 5], 9);
    for (i, packet) in packets.iter().enumerate() {
        let fragment = fragment_of(packet);
        assert_eq!(fragment.fragment_index, i as u64);
        assert_eq!(fragment.total_n_fragments, 3);
        let len = fragment.length as usize;
        assert_eq!(&fragment.data[..len], &bytes[i * 128..i * 128 + len]);
        assert!(fragment.data[len..].iter().all(|&b| b == 0));
    }
}

#[test]
fn packets_carry_hops_session_and_cursor() {
    let packets = fragment_message(&message(200), vec![9, 8, 7], 4242);
    assert_eq!(packets.len(), 2);
    for packet in &packets {
        assert_eq!(packet.session_id, 4242);
        assert_eq!(packet.routing_header.hops, vec![9, 8, 7]);
        assert_eq!(packet.routing_header.hop_index, 0);
    }
}

#[test]
fn exact_multiple_has_no_empty_fragment() {
    let bytes = message(256);
    let packets = fragment_message(&bytes, Vec::new(), 1);
    assert_eq!(packets.len(), 2);
    assert_eq!(fragment_of(&packets[0]).length, 128);
    assert_eq!(fragment_of(&packets[1]).length, 128);
    assert_eq!(rebuild(&packets, &[0, 1]), bytes);
}

#[test]
fn fragment_counts_round_up() {
    assert_eq!(FRAGMENT_SIZE, 128);
    for (len, count) in [(0usize, 0usize), (1, 1), (127, 1), (128, 1), (129, 2), (255, 2), (257, 3), (1280, 10)] {
        assert_eq!(fragment_message(&message(len), vec![1], 0).len(), count);
    }
}

#[test]
fn single_byte_message() {
    let packets = fragment_message(&vec![0xAB], vec![1], 5);
    assert_eq!(packets.len(), 1);
    let fragment = fragment_of(&packets[0]);
    assert_eq!(fragment.fragment_index, 0);
    assert_eq!(fragment.total_n_fragments, 1);
    assert_eq!(fragment.length, 1);
    assert_eq!(fragment.data[0], 0xAB);
    assert!(fragment.data[1..].iter().all(|&b| b == 0));
}

#[test]
fn last_fragment_holds_the_rest() {
    let bytes = message(1000);
    let packets = fragment_message(&bytes, vec![1], 5);
    assert_eq!(packets.len(), 8);
    for packet in &packets[..7] {
        assert_eq!(fragment_of(packet).length, 128);
    }
    assert_eq!(fragment_of(&packets[7]).length as usize, 1000 - 128 * 7);
}

#[test]
fn make_fragment_cuts_one_chunk() {
    let bytes = message(130);
    let fragment = make_fragment(&bytes, 1, 2);
    assert_eq!(fragment.fragment_index, 1);
    assert_eq!(fragment.total_n_fragments, 2);
    assert_eq!(fragment.length, 2);
    assert_eq!(&fragment.data[..2], &bytes[128..]);
    assert!(fragment.data[2..].iter().all(|&b| b == 0));
}

#[test]
fn every_order_rebuilds_the_message() {
    let bytes = message(300);
    let packets = fragment_message(&bytes, vec![1, 2], 3);
    let orders: [[usize; 3]; 6] = [[0, 1, 2], [0, 2, 1], [1, 0, 2], [1, 2, 0], [2, 0, 1], [2, 1, 0]];
    for order in orders {
        assert_eq!(rebuild(&packets, &order), bytes);
    }
}

#[test]
fn repeated_fragments_change_nothing() {
    let bytes = message(500);
    let packets = fragment_message(&bytes, vec![1, 2], 3);
    assert_eq!(rebuild(&packets, &[3, 3, 0, 2, 0, 1, 3, 2]), bytes);
}

#[test]
fn assembler_fills_a_gap_with_zeros() {
    let bytes = message(300);
    let packets = fragment_message(&bytes, vec![1], 3);
    let mut entry = Vec::new();
    assembler(&mut entry, &fragment_of(&packets[2]));
    assert_eq!(entry.len(), 300);
    assert!(entry[..256].iter().all(|&b| b == 0));
    assert_eq!(&entry[256..], &bytes[256..]);
    assembler(&mut entry, &fragment_of(&packets[0]));
    assert_eq!(entry.len(), 300);
    assert_eq!(&entry[..128], &bytes[..128]);
    assert!(entry[128..256].iter().all(|&b| b == 0));
}

#[test]
fn assembler_keeps_what_lies_outside_the_fragment() {
    let mut entry = vec![9u8; 400];
    let mut data = [0u8; 128];
    data[0] = 1;
    data[1] = 2;
    data[2] = 3;
    let fragment = Fragment { fragment_index: 1, total_n_fragments: 4, length: 3, data };
    assembler(&mut entry, &fragment);
    assert_eq!(entry.len(), 400);
    assert!(entry[..128].iter().all(|&b| b == 9));
    assert_eq!(&entry[128..131], &[1, 2, 3]);
    assert!(entry[131..].iter().all(|&b| b == 9));
}

#[test]
fn empty_payload_only_grows_the_buffer() {
    let mut entry = vec![5u8; 10];
    let fragment = Fragment { fragment_index: 1, total_n_fragments: 2, length: 0, data: [0u8; 128] };
    assembler(&mut entry, &fragment);
    assert_eq!(entry.len(), 128);
    assert!(entry[..10].iter().all(|&b| b == 5));
    assert!(entry[10..].iter().all(|&b| b == 0));
}

#[test]
fn serialized_values_survive_the_round_trip() {
    let text = String::from("a message that is long enough to need more than one fragment ").repeat(5);
    let bytes = bincode::serialize(&text).unwrap();
    let packets = fragment_message(&bytes, vec![1, 2, 3], 11);
    assert_eq!(packets.len(), (bytes.len() + 127) / 128);
    let order: Vec<usize> = (0..packets.len()).rev().collect();
    let rebuilt = rebuild(&packets, &order);
    assert_eq!(rebuilt, bytes);
    let back: String = bincode::deserialize(&rebuilt).unwrap();
    assert_eq!(back, text);

    let blob: Vec<u8> = message(300);
    let bytes = bincode::serialize(&blob).unwrap();
    let packets = fragment_message(&bytes, vec![1], 12);
    let order: Vec<usize> = (0..packets.len()).collect();
    let back: Vec<u8> = bincode::deserialize(&rebuild(&packets, &order)).unwrap();
    assert_eq!(back, blob);

    let number: u32 = 0xDEAD_BEEF;
    let bytes = bincode::serialize(&number).unwrap();
    let packets = fragment_message(&bytes, vec![1], 13);
    assert_eq!(packets.len(), 1);
    let back: u32 = bincode::deserialize(&rebuild(&packets, &[0])).unwrap();
    assert_eq!(back, number);
}

#[test]
fn truncated_bytes_do_not_decode() {
    let text = String::from("hello, drones");
    let bytes = bincode::serialize(&text).unwrap();
    let cut: Result<String, bincode::Error> = bincode::deserialize(&bytes[..bytes.len() - 1]);
    assert!(cut.is_err());
}

#[test]
fn buffer_is_complete_once_every_fragment_arrived() {
    let bytes = message(300);
    let packets = fragment_message(&bytes, vec![1, 2], 3);
    let mut buffer = ReassemblyBuffer::new();
    assert!(!buffer.is_complete());
    assert_eq!(buffer.received_count(), 0);
    buffer.reassemble(&fragment_of(&packets[2]));
    assert!(!buffer.is_complete());
    assert_eq!(buffer.received_count(), 1);
    buffer.reassemble(&fragment_of(&packets[0]));
    assert!(!buffer.is_complete());
    assert_eq!(buffer.received_count(), 2);
    buffer.reassemble(&fragment_of(&packets[1]));
    assert!(buffer.is_complete());
    assert_eq!(buffer.received_count(), 3);
    assert_eq!(buffer.into_bytes(), bytes);
}

#[test]
fn buffer_counts_an_index_once() {
    let bytes = message(300);
    let packets = fragment_message(&bytes, vec![1, 2], 3);
    let mut buffer = ReassemblyBuffer::new();
    buffer.reassemble(&fragment_of(&packets[1]));
    buffer.reassemble(&fragment_of(&packets[1]));
    buffer.reassemble(&fragment_of(&packets[0]));
    buffer.reassemble(&fragment_of(&packets[1]));
    assert_eq!(buffer.received_count(), 2);
    assert!(!buffer.is_complete());
    buffer.reassemble(&fragment_of(&packets[2]));
    buffer.reassemble(&fragment_of(&packets[2]));
    assert_eq!(buffer.received_count(), 3);
    assert!(buffer.is_complete());
    assert_eq!(buffer.into_bytes(), bytes);
}

#[test]
fn buffer_of_a_single_fragment() {
    let packets = fragment_message(&vec![1, 2, 3], vec![1], 3);
    let mut buffer = ReassemblyBuffer::new();
    buffer.reassemble(&fragment_of(&packets[0]));
    assert!(buffer.is_complete());
    assert_eq!(buffer.into_bytes(), vec![1, 2, 3]);
}
