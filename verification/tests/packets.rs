use advent::packets::{
    hex_digit, parse_all_packets, parse_n_packets, parse_packet, parse_single_packet, read_data,
    Packet, PacketLit, PacketOp,
};

fn chars(s: &str) -> Vec<char> {
    s.chars().collect()
}

fn packet(hex: &str) -> Packet {
    parse_packet(&read_data(&chars(hex))).unwrap()
}

#[test]
fn hex_digits() {
    assert_eq!(hex_digit('0'), Some(0));
    assert_eq!(hex_digit('9'), Some(9));
    assert_eq!(hex_digit('A'), Some(10));
    assert_eq!(hex_digit('F'), Some(15));
    assert_eq!(hex_digit('a'), None);
    assert_eq!(hex_digit('G'), None);
    assert_eq!(hex_digit('\n'), None);
}

#[test]
fn literal_packet() {
    match packet("D2FE28") {
        Packet::Lit(l) => {
            assert_eq!(l.version, 6);
            assert_eq!(l.val, 2021);
        },
        Packet::Op(_) => panic!("a literal was expected"),
    }
}

#[test]
fn literal_ends_after_its_last_group() {
    let bits = read_data(&chars("D2FE28"));
    let (_, end) = parse_single_packet(&bits, 0, 24).unwrap();
    assert_eq!(end, 21);
    assert!(parse_single_packet(&bits, 0, 20).is_none());
    assert!(parse_single_packet(&bits, 0, 5).is_none());
}

#[test]
fn operator_by_length() {
    match packet("38006F45291200") {
        Packet::Op(o) => {
            assert_eq!((o.version, o.type_id), (1, 6));
            assert_eq!(o.ls.len(), 2);
            assert!(matches!(&o.ls[0], Packet::Lit(l) if l.val == 10));
            assert!(matches!(&o.ls[1], Packet::Lit(l) if l.val == 20));
        },
        Packet::Lit(_) => panic!("an operator was expected"),
    }
}

#[test]
fn operator_by_count() {
    match packet("EE00D40C823060") {
        Packet::Op(o) => {
            assert_eq!((o.version, o.type_id), (7, 3));
            let vals: Vec<u64> = o.ls.iter().map(|p| p.exec()).collect();
            assert_eq!(vals, vec![1, 2, 3]);
        },
        Packet::Lit(_) => panic!("an operator was expected"),
    }
}

#[test]
fn version_sums() {
    assert_eq!(packet("8A004A801A8002F478").get_version_sum(), 16);
    assert_eq!(packet("620080001611562C8802118E34").get_version_sum(), 12);
    assert_eq!(packet("C0015000016115A2E0802F182340").get_version_sum(), 23);
    assert_eq!(packet("A0016C880162017C3686B18A3D4780").get_version_sum(), 31);
}

#[test]
fn values() {
    assert_eq!(packet("C200B40A82").exec(), 3);
    assert_eq!(packet("04005AC33890").exec(), 54);
    assert_eq!(packet("880086C3E88112").exec(), 7);
    assert_eq!(packet("CE00C43D881120").exec(), 9);
    assert_eq!(packet("D8005AC2A8F0").exec(), 1);
    assert_eq!(packet("F600BC2D8F").exec(), 0);
    assert_eq!(packet("9C005AC2F8F0").exec(), 0);
    assert_eq!(packet("9C0141080250320F1802104A08").exec(), 1);
}

#[test]
fn truncated_input_gives_none() {
    assert!(parse_packet(&read_data(&chars(""))).is_none());
    assert!(parse_packet(&read_data(&chars("D2"))).is_none());
    assert!(parse_packet(&read_data(&chars("38006F4529"))).is_none());
    assert!(parse_packet(&read_data(&chars("EE00D40C82"))).is_none());
}

#[test]
fn other_characters_are_passed_over() {
    assert_eq!(packet("D2 FE\n28").exec(), 2021);
}

#[test]
fn packets_in_a_row() {
    // two literals: version 6 value 10 (11 bits) and version 2 value 20 (16 bits)
    let bits = read_data(&chars("38006F45291200"));
    let all = parse_all_packets(&bits, 22, 49).unwrap();
    assert_eq!(all.len(), 2);
    assert_eq!(all[1].exec(), 20);
    let (two, end) = parse_n_packets(&bits, 22, 49, 2).unwrap();
    assert_eq!((two.len(), end), (2, 49));
    let (one, end) = parse_n_packets(&bits, 22, 49, 1).unwrap();
    assert_eq!((one.len(), end), (1, 33));
    let (none, end) = parse_n_packets(&bits, 22, 49, 0).unwrap();
    assert_eq!((none.len(), end), (0, 22));
    assert!(parse_n_packets(&bits, 22, 49, 3).is_none());
    assert!(parse_all_packets(&bits, 22, 48).is_none());
    assert!(parse_all_packets(&bits, 22, 22).unwrap().is_empty());
}

fn lit(val: u64) -> Packet {
    Packet::Lit(PacketLit { version: 1, val })
}

fn op(type_id: u8, ls: Vec<Packet>) -> Packet {
    Packet::Op(PacketOp { version: 2, type_id, ls })
}

#[test]
fn total_evaluation_agrees_on_the_samples() {
    for (hex, want) in [
        ("C200B40A82", 3u64),
        ("04005AC33890", 54),
        ("880086C3E88112", 7),
        ("CE00C43D881120", 9),
        ("D8005AC2A8F0", 1),
        ("F600BC2D8F", 0),
        ("9C005AC2F8F0", 0),
        ("9C0141080250320F1802104A08", 1),
        ("D2FE28", 2021),
    ] {
        let p = packet(hex);
        assert_eq!(p.try_exec(), Some(want));
        assert_eq!(p.exec(), want);
    }
}

#[test]
fn total_evaluation_refuses_an_operator_without_parts() {
    assert_eq!(op(2, vec![]).try_exec(), None);
    assert_eq!(op(3, vec![]).try_exec(), None);
    assert_eq!(op(5, vec![lit(1)]).try_exec(), None);
    assert_eq!(op(6, vec![]).try_exec(), None);
    assert_eq!(op(7, vec![lit(1)]).try_exec(), None);
    assert_eq!(op(0, vec![]).try_exec(), Some(0));
    assert_eq!(op(1, vec![]).try_exec(), Some(1));
    assert_eq!(packet("080000").try_exec(), None);
}

#[test]
fn total_evaluation_refuses_an_unknown_operator() {
    assert_eq!(op(4, vec![lit(1), lit(2)]).try_exec(), None);
    assert_eq!(op(8, vec![lit(1), lit(2)]).try_exec(), None);
    assert_eq!(op(255, vec![]).try_exec(), None);
}

#[test]
fn total_evaluation_refuses_what_leaves_the_range() {
    assert_eq!(op(0, vec![lit(u64::MAX), lit(0)]).try_exec(), Some(u64::MAX));
    assert_eq!(op(0, vec![lit(u64::MAX), lit(1)]).try_exec(), None);
    assert_eq!(op(1, vec![lit(1 << 32), lit(1 << 31)]).try_exec(), Some(1 << 63));
    assert_eq!(op(1, vec![lit(1 << 32), lit(1 << 32)]).try_exec(), None);
    // a product that leaves the range on the way is refused though a later
    // factor is zero
    assert_eq!(op(1, vec![lit(1 << 32), lit(1 << 32), lit(0)]).try_exec(), None);
    assert_eq!(op(1, vec![lit(0), lit(1 << 32), lit(1 << 32)]).try_exec(), Some(0));
    // a part that cannot be evaluated spoils the whole
    let bad = op(0, vec![lit(u64::MAX), lit(1)]);
    assert_eq!(op(2, vec![lit(3), bad]).try_exec(), None);
}

#[test]
fn total_evaluation_of_nested_operators() {
    let inner = op(0, vec![lit(4), lit(5), lit(6)]);
    let least = op(2, vec![lit(20), inner, lit(17)]);
    assert_eq!(least.try_exec(), Some(15));
    let greatest = op(3, vec![lit(20), op(1, vec![lit(3), lit(7)]), lit(17)]);
    assert_eq!(greatest.try_exec(), Some(21));
    assert_eq!(op(5, vec![lit(2), lit(1), lit(9)]).try_exec(), Some(1));
    assert_eq!(op(6, vec![lit(2), lit(1)]).try_exec(), Some(0));
    assert_eq!(op(7, vec![lit(2), lit(2)]).try_exec(), Some(1));
}

#[test]
fn checked_version_sums() {
    assert_eq!(packet("8A004A801A8002F478").try_version_sum(), Some(16));
    assert_eq!(packet("620080001611562C8802118E34").try_version_sum(), Some(12));
    assert_eq!(packet("C0015000016115A2E0802F182340").try_version_sum(), Some(23));
    assert_eq!(packet("A0016C880162017C3686B18A3D4780").try_version_sum(), Some(31));
    assert_eq!(op(9, vec![lit(0), op(4, vec![])]).try_version_sum(), Some(5));
    assert_eq!(op(9, vec![lit(0), op(4, vec![])]).get_version_sum(), 5);
}
