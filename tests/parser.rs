use onebrc::error::AggregateError;
use onebrc::parser::{
    bytes_from_end, check_record, check_temp_tail, create_mask, get_temp, get_temp_branchless,
    has_zero, tail_word,
};

#[test]
fn parser_branchless() {
    let line = "Rostov-on-Don;8.7";
    let end = u64::from_be_bytes(*line.as_bytes().last_chunk::<8>().unwrap());
    let (split, temp) = get_temp_branchless(end);
    assert_eq!(line.split_at(line.len() - split - 1).0, "Rostov-on-Don");
    assert_eq!(87, temp);
}

#[test]
fn parser() {
    let line = "Rostov-on-Don;8.7";
    let (split, temp) = get_temp(line.as_bytes());
    assert_eq!(&line[..split], "Rostov-on-Don");
    assert_eq!(87, temp);
}

fn both_readers(line: &str) -> ((usize, i32), (usize, i32)) {
    let bytes = line.as_bytes();
    let scalar = get_temp(bytes);
    let (after, temp) = get_temp_branchless(tail_word(bytes));
    (scalar, (bytes.len() - after - 1, temp))
}

#[test]
fn readers_agree_on_every_shape() {
    let cases = [
        ("Hamburg;12.0", 7, 120),
        ("Abha;-23.0", 4, -230),
        ("Zurich;0.1", 6, 1),
        ("Y;-99.9", 1, -999),
        ("Y;99.9", 1, 999),
        ("A;0.1", 1, 1),
        ("A;-0.1", 1, -1),
        ("X;5.0", 1, 50),
        ("ab;-5.5", 2, -55),
        ("Foo-;1.5", 4, 15),
        ("a-b;-12.3", 3, -123),
        ("x-Y;8.7", 3, 87),
    ];
    for (line, split, temp) in cases {
        let (scalar, branchless) = both_readers(line);
        assert_eq!(scalar, (split, temp), "scalar reader on {line}");
        assert_eq!(branchless, (split, temp), "branchless reader on {line}");
    }
}

#[test]
fn one_byte_name_uses_padded_word() {
    assert_eq!(tail_word(b"A;0.1"), 0x0000_0041_3B30_2E31);
    assert_eq!(get_temp_branchless(tail_word(b"A;0.1")), (3, 1));
    assert_eq!(get_temp_branchless(tail_word(b"B;-9.9")), (4, -99));
    assert_eq!(get_temp_branchless(tail_word(b"C;-99.9")), (5, -999));
}

#[test]
fn tail_word_reads_last_eight_bytes() {
    assert_eq!(tail_word(b"0123456789"), u64::from_be_bytes(*b"23456789"));
    assert_eq!(tail_word(b""), 0);
}

#[test]
fn swar_helpers() {
    assert_eq!(create_mask(b';'), 0x3B3B_3B3B_3B3B_3B3B);
    assert_eq!(create_mask(0xFF), u64::MAX);
    assert_eq!(has_zero(0x0101_0101_0101_0101), 0);
    assert_eq!(has_zero(0x0101_0101_0101_0100), 0x8080_8080_8080_8080);
    assert_eq!(has_zero(0x0101_0101_0101_0100).trailing_zeros(), 7);
    assert_eq!(has_zero(0x0101_0101_0001_0101), 0x8080_8080_8000_0000);
    assert_eq!(has_zero(0x0101_0101_0001_0101).trailing_zeros(), 31);
    assert_eq!(bytes_from_end(u64::from_be_bytes(*b"-Don;8.7"), create_mask(b';')), 3);
    assert_eq!(bytes_from_end(u64::from_be_bytes(*b"abcdefgh"), create_mask(b';')), 7);
}

#[test]
fn line_checks() {
    assert!(check_temp_tail(b"a;1.0"));
    assert!(!check_temp_tail(b";1.0"));
    assert!(!check_temp_tail(b"a;1.00"));
    assert!(!check_temp_tail(b"a;1,0"));
    assert!(!check_temp_tail(b"a;+1.0"));
    assert!(check_record(b"a;-1.0"));
    assert!(!check_record(b"a;b;1.0"));
    let long = [b'x'; 101];
    let mut line = long.to_vec();
    line.extend_from_slice(b";1.0");
    assert!(!check_record(&line));
    assert!(check_record(&line[1..]));
}

#[test]
fn malformed_chunks_are_rejected() {
    assert_eq!(onebrc::parser::parser(b"a;1.0").err(), Some(AggregateError::MalformedRecord));
    assert_eq!(onebrc::parser::parser(b"a;1.0\nb;x\n").err(), Some(AggregateError::MalformedRecord));
    assert_eq!(onebrc::parser::parser(b"a;b;1.0\n").err(), Some(AggregateError::MalformedRecord));
    assert_eq!(onebrc::parser::parser(b"\n").err(), Some(AggregateError::MalformedRecord));
    assert!(onebrc::parser::parser(b"").is_ok());
}

#[test]
fn too_many_stations_exceed_capacity() {
    let mut chunk = Vec::new();
    for i in 0..16384u32 {
        chunk.extend_from_slice(format!("s{i};1.0\n").as_bytes());
    }
    assert_eq!(onebrc::parser::parser(&chunk).err(), Some(AggregateError::CapacityExceeded));
    assert_eq!(onebrc::parser::parser_branchless(&chunk).err(), Some(AggregateError::CapacityExceeded));
    let cut = chunk.iter().rposition(|&b| b == b's').unwrap();
    assert!(onebrc::parser::parser(&chunk[..cut]).is_ok());
    let mut bad = chunk.clone();
    bad.extend_from_slice(b"oops\n");
    assert_eq!(onebrc::parser::parser(&bad).err(), Some(AggregateError::MalformedRecord));
}
