use timeline_codec::action::ActionCodec;
use timeline_codec::bytes::{
    read_pas_string, read_u32_le, write_pas_string, write_u32_le, DecodeError, ParserOptions,
};
use timeline_codec::timeline::{check_or_skip_version, Timeline, VERSION, VERSION_MOMENT};

const STRICT: ParserOptions = ParserOptions { strict: true };
const LENIENT: ParserOptions = ParserOptions { strict: false };

fn le(v: u32) -> Vec<u8> {
    v.to_le_bytes().to_vec()
}

fn sample() -> Timeline<u32> {
    Timeline {
        name: String::from("tl_boss"),
        moments: vec![(3, vec![7, 0xdead_beef]), (3, vec![]), (0, vec![1])],
    }
}

fn encode(t: &Timeline<u32>) -> Vec<u8> {
    let mut out = Vec::new();
    let n = t.serialize(&mut out);
    assert_eq!(n, out.len());
    out
}

#[test]
fn concrete_scenario_tl_intro() {
    let t: Timeline<u32> = Timeline {
        name: String::from("tl_intro"),
        moments: vec![(0, vec![]), (150, vec![])],
    };
    let bytes = encode(&t);
    let mut expected = le(8);
    expected.extend_from_slice(b"tl_intro");
    for v in [500u32, 2, 0, 400, 0, 150, 400, 0] {
        expected.extend(le(v));
    }
    assert_eq!(bytes, expected);
    assert_eq!(bytes.len(), 4 + 8 + 8 + 24);
    let back = Timeline::<u32>::deserialize(&bytes, &STRICT).unwrap();
    assert_eq!(back.name, "tl_intro");
    assert_eq!(back.moments, vec![(0, vec![]), (150, vec![])]);
}

#[test]
fn version_constants() {
    assert_eq!(VERSION, 500);
    assert_eq!(VERSION_MOMENT, 400);
}

#[test]
fn round_trip_with_actions_in_both_modes() {
    let t = sample();
    let bytes = encode(&t);
    for opts in [STRICT, LENIENT] {
        let back = Timeline::<u32>::deserialize(&bytes, &opts).unwrap();
        assert_eq!(back.name, t.name);
        assert_eq!(back.moments, t.moments);
    }
}

#[test]
fn round_trip_non_ascii_name() {
    let t: Timeline<u32> = Timeline { name: String::from("héllo→"), moments: vec![(9, vec![2, 3])] };
    let bytes = encode(&t);
    assert_eq!(&bytes[0..4], &le(9)[..]);
    let back = Timeline::<u32>::deserialize(&bytes, &STRICT).unwrap();
    assert_eq!(back.name, "héllo→");
    assert_eq!(back.moments, vec![(9, vec![2, 3])]);
}

#[test]
fn empty_timeline_layout() {
    let t: Timeline<u32> = Timeline { name: String::new(), moments: vec![] };
    let bytes = encode(&t);
    assert_eq!(bytes, vec![0, 0, 0, 0, 0xf4, 0x01, 0, 0, 0, 0, 0, 0]);
    let back = Timeline::<u32>::deserialize(&bytes, &STRICT).unwrap();
    assert_eq!(back.name, "");
    assert!(back.moments.is_empty());
}

#[test]
fn serialize_appends_to_writer() {
    let t = sample();
    let mut out = vec![0xaa, 0xbb];
    let n = t.serialize(&mut out);
    assert_eq!(&out[..2], &[0xaa, 0xbb]);
    assert_eq!(n, out.len() - 2);
    assert_eq!(out[2..].to_vec(), encode(&t));
}

#[test]
fn strict_rejects_foreign_timeline_version() {
    let t = sample();
    let mut bytes = encode(&t);
    let at = 4 + t.name.len();
    assert_eq!(&bytes[at..at + 4], &le(500)[..]);
    for foreign in [0u32, 499, 501, u32::MAX] {
        bytes[at..at + 4].copy_from_slice(&le(foreign));
        match Timeline::<u32>::deserialize(&bytes, &STRICT) {
            Err(e) => assert_eq!(e, DecodeError::VersionMismatch { expected: 500, found: foreign }),
            Ok(_) => panic!("a foreign version was accepted in strict mode"),
        }
        let back = Timeline::<u32>::deserialize(&bytes, &LENIENT).unwrap();
        assert_eq!(back.name, t.name);
        assert_eq!(back.moments, t.moments);
    }
}

#[test]
fn moment_version_checked_per_moment() {
    let t: Timeline<u32> = Timeline { name: String::from("tl"), moments: vec![(1, vec![5]), (2, vec![])] };
    let bytes = encode(&t);
    let header = 4 + 2 + 8;
    let first_version = header + 4;
    let second_version = header + 12 + 4 + 4;
    assert_eq!(&bytes[first_version..first_version + 4], &le(400)[..]);
    assert_eq!(&bytes[second_version..second_version + 4], &le(400)[..]);

    let mut second = bytes.clone();
    second[second_version..second_version + 4].copy_from_slice(&le(401));
    match Timeline::<u32>::deserialize(&second, &STRICT) {
        Err(e) => assert_eq!(e, DecodeError::VersionMismatch { expected: 400, found: 401 }),
        Ok(_) => panic!("a foreign moment version was accepted in strict mode"),
    }
    let back = Timeline::<u32>::deserialize(&second, &LENIENT).unwrap();
    assert_eq!(back.moments, t.moments);

    let mut first = bytes.clone();
    first[first_version..first_version + 4].copy_from_slice(&le(7));
    match Timeline::<u32>::deserialize(&first, &STRICT) {
        Err(e) => assert_eq!(e, DecodeError::VersionMismatch { expected: 400, found: 7 }),
        Ok(_) => panic!("a foreign moment version was accepted in strict mode"),
    }
}

#[test]
fn action_count_drives_framing() {
    let t: Timeline<u32> = Timeline { name: String::from("a"), moments: vec![(4, vec![10, 20, 30])] };
    let bytes = encode(&t);
    let count_at = 4 + 1 + 8 + 8;
    assert_eq!(&bytes[count_at..count_at + 4], &le(3)[..]);

    let mut fewer = bytes.clone();
    fewer[count_at..count_at + 4].copy_from_slice(&le(2));
    let back = Timeline::<u32>::deserialize(&fewer, &STRICT).unwrap();
    assert_eq!(back.moments, vec![(4, vec![10, 20])]);

    let mut more = bytes.clone();
    more[count_at..count_at + 4].copy_from_slice(&le(4));
    match Timeline::<u32>::deserialize(&more, &STRICT) {
        Err(e) => assert_eq!(e, DecodeError::UnexpectedEof),
        Ok(_) => panic!("a missing action was not reported"),
    }
}

#[test]
fn truncation_is_detected_at_every_point() {
    let t = sample();
    let bytes = encode(&t);
    for k in 0..bytes.len() {
        for opts in [STRICT, LENIENT] {
            match Timeline::<u32>::deserialize(&bytes[..k], &opts) {
                Err(e) => assert_eq!(e, DecodeError::UnexpectedEof),
                Ok(_) => panic!("a prefix of {} bytes was read as a timeline", k),
            }
        }
    }
}

#[test]
fn trailing_bytes_are_left_alone() {
    let t = sample();
    let mut bytes = encode(&t);
    bytes.extend_from_slice(&[1, 2, 3]);
    let back = Timeline::<u32>::deserialize(&bytes, &STRICT).unwrap();
    assert_eq!(back.moments, t.moments);
}

#[test]
fn invalid_utf8_name_is_rejected() {
    let mut bytes = le(2);
    bytes.extend_from_slice(&[0xff, 0xfe]);
    bytes.extend(le(500));
    bytes.extend(le(0));
    match Timeline::<u32>::deserialize(&bytes, &LENIENT) {
        Err(e) => assert_eq!(e, DecodeError::InvalidUtf8),
        Ok(_) => panic!("invalid UTF-8 was accepted"),
    }
}

#[test]
fn check_or_skip_version_rule() {
    assert_eq!(check_or_skip_version(500, 500, true), Ok(()));
    assert_eq!(
        check_or_skip_version(500, 12, true),
        Err(DecodeError::VersionMismatch { expected: 500, found: 12 })
    );
    assert_eq!(check_or_skip_version(500, 12, false), Ok(()));
    assert_eq!(check_or_skip_version(400, 400, false), Ok(()));
}

#[test]
fn u32_little_endian_primitives() {
    let mut out = Vec::new();
    write_u32_le(&mut out, 0x0102_0304);
    assert_eq!(out, vec![4, 3, 2, 1]);
    let bin = [9u8, 4, 3, 2, 1];
    assert_eq!(read_u32_le(&bin, 1), Ok((0x0102_0304, 5)));
    assert_eq!(read_u32_le(&bin, 2), Err(DecodeError::UnexpectedEof));
}

#[test]
fn pas_string_primitives() {
    let mut out = vec![7];
    let n = write_pas_string(&mut out, "ab→");
    assert_eq!(n, 4 + 5);
    assert_eq!(out, vec![7, 5, 0, 0, 0, b'a', b'b', 0xe2, 0x86, 0x92]);
    let (s, end) = read_pas_string(&out, 1).unwrap();
    assert_eq!(s, "ab→");
    assert_eq!(end, out.len());
    assert_eq!(read_pas_string(&out[..9], 1), Err(DecodeError::UnexpectedEof));
}

#[test]
fn numeric_action_codec() {
    let mut out = Vec::new();
    assert_eq!(0xa0b0_c0d0u32.serialize(&mut out), 4);
    assert_eq!(out, vec![0xd0, 0xc0, 0xb0, 0xa0]);
    let got = <u32 as ActionCodec>::deserialize(&out, 0, &STRICT);
    assert_eq!(got, Ok((0xa0b0_c0d0, 4)));
    let cut = <u32 as ActionCodec>::deserialize(&out[..3], 0, &LENIENT);
    assert_eq!(cut, Err(DecodeError::UnexpectedEof));
}
