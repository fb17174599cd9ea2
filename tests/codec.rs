use edflib::annotation::{decode_annotation, decode_block, encode_annotation, fill_annotation_block, Annotation};
use edflib::decimal::{parse_digits, push_digits, push_padded_digits};
use edflib::error::EdfError;
use edflib::header::{encode_header, Header, SignalParam};
use edflib::record::{pack_record, Block};
use edflib::sample::{push_sample, read_sample, Filetype};
use edflib::scaling::{Physical, Scaling};
use edflib::seek::{locate_time, seek_position, Whence};

#[test]
fn digital_physical_round_trip_16_bit() {
    let s = Scaling::new(-32768, 32767, -1000, 1000).unwrap();
    for code in [-32768, -1, 0, 1, 12345, 16384, 32767] {
        let p = s.to_physical(code);
        assert_eq!(s.to_digital(p), Ok(code));
    }
}

#[test]
fn digital_physical_round_trip_24_bit() {
    let s = Scaling::new(-8388608, 8388607, -3, 99999999).unwrap();
    for code in [-8388608, -77, 0, 4000000, 8388607] {
        assert_eq!(s.to_digital(s.to_physical(code)), Ok(code));
    }
}

#[test]
fn extremes_map_exactly() {
    let s = Scaling::new(-2048, 2047, -200, 300).unwrap();
    let lo = s.to_physical(-2048);
    assert_eq!(lo.num, -200 * lo.den);
    let hi = s.to_physical(2047);
    assert_eq!(hi.num, 300 * hi.den);
}

#[test]
fn half_scale_value_quantises_near_16384() {
    let s = Scaling::new(-32768, 32767, -1000, 1000).unwrap();
    let code = s.to_digital(Physical::whole(500)).unwrap();
    assert!((code - 16384).abs() <= 1);
    assert_eq!(code, 16383);
    let back = s.to_physical(16384);
    // |back - 500| <= one step, with step = 2000 / 65535
    let diff = (back.num - 500 * back.den).abs();
    assert!(diff * 65535 <= 2000 * back.den);
}

#[test]
fn to_digital_rejects_out_of_range() {
    let s = Scaling::new(-100, 100, -10, 10).unwrap();
    assert_eq!(s.to_digital(Physical::whole(11)), Err(EdfError::OutOfRange));
    assert_eq!(s.to_digital(Physical::whole(-11)), Err(EdfError::OutOfRange));
    assert_eq!(s.to_digital(Physical::whole(10)), Ok(100));
    assert_eq!(s.to_digital(Physical { num: 5, den: 10 }), Ok(5));
}

#[test]
fn scaling_degenerate_and_invalid_ranges() {
    assert_eq!(Scaling::new(5, 5, 0, 1), Err(EdfError::ScalingDegenerate));
    assert_eq!(Scaling::new(6, 5, 0, 1), Err(EdfError::InvalidRange));
    assert_eq!(Scaling::new(0, 5, 1, 1), Err(EdfError::InvalidRange));
    assert_eq!(Scaling::new(0, 5, 0, 100000000), Err(EdfError::InvalidRange));
}

#[test]
fn decimal_digits() {
    let mut v = Vec::new();
    push_digits(&mut v, 1234567);
    assert_eq!(v, b"1234567".to_vec());
    let mut z = Vec::new();
    push_digits(&mut z, 0);
    assert_eq!(z, b"0".to_vec());
    let mut p = Vec::new();
    push_padded_digits(&mut p, 42, 7);
    assert_eq!(p, b"0000042".to_vec());
    assert_eq!(parse_digits(&b"x0098y".to_vec(), 1, 5), 98);
}

#[test]
fn sample_bytes_are_little_endian_twos_complement() {
    let mut v = Vec::new();
    push_sample(&mut v, -2, 2);
    push_sample(&mut v, 258, 2);
    push_sample(&mut v, -8388608, 3);
    push_sample(&mut v, 65536, 3);
    assert_eq!(v, vec![0xfe, 0xff, 0x02, 0x01, 0x00, 0x00, 0x80, 0x00, 0x00, 0x01]);
    assert_eq!(read_sample(&v, 0, 2), -2);
    assert_eq!(read_sample(&v, 2, 2), 258);
    assert_eq!(read_sample(&v, 4, 3), -8388608);
    assert_eq!(read_sample(&v, 7, 3), 65536);
}

#[test]
fn pack_record_lays_out_blocks_in_order() {
    let blocks = vec![Block::Samples(vec![1, -1]), Block::Annotations(vec![9, 8]), Block::Samples(vec![300])];
    let spr = vec![2u32, 1, 1];
    let bytes = pack_record(&blocks, &spr, 2).unwrap();
    assert_eq!(bytes, vec![1, 0, 0xff, 0xff, 9, 8, 0x2c, 0x01]);
}

#[test]
fn pack_record_errors() {
    let spr = vec![2u32];
    assert_eq!(pack_record(&vec![Block::Samples(vec![1])], &spr, 2), Err(EdfError::SampleCountMismatch));
    assert_eq!(pack_record(&vec![Block::Samples(vec![1, 40000])], &spr, 2), Err(EdfError::OutOfRange));
    assert_eq!(pack_record(&vec![], &spr, 2), Err(EdfError::SampleCountMismatch));
}

fn ann(onset: i64, duration: Option<i64>, text: &str) -> Annotation {
    Annotation { onset, duration, description: text.as_bytes().to_vec() }
}

#[test]
fn annotation_text_encoding() {
    let mut v = Vec::new();
    encode_annotation(&mut v, &ann(2_980_000, None, "Test 1")).unwrap();
    assert_eq!(v, b"+0.2980000\x14Test 1\x14\x00".to_vec());
    let mut w = Vec::new();
    encode_annotation(&mut w, &ann(-10_000_000, Some(15_000_000), "x")).unwrap();
    assert_eq!(w, b"-1\x151.5000000\x14x\x14\x00".to_vec());
}

#[test]
fn annotation_round_trip() {
    for a in [
        ann(0, None, "Recording starts"),
        ann(2_980_000, None, "Test 1"),
        ann(-123_456_789, Some(0), ""),
        ann(9_223_372_036_854_775_807, Some(9_223_372_036_854_775_807), "max"),
        ann(31, Some(10_000_000), "UTF-8 \u{e9}"),
    ] {
        let mut v = vec![0x41];
        encode_annotation(&mut v, &a).unwrap();
        let n = v.len();
        v.extend_from_slice(b"+5\x14\x14\x00");
        let (back, end) = decode_annotation(&v, 1).unwrap();
        assert_eq!(back, a);
        assert_eq!(end, n);
    }
}

#[test]
fn annotation_control_bytes_rejected() {
    let mut v = Vec::new();
    assert_eq!(encode_annotation(&mut v, &ann(0, None, "a\x14b")), Err(EdfError::ForbiddenControlByte));
    assert_eq!(encode_annotation(&mut v, &ann(0, None, "a\nb")), Err(EdfError::ForbiddenControlByte));
    assert_eq!(encode_annotation(&mut v, &ann(i64::MIN, None, "a")), Err(EdfError::InvalidRange));
    assert_eq!(encode_annotation(&mut v, &ann(0, Some(-1), "a")), Err(EdfError::InvalidRange));
    assert!(v.is_empty());
}

#[test]
fn malformed_annotation_text() {
    for bad in [&b"0\x14x\x14\x00"[..], b"+\x14x\x14\x00", b"+1.\x14x\x14\x00", b"+1\x14x\x14", b"+1.12345678\x14x\x14\x00", b"+1\x14x\x01\x14\x00"] {
        assert_eq!(decode_annotation(&bad.to_vec(), 0), Err(EdfError::MalformedAnnotationText));
    }
    let (a, _) = decode_annotation(&b"+2.98\x14short\x14\x00".to_vec(), 0).unwrap();
    assert_eq!(a, ann(29_800_000, None, "short"));
}

#[test]
fn annotation_block_fill_and_decode() {
    let pending = vec![ann(0, None, "Recording starts"), ann(2_980_000, None, "Test 1"), ann(1, None, &"z".repeat(90))];
    let (block, next) = fill_annotation_block(Some(30_000_000), &pending, 0, 114).unwrap();
    assert_eq!(block.len(), 114);
    assert_eq!(next, 2);
    assert!(block.starts_with(b"+3\x14\x14\x00+0\x14Recording starts\x14\x00"));
    let list = decode_block(&block);
    assert_eq!(list, vec![ann(30_000_000, None, ""), pending[0].clone(), pending[1].clone()]);
    assert_eq!(fill_annotation_block(Some(0), &pending, 0, 3), Err(EdfError::AnnotationOverflow));
}

#[test]
fn seek_positions() {
    assert_eq!(seek_position(200, 10, 0, 150, Whence::Start), Ok(150));
    assert_eq!(seek_position(200, 10, 150, 100, Whence::Current), Ok(250));
    assert_eq!(seek_position(200, 10, 0, -1, Whence::End), Ok(1999));
    assert_eq!(seek_position(200, 10, 0, 0, Whence::End), Err(EdfError::SeekOutOfRange));
    assert_eq!(seek_position(200, 10, 5, -6, Whence::Current), Err(EdfError::SeekOutOfRange));
}

#[test]
fn locate_time_splits_record_and_offset() {
    assert_eq!(locate_time(25_000_000, 10_000_000, 200, 10), Ok((2, 100)));
    assert_eq!(locate_time(0, 10_000_000, 200, 10), Ok((0, 0)));
    assert_eq!(locate_time(-1, 10_000_000, 200, 10), Err(EdfError::SeekOutOfRange));
    assert_eq!(locate_time(100_000_000, 10_000_000, 200, 10), Err(EdfError::SeekOutOfRange));
}

#[test]
fn header_layout() {
    let sig = SignalParam {
        label: b"EEG Fpz-Cz".to_vec(),
        transducer: vec![],
        physical_dimension: b"uV".to_vec(),
        prefilter: vec![],
        phys_min: -1000,
        phys_max: 1000,
        dig_min: -32768,
        dig_max: 32767,
        samples_per_record: 200,
    };
    let h = Header {
        filetype: Filetype::EDF,
        patient: b"X X X X".to_vec(),
        recording: b"Startdate X X X \xff".to_vec(),
        startdate: b"01.01.85".to_vec(),
        starttime: b"00.00.00".to_vec(),
        records: 600,
        duration_seconds: 1,
        signals: vec![sig],
    };
    let b = encode_header(&h);
    assert_eq!(b.len(), 512);
    assert_eq!(&b[0..8], b"0       ");
    assert_eq!(b[8 + 80 + 16], b'_');
    assert_eq!(&b[184..192], b"512     ");
    assert_eq!(&b[192..197], b"EDF+C");
    assert_eq!(&b[236..244], b"600     ");
    assert_eq!(&b[244..252], b"1       ");
    assert_eq!(&b[252..256], b"1   ");
    assert_eq!(&b[256..272], b"EEG Fpz-Cz      ");
    assert_eq!(&b[360..368], b"-1000   ");
    assert_eq!(&b[376..384], b"-32768  ");
    assert_eq!(&b[472..480], b"200     ");
}

#[test]
fn filetype_names() {
    assert_eq!(Filetype::from("bdf"), Filetype::BDF);
    assert_eq!(Filetype::from("edf"), Filetype::EDF);
    assert_eq!(Filetype::from("txt"), Filetype::EDF);
    assert_eq!(Filetype::BDF.as_str(), "bdf");
    assert_eq!(Filetype::EDF.as_str(), "edf");
    assert_eq!(Filetype::BDF.width(), 3);
}
