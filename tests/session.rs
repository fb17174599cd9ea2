use edflib::annotation::Annotation;
use edflib::edf::{AnnotationPosition, Edf, SessionState};
use edflib::error::EdfError;
use edflib::reader::EdfReader;
use edflib::scaling::{Physical, Scaling};
use edflib::seek::Whence;

fn open(path: &str, signals: i32) -> Edf {
    let mut edf = Edf::new(path.to_string());
    edf.number_of_signals = signals;
    edf.open_file_writeonly().unwrap();
    edf
}

fn whole(values: &[i32]) -> Vec<Physical> {
    values.iter().map(|v| Physical::whole(*v)).collect()
}

#[test]
fn six_hundred_records_of_two_hundred_samples() {
    let mut edf = open("generator.edf", 1);
    edf.set_samplefrequency(0, 200).unwrap();
    edf.set_digital_minimum(0, -32768).unwrap();
    edf.set_digital_maximum(0, 32767).unwrap();
    let buf: Vec<i32> = (0..200).map(|k| k * 100 - 10000).collect();
    for _ in 0..600 {
        edf.write_samples(&whole(&buf)).unwrap();
    }
    let bytes = edf.finish().unwrap();
    assert_eq!(edf.state, SessionState::Finalized);
    let mut rd = EdfReader::open_read(bytes).unwrap();
    assert_eq!(rd.records, 600);
    assert_eq!(rd.records * rd.spr[0] as u64, 120000);
    assert_eq!(rd.record_count_warning(), None);
    let first = rd.read_samples(0, 200).unwrap();
    assert_eq!(first.len(), 200);
}

#[test]
fn file_length_matches_layout() {
    let mut edf = open("x.edf", 2);
    edf.set_samplefrequency(0, 10).unwrap();
    edf.set_samplefrequency(1, 3).unwrap();
    for _ in 0..4 {
        edf.write_samples(&whole(&[0; 10])).unwrap();
        edf.write_samples(&whole(&[0; 3])).unwrap();
    }
    let bytes = edf.finish().unwrap();
    // two ordinary signals and one annotation signal of 57 samples
    let record = (10 + 3 + 57) * 2;
    assert_eq!(bytes.len(), 256 + 256 * 3 + 4 * record);
}

#[test]
fn samples_round_trip_16_bit() {
    round_trip("rt.edf", 2);
}

#[test]
fn samples_round_trip_24_bit() {
    round_trip("rt.bdf", 3);
}

fn round_trip(path: &str, width: usize) {
    let mut edf = open(path, 2);
    assert_eq!(edf.filetype.width(), width);
    edf.set_samplefrequency(0, 5).unwrap();
    edf.set_samplefrequency(1, 2).unwrap();
    edf.set_digital_minimum(1, -1000).unwrap();
    edf.set_digital_maximum(1, 1000).unwrap();
    edf.set_physical_minimum(1, -10).unwrap();
    edf.set_physical_maximum(1, 10).unwrap();
    edf.set_annot_chan_idx_pos(AnnotationPosition::Middle).unwrap();
    let mut written0 = Vec::new();
    let mut written1 = Vec::new();
    for r in 0..3 {
        let a: Vec<i32> = (0..5).map(|k| r * 1000 - k * 7 - 3).collect();
        let b: Vec<Physical> = (0..2).map(|k| Physical { num: (r * 2 + k) as i64 - 3, den: 2 }).collect();
        written0.extend(a.iter().copied());
        written1.extend(b.iter().copied());
        edf.write_samples(&whole(&a)).unwrap();
        edf.write_samples(&b).unwrap();
    }
    let bytes = edf.finish().unwrap();
    let mut rd = EdfReader::open_read(bytes).unwrap();
    assert_eq!(rd.signals.len(), 3);
    assert!(rd.signals[1].is_annotation);
    let back0 = rd.read_samples(0, 100).unwrap();
    let s0 = Scaling::new(rd.signals[0].dig_min, rd.signals[0].dig_max, rd.signals[0].phys_min, rd.signals[0].phys_max).unwrap();
    let codes0: Vec<i32> = back0.iter().map(|p| s0.to_digital(*p).unwrap()).collect();
    assert_eq!(codes0, written0);
    let back2 = rd.read_samples(2, 100).unwrap();
    let s2 = Scaling::new(-1000, 1000, -10, 10).unwrap();
    let codes2: Vec<i32> = back2.iter().map(|p| s2.to_digital(*p).unwrap()).collect();
    let expected2: Vec<i32> = written1.iter().map(|p| s2.to_digital(*p).unwrap()).collect();
    assert_eq!(codes2, expected2);
    assert_eq!(expected2, vec![-150, -100, -50, 0, 50, 100]);
    assert_eq!(rd.read_samples(1, 1), Err(EdfError::InvalidSignalIndex));
}

#[test]
fn annotations_read_back_in_order() {
    let mut edf = open("annot.edf", 1);
    edf.set_samplefrequency(0, 4).unwrap();
    for _ in 0..4 {
        edf.write_samples(&whole(&[1, 2, 3, 4])).unwrap();
    }
    edf.write_annotation(0, -1, "Recording starts".to_string()).unwrap();
    edf.write_annotation(2_980_000, -1, "Test 1".to_string()).unwrap();
    let rd = EdfReader::open_read(edf.finish().unwrap()).unwrap();
    let all = rd.annotations();
    assert_eq!(
        all,
        vec![
            Annotation { onset: 0, duration: None, description: b"Recording starts".to_vec() },
            Annotation { onset: 2_980_000, duration: None, description: b"Test 1".to_vec() },
        ]
    );
    assert_eq!(rd.get_annotation(1).unwrap().description, b"Test 1".to_vec());
    assert_eq!(rd.get_annotation(2), None);
}

#[test]
fn annotations_spread_over_records() {
    let mut edf = open("many.edf", 1);
    for _ in 0..3 {
        edf.write_samples(&whole(&[7])).unwrap();
    }
    for k in 0..5 {
        edf.write_annotation(k * 10_000_000, 5_000_000, format!("event number {}", k)).unwrap();
    }
    let rd = EdfReader::open_read(edf.finish().unwrap()).unwrap();
    let all = rd.annotations();
    assert_eq!(all.len(), 5);
    for (k, a) in all.iter().enumerate() {
        assert_eq!(a.onset, k as i64 * 10_000_000);
        assert_eq!(a.duration, Some(5_000_000));
        assert_eq!(a.description, format!("event number {}", k).into_bytes());
    }
}

#[test]
fn too_many_annotations_overflow_at_finish() {
    let mut edf = open("full.edf", 1);
    edf.write_samples(&whole(&[7])).unwrap();
    for k in 0..10 {
        edf.write_annotation(k, -1, "a fairly long annotation text".to_string()).unwrap();
    }
    assert_eq!(edf.finish(), Err(EdfError::AnnotationOverflow));
    assert_eq!(edf.state, SessionState::OpenForWrite);
}

#[test]
fn degenerate_digital_range_rejected_at_configuration() {
    let mut edf = open("d.edf", 1);
    edf.set_digital_minimum(0, 100).unwrap();
    assert_eq!(edf.set_digital_maximum(0, 100), Err(EdfError::ScalingDegenerate));
    assert_eq!(edf.set_digital_maximum(0, 99), Err(EdfError::InvalidRange));
    assert_eq!(edf.set_digital_maximum(0, 40000), Err(EdfError::InvalidRange));
    assert_eq!(edf.signals[0].dig_max, 32767);
}

#[test]
fn reading_past_the_end_gives_fewer_samples() {
    let mut edf = open("end.edf", 1);
    edf.set_samplefrequency(0, 10).unwrap();
    for _ in 0..2 {
        edf.write_samples(&whole(&[5; 10])).unwrap();
    }
    let mut rd = EdfReader::open_read(edf.finish().unwrap()).unwrap();
    assert_eq!(rd.read_samples(0, 15).unwrap().len(), 15);
    assert_eq!(rd.read_samples(0, 15).unwrap().len(), 5);
    assert_eq!(rd.read_samples(0, 15).unwrap().len(), 0);
}

#[test]
fn time_seek_matches_sequential_reading() {
    let mut edf = open("seek.edf", 1);
    edf.set_samplefrequency(0, 8).unwrap();
    for r in 0..5 {
        let buf: Vec<i32> = (0..8).map(|k| r * 8 + k).collect();
        edf.write_samples(&whole(&buf)).unwrap();
    }
    let bytes = edf.finish().unwrap();
    let mut seq = EdfReader::open_read(bytes.clone()).unwrap();
    let all = seq.read_samples(0, 40).unwrap();
    let mut rd = EdfReader::open_read(bytes).unwrap();
    // 2.3 s at 8 samples per second: sample 18
    assert_eq!(rd.seek_time(0, 23_000_000), Ok(18));
    let from = rd.read_samples(0, 22).unwrap();
    assert_eq!(from, all[18..].to_vec());
    assert_eq!(rd.seek_time(0, 50_000_000), Err(EdfError::SeekOutOfRange));
    assert_eq!(rd.seek_time(0, -1), Err(EdfError::SeekOutOfRange));
    assert_eq!(rd.seek(0, -3, Whence::End), Ok(37));
    assert_eq!(rd.seek(0, 2, Whence::Current), Ok(39));
    assert_eq!(rd.seek(0, 1, Whence::Current), Err(EdfError::SeekOutOfRange));
    assert_eq!(rd.seek(0, 0, Whence::Start), Ok(0));
}

#[test]
fn configuration_errors() {
    let mut closed = Edf::new("c.edf".to_string());
    assert_eq!(closed.set_samplefrequency(0, 10), Err(EdfError::SessionNotOpen));
    assert_eq!(closed.finish(), Err(EdfError::SessionNotOpen));
    assert_eq!(closed.write_annotation(0, -1, "a".to_string()), Err(EdfError::SessionNotOpen));
    let mut bad = Edf::new("c.edf".to_string());
    bad.number_of_signals = 0;
    assert_eq!(bad.open_file_writeonly(), Err(EdfError::InvalidRange));
    let mut edf = open("c.edf", 2);
    assert_eq!(edf.open_file_writeonly(), Err(EdfError::AlreadyOpen));
    assert_eq!(edf.set_label(2, "x".to_string()), Err(EdfError::InvalidSignalIndex));
    assert_eq!(edf.set_label(-1, "x".to_string()), Err(EdfError::InvalidSignalIndex));
    assert_eq!(edf.set_samplefrequency(0, 0), Err(EdfError::InvalidRange));
    assert_eq!(edf.set_physical_maximum(0, -40000), Err(EdfError::InvalidRange));
    assert_eq!(edf.set_number_of_annotation_signals(0), Err(EdfError::InvalidRange));
    assert_eq!(edf.set_number_of_annotation_signals(65), Err(EdfError::InvalidRange));
    edf.set_number_of_annotation_signals(2).unwrap();
    edf.set_label(0, "EEG".to_string()).unwrap();
    edf.set_transducer(0, "AgAgCl".to_string()).unwrap();
    edf.set_prefilter(0, "HP:0.1Hz".to_string()).unwrap();
    edf.set_physical_dimension(0, "uV".to_string()).unwrap();
    edf.set_equipment("amp".to_string()).unwrap();
    assert_eq!(edf.signals[0].label, b"EEG".to_vec());
    assert_eq!(edf.write_samples(&whole(&[1, 2])), Err(EdfError::SampleCountMismatch));
    edf.write_samples(&whole(&[1])).unwrap();
    assert_eq!(edf.set_label(0, "late".to_string()), Err(EdfError::HeaderAlreadyFinalized));
    assert_eq!(edf.set_equipment("late".to_string()), Err(EdfError::HeaderAlreadyFinalized));
    assert_eq!(edf.finish(), Err(EdfError::SampleCountMismatch));
    assert_eq!(edf.write_samples(&whole(&[40000])), Err(EdfError::OutOfRange));
    assert_eq!(edf.write_samples(&vec![Physical { num: 1, den: 0 }]), Err(EdfError::InvalidRange));
    assert_eq!(edf.write_annotation(0, -1, "bad\u{7}".to_string()), Err(EdfError::ForbiddenControlByte));
    assert_eq!(edf.write_annotation(0, -1, "y".repeat(120)), Err(EdfError::AnnotationOverflow));
    edf.write_samples(&whole(&[2])).unwrap();
    let bytes = edf.finish().unwrap();
    assert_eq!(bytes.len(), 256 + 256 * 4 + 1 * (2 + 2 + 57 * 2 * 2));
    assert_eq!(&bytes[88..104], b"Startdate X X X ");
    assert_eq!(&bytes[104..107], b"amp");
}

#[test]
fn malformed_and_inconsistent_files() {
    assert_eq!(EdfReader::open_read(vec![b'0'; 100]).err(), Some(EdfError::MalformedHeader(0)));
    let mut edf = open("m.edf", 1);
    edf.write_samples(&whole(&[3])).unwrap();
    let bytes = edf.finish().unwrap();
    let mut broken = bytes.clone();
    broken[0] = b'1';
    assert_eq!(EdfReader::open_read(broken).err(), Some(EdfError::MalformedHeader(0)));
    let mut bad_count = bytes.clone();
    bad_count[252] = b'x';
    assert_eq!(EdfReader::open_read(bad_count).err(), Some(EdfError::MalformedHeader(252)));
    // one ordinary and one annotation signal: samples per record of signal 0 at 256 + 216 * 2
    let mut bad_spr = bytes.clone();
    bad_spr[688] = b'x';
    assert_eq!(EdfReader::open_read(bad_spr).err(), Some(EdfError::MalformedHeader(688)));
    let mut bad_range = bytes.clone();
    bad_range[496..504].copy_from_slice(b"40000   ");
    assert_eq!(EdfReader::open_read(bad_range).err(), Some(EdfError::MalformedHeader(496)));
    let mut bad_duration = bytes.clone();
    bad_duration[244..252].copy_from_slice(b"0       ");
    assert_eq!(EdfReader::open_read(bad_duration).err(), Some(EdfError::MalformedHeader(244)));
    let mut lying = bytes.clone();
    lying[236] = b'7';
    let rd = EdfReader::open_read(lying).unwrap();
    assert_eq!(rd.records, 1);
    assert_eq!(rd.declared_records, 7);
    assert_eq!(rd.record_count_warning(), Some(EdfError::InconsistentRecordCount));
}

#[test]
fn annotation_position_numbers() {
    assert_eq!(AnnotationPosition::End.to_raw(), 0);
    assert_eq!(AnnotationPosition::Middle.to_raw(), 1);
    assert_eq!(AnnotationPosition::Start.to_raw(), 2);
}

#[test]
fn whole_records_and_their_errors() {
    let mut edf = open("rec.edf", 2);
    edf.set_samplefrequency(0, 2).unwrap();
    edf.set_samplefrequency(1, 1).unwrap();
    let good = vec![whole(&[1, 2]), whole(&[3])];
    edf.write_record(&good).unwrap();
    assert_eq!(edf.records.len(), 1);
    assert_eq!(edf.records[0], vec![vec![1, 2], vec![3]]);
    assert_eq!(edf.write_record(&vec![whole(&[1, 2])]), Err(EdfError::SampleCountMismatch));
    assert_eq!(edf.write_record(&vec![whole(&[1]), whole(&[3])]), Err(EdfError::SampleCountMismatch));
    assert_eq!(
        edf.write_record(&vec![whole(&[1, 2]), vec![Physical { num: 1, den: -1 }]]),
        Err(EdfError::InvalidRange)
    );
    assert_eq!(edf.write_record(&vec![whole(&[1, 40000]), whole(&[3])]), Err(EdfError::OutOfRange));
    assert_eq!(edf.records.len(), 1);
    edf.write_samples(&whole(&[5, 6])).unwrap();
    assert_eq!(edf.write_record(&good), Err(EdfError::SampleCountMismatch));
    edf.write_samples(&whole(&[7])).unwrap();
    edf.write_record(&good).unwrap();
    let mut rd = EdfReader::open_read(edf.finish().unwrap()).unwrap();
    let back = rd.read_samples(0, 10).unwrap();
    let codes: Vec<i64> = back.iter().map(|p| p.num / p.den).collect();
    assert_eq!(codes, vec![1, 2, 5, 6, 1, 2]);
}

#[test]
fn only_the_first_annotation_may_start_before_the_recording() {
    let mut edf = open("neg.edf", 1);
    edf.write_annotation(-5_000_000, -1, "Recording starts".to_string()).unwrap();
    assert_eq!(edf.write_annotation(-1, -1, "later".to_string()), Err(EdfError::InvalidRange));
    edf.write_annotation(0, -1, "later".to_string()).unwrap();
    assert_eq!(edf.annotations.len(), 2);
}

#[test]
fn annotation_label_is_reserved() {
    let mut edf = open("lab.edf", 1);
    assert_eq!(edf.set_label(0, "EDF Annotations".to_string()), Err(EdfError::InvalidRange));
    assert_eq!(edf.set_label(0, "EDF Annotations extra".to_string()), Err(EdfError::InvalidRange));
    edf.set_label(0, "BDF Annotations".to_string()).unwrap();
    let mut bdf = open("lab.bdf", 1);
    assert_eq!(bdf.set_label(0, "BDF Annotations".to_string()), Err(EdfError::InvalidRange));
}

#[test]
fn annotation_must_leave_room_for_the_time_stamp() {
    let mut edf = open("room.edf", 1);
    // "+0" 0x14, text, 0x14 0x00: five bytes around the text
    assert_eq!(edf.write_annotation(0, -1, "y".repeat(98)), Err(EdfError::AnnotationOverflow));
    edf.write_annotation(0, -1, "y".repeat(97)).unwrap();
    edf.write_samples(&whole(&[1])).unwrap();
    let rd = EdfReader::open_read(edf.finish().unwrap()).unwrap();
    assert_eq!(rd.annotations()[0].description, "y".repeat(97).into_bytes());
}

#[test]
fn half_scale_value_reads_back_within_one_step() {
    let mut edf = open("half.edf", 1);
    edf.set_digital_minimum(0, -32768).unwrap();
    edf.set_digital_maximum(0, 32767).unwrap();
    edf.set_physical_minimum(0, -1000).unwrap();
    edf.set_physical_maximum(0, 1000).unwrap();
    edf.write_samples(&whole(&[500])).unwrap();
    let mut rd = EdfReader::open_read(edf.finish().unwrap()).unwrap();
    let v = rd.read_samples(0, 1).unwrap()[0];
    let diff = (v.num - 500 * v.den).abs();
    assert!(diff * 65535 <= 2000 * v.den);
}
