use df2::{ByteSource, Error, Segment};

fn push_word(out: &mut Vec<u8>, word: u16) {
    out.extend_from_slice(&word.to_le_bytes());
}

fn segment_bytes(data: &[u16], time_interval: u16, reserved: u16) -> Vec<u8> {
    let mut out = Vec::new();
    push_word(&mut out, data.len() as u16);
    for &sample in data {
        push_word(&mut out, sample);
    }
    push_word(&mut out, time_interval);
    push_word(&mut out, reserved);
    out
}

/// A segment that takes 110 bytes: 52 samples between the sample count and
/// the two trailing words.
fn one_segment() -> Vec<u8> {
    let data: Vec<u16> = (0..52).map(|i| 1000 + 7 * i).collect();
    segment_bytes(&data, 16, 0)
}

#[test]
fn segment_len() {
    let mut source = ByteSource::new(one_segment());
    let segment = Segment::from_read(&mut source).unwrap();
    assert_eq!(110, segment.len());
}

#[test]
fn segment_blob_of_110_bytes() {
    let bytes = one_segment();
    assert_eq!(110, bytes.len());
    let mut source = ByteSource::new(bytes);
    let segment = Segment::from_read(&mut source).unwrap();
    assert_eq!(52, segment.data.len());
    assert_eq!(1000, segment.data[0]);
    assert_eq!(1357, segment.data[51]);
    assert_eq!(16, segment.time_interval);
    assert_eq!(110, segment.len());
    assert_eq!(110, source.tell());
}

#[test]
fn segment_of_fifty_samples() {
    let data: Vec<u16> = (0..50).collect();
    let bytes = segment_bytes(&data, 16, 0);
    assert_eq!(106, bytes.len());
    let mut source = ByteSource::new(bytes);
    let segment = Segment::from_read(&mut source).unwrap();
    assert_eq!(50, segment.data.len());
    assert_eq!(106, segment.len());
    assert_eq!(106, source.tell());
}

#[test]
fn segment_is_empty() {
    let segment = Segment { data: Vec::new(), time_interval: 0 };
    assert!(segment.is_empty());
    assert_eq!(6, segment.len());
    let mut source = ByteSource::new(one_segment());
    let segment = Segment::from_read(&mut source).unwrap();
    assert!(!segment.is_empty());
}

#[test]
fn segment_round_trip() {
    let data = vec![0u16, 1, 255, 256, 0x1234, 0xfffe, 0xffff];
    let mut source = ByteSource::new(segment_bytes(&data, 0xabcd, 0x5a5a));
    let segment = Segment::from_read(&mut source).unwrap();
    assert_eq!(Segment { data, time_interval: 0xabcd }, segment);
    assert_eq!(20, segment.len());
    assert_eq!(20, source.tell());
}

#[test]
fn segment_reserved_word_is_dropped() {
    let data = vec![3u16, 4];
    let mut a = ByteSource::new(segment_bytes(&data, 9, 0));
    let mut b = ByteSource::new(segment_bytes(&data, 9, 0xffff));
    assert_eq!(Segment::from_read(&mut a).unwrap(), Segment::from_read(&mut b).unwrap());
}

#[test]
fn segment_without_samples() {
    let mut source = ByteSource::new(segment_bytes(&[], 5, 0));
    let segment = Segment::from_read(&mut source).unwrap();
    assert!(segment.is_empty());
    assert_eq!(5, segment.time_interval);
    assert_eq!(6, segment.len());
    assert_eq!(6, source.tell());
}

#[test]
fn segment_stops_where_it_ends() {
    let mut bytes = segment_bytes(&[1, 2, 3], 4, 0);
    bytes.extend_from_slice(&segment_bytes(&[9], 8, 0));
    let mut source = ByteSource::new(bytes);
    let first = Segment::from_read(&mut source).unwrap();
    assert_eq!(vec![1, 2, 3], first.data);
    assert_eq!(12, source.tell());
    let second = Segment::from_read(&mut source).unwrap();
    assert_eq!(vec![9], second.data);
    assert_eq!(8, second.time_interval);
    assert_eq!(20, source.tell());
}

#[test]
fn segment_of_many_samples() {
    let data: Vec<u16> = (0..40000u32).map(|i| (i % 65536) as u16).collect();
    let mut source = ByteSource::new(segment_bytes(&data, 1, 0));
    let segment = Segment::from_read(&mut source).unwrap();
    assert_eq!(40000, segment.data.len());
    assert_eq!(80006, segment.len());
    assert_eq!(39999, segment.data[39999]);
}

#[test]
fn segment_of_the_most_samples() {
    let data: Vec<u16> = vec![7; 65535];
    let mut source = ByteSource::new(segment_bytes(&data, 1, 0));
    let segment = Segment::from_read(&mut source).unwrap();
    assert_eq!(131076, segment.len());
    assert_eq!(131076, source.tell());
}

#[test]
fn segment_from_nothing_fails() {
    let mut source = ByteSource::new(Vec::new());
    assert!(matches!(Segment::from_read(&mut source), Err(Error::Io(_))));
}

#[test]
fn segment_cut_in_the_count_fails() {
    let mut source = ByteSource::new(vec![3]);
    assert!(matches!(Segment::from_read(&mut source), Err(Error::Io(_))));
    assert_eq!(1, source.tell());
}

#[test]
fn segment_cut_in_the_samples_fails() {
    let mut bytes = segment_bytes(&[1, 2, 3], 4, 0);
    bytes.truncate(5);
    let mut source = ByteSource::new(bytes);
    assert!(matches!(Segment::from_read(&mut source), Err(Error::Io(_))));
    assert_eq!(5, source.tell());
}

#[test]
fn segment_cut_in_the_time_interval_fails() {
    let mut bytes = segment_bytes(&[1, 2, 3], 4, 0);
    bytes.truncate(9);
    let mut source = ByteSource::new(bytes);
    assert!(matches!(Segment::from_read(&mut source), Err(Error::Io(_))));
}

#[test]
fn segment_cut_in_the_reserved_word_fails() {
    let mut bytes = segment_bytes(&[1, 2, 3], 4, 0);
    bytes.truncate(11);
    let mut source = ByteSource::new(bytes);
    assert!(matches!(Segment::from_read(&mut source), Err(Error::Io(_))));
    let mut bytes = segment_bytes(&[1, 2, 3], 4, 0);
    bytes.truncate(10);
    let mut source = ByteSource::new(bytes);
    assert!(matches!(Segment::from_read(&mut source), Err(Error::Io(_))));
}

#[test]
fn segment_failure_is_an_unexpected_end() {
    let mut source = ByteSource::new(vec![1, 0, 2]);
    match Segment::from_read(&mut source) {
        Err(Error::Io(err)) => assert_eq!(std::io::ErrorKind::UnexpectedEof, err.kind()),
        other => panic!("{:?}", other),
    }
}

#[test]
fn source_reads_little_endian() {
    let mut source = ByteSource::new(vec![0x34, 0x12, 0xff, 0x00, 0x00, 0x80]);
    assert_eq!(6, source.len());
    assert_eq!(0, source.tell());
    assert_eq!(0x1234, source.read_u16().unwrap());
    assert_eq!(2, source.tell());
    assert_eq!(0x00ff, source.read_u16().unwrap());
    assert_eq!(0x8000, source.read_u16().unwrap());
    assert_eq!(6, source.tell());
    assert!(source.read_u16().is_err());
    assert_eq!(6, source.tell());
}

#[test]
fn source_failed_read_goes_to_the_end() {
    let mut source = ByteSource::new(vec![1, 2, 3]);
    assert_eq!(0x0201, source.read_u16().unwrap());
    assert!(source.read_u16().is_err());
    assert_eq!(3, source.tell());
}

#[test]
fn source_seeks_inside_only() {
    let mut source = ByteSource::new(vec![1, 2, 3, 4]);
    assert!(source.seek_to(2));
    assert_eq!(0x0403, source.read_u16().unwrap());
    assert!(source.seek_to(4));
    assert_eq!(4, source.tell());
    assert!(!source.seek_to(5));
    assert_eq!(4, source.tell());
    assert!(source.seek_to(0));
    assert_eq!(0x0201, source.read_u16().unwrap());
}

#[test]
fn error_from_io_error() {
    let err = Error::from(std::io::Error::from(std::io::ErrorKind::NotFound));
    match err {
        Error::Io(inner) => assert_eq!(std::io::ErrorKind::NotFound, inner.kind()),
        other => panic!("{:?}", other),
    }
}
