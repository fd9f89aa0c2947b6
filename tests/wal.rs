use localwal::{
    Block, segment_file_name, Error, LocalFileWALImpl, LocalWAL, Options, WALManager, WritableLogFile,
};

fn payload(i: usize, len: usize) -> Vec<u8> {
    (0..len).map(|j| ((i * 31 + j) % 256) as u8).collect()
}

#[test]
fn sequence_numbers_are_consecutive() {
    let mut wal = LocalFileWALImpl::new("/tmp/wal");
    assert_eq!(wal.first_seq(), 1);
    assert_eq!(wal.last_seq(), 0);
    for i in 0..10u64 {
        assert_eq!(wal.write(&payload(i as usize, 10)).unwrap(), i + 1);
    }
    assert_eq!(wal.first_seq(), 1);
    assert_eq!(wal.last_seq(), 10);
    for i in 1..=10u64 {
        assert_eq!(wal.read(i).unwrap(), payload(i as usize - 1, 10));
    }
    assert!(matches!(wal.read(0), Err(Error::SequenceNotFound)));
    assert!(matches!(wal.read(11), Err(Error::SequenceNotFound)));
}

#[test]
fn one_megabyte_segments_rotate() {
    let opts = Options::new(false, 1);
    let mut wal = LocalFileWALImpl::with_options("/tmp/wal", opts).unwrap();
    let first = payload(0, 1000);
    for i in 0..2000 {
        wal.write(&payload(i, 1000)).unwrap();
    }
    assert!(wal.segments().len() >= 2);
    assert_eq!(wal.last_seq(), 2000);
    assert_eq!(wal.read(1).unwrap(), first);
    assert_eq!(wal.read(2000).unwrap(), payload(1999, 1000));
}

#[test]
fn rotation_gives_next_segment_number() {
    let mut wal = LocalFileWALImpl::with_options("/tmp/wal", Options::new(true, 1)).unwrap();
    let big = payload(0, 600 * 1024);
    wal.write(&big).unwrap();
    assert_eq!(wal.segments().len(), 1);
    wal.write(&big).unwrap();
    let segs = wal.segments();
    assert_eq!(segs.len(), 2);
    assert_eq!(segs[0].number, 0);
    assert_eq!(segs[1].number, 1);
    assert!(segs[0].data.len() >= 1024 * 1024);
    assert!(segs[1].data.is_empty());
    assert_eq!(segs[1].full_path, b"/tmp/wal/0000000001".to_vec());
    assert_eq!(wal.read(2).unwrap(), big);
}

#[test]
fn large_payload_round_trip() {
    let mut wal = LocalFileWALImpl::new("/tmp/wal");
    let p = payload(7, 100000);
    let seq = wal.write(&p).unwrap();
    let back = wal.read(seq).unwrap();
    assert_eq!(back.len(), 100000);
    assert_eq!(back, p);
}

#[test]
fn truncation_hides_old_records() {
    let mut wal = LocalFileWALImpl::with_options("/tmp/wal", Options::new(false, 1)).unwrap();
    for i in 0..3000 {
        wal.write(&payload(i, 1000)).unwrap();
    }
    let before = wal.segments().len();
    wal.truncate(1500);
    assert_eq!(wal.first_seq(), 1501);
    assert_eq!(wal.last_seq(), 3000);
    assert!(wal.segments().len() < before);
    for s in [1u64, 1000, 1500] {
        assert!(matches!(wal.read(s), Err(Error::SequenceNotFound)));
    }
    for s in [1501u64, 2000, 3000] {
        assert_eq!(wal.read(s).unwrap(), payload(s as usize - 1, 1000));
    }
    assert_eq!(wal.write(b"next").unwrap(), 3001);
}

#[test]
fn truncation_beyond_the_end_empties_the_log() {
    let mut wal = LocalFileWALImpl::new("/tmp/wal");
    for i in 0..5 {
        wal.write(&payload(i, 3)).unwrap();
    }
    wal.truncate(2);
    assert_eq!(wal.first_seq(), 3);
    wal.truncate(1);
    assert_eq!(wal.first_seq(), 3);
    wal.truncate(100);
    assert_eq!(wal.first_seq(), 6);
    assert_eq!(wal.last_seq(), 5);
    assert!(matches!(wal.read(5), Err(Error::SequenceNotFound)));
    assert_eq!(wal.write(b"again").unwrap(), 6);
    assert_eq!(wal.read(6).unwrap(), b"again".to_vec());
}

#[test]
fn invalid_segment_size_is_refused() {
    assert!(matches!(
        LocalFileWALImpl::with_options("/tmp/wal", Options::new(false, 0)),
        Err(Error::InvalidArgs(_))
    ));
    assert!(LocalFileWALImpl::with_options("/tmp/wal", Options::new(false, -3)).is_err());
}

#[test]
fn default_options() {
    let o = Options::default();
    assert!(!o.no_sync);
    assert_eq!(o.segment_size, 50);
}

#[test]
fn segment_names_are_zero_padded() {
    assert_eq!(segment_file_name(42), b"0000000042".to_vec());
    assert_eq!(segment_file_name(0), b"0000000000".to_vec());
    assert_eq!(segment_file_name(9_999_999_999), b"9999999999".to_vec());
}

#[test]
fn manager_hands_out_each_number_once() {
    let mut m = WALManager::new(b"/var/wal".to_vec(), 7);
    assert_eq!(m.gen_next_full_path(), b"/var/wal/0000000007".to_vec());
    assert_eq!(m.gen_next_full_path(), b"/var/wal/0000000008".to_vec());
    assert_eq!(m.log_num, 9);
}

#[test]
fn manager_does_not_double_the_separator() {
    let mut m = WALManager::new(b"/".to_vec(), 3);
    assert_eq!(m.gen_next_full_path(), b"/0000000003".to_vec());
    let mut e = WALManager::new(Vec::new(), 4);
    assert_eq!(e.gen_next_full_path(), b"0000000004".to_vec());
}

#[test]
fn write_appends_the_frame_to_the_newest_segment() {
    let mut wal = LocalFileWALImpl::new("/tmp/wal");
    let mut expected = Vec::new();
    for i in 0..40 {
        let p = payload(i, 1500 + i * 17);
        Block::write_payload(&mut expected, &p);
        wal.write(&p).unwrap();
        assert_eq!(wal.segments().len(), 1);
        assert_eq!(wal.segments()[0].data, expected);
    }
    assert_eq!(wal.write(b"").unwrap(), 41);
    assert_eq!(wal.read(41).unwrap(), Vec::<u8>::new());
}

#[test]
fn manager_refuses_a_non_directory() {
    let mut m = WALManager::new(b"/a".to_vec(), 0);
    match m.with_wal_dir(b"/b".to_vec(), false) {
        Err(Error::InvalidArgs(msg)) => {
            assert_eq!(msg, "WAL dir path(/b) exists, but it is not a directory")
        }
        _ => panic!("expected InvalidArgs"),
    }
    assert_eq!(m.wal_dir, b"/a".to_vec());
    assert!(m.with_wal_dir(b"/c".to_vec(), true).is_ok());
    assert_eq!(m.wal_dir, b"/c".to_vec());
}

#[test]
fn directory_setup() {
    let mut wal = LocalFileWALImpl::new("/tmp/wal");
    assert!(!wal.check_exist());
    assert!(matches!(wal.create_dir(false), Err(Error::InvalidArgs(_))));
    assert!(!wal.check_exist());
    assert!(wal.create_dir(true).is_ok());
    assert!(wal.check_exist());
    assert!(wal.close().is_ok());
}

fn reopen(wal: &LocalFileWALImpl, first: u64, edit: impl Fn(usize, &mut Vec<u8>)) -> LocalFileWALImpl {
    let files: Vec<WritableLogFile> = wal
        .files_to_write()
        .into_iter()
        .enumerate()
        .map(|(i, f)| {
            let mut bytes = f.bytes;
            edit(i, &mut bytes);
            WritableLogFile::open(f.full_path, i as u64, bytes).unwrap()
        })
        .collect();
    let mut back = LocalFileWALImpl::new("/tmp/wal");
    back.open(first, files).unwrap();
    back
}

#[test]
fn recovery_reads_every_record() {
    let mut wal = LocalFileWALImpl::with_options("/tmp/wal", Options::new(false, 1)).unwrap();
    for i in 0..1500 {
        wal.write(&payload(i, 1000)).unwrap();
    }
    let files = wal.files_to_write();
    assert!(files.len() >= 2);
    assert!(files.iter().all(|f| f.sync));
    let back = reopen(&wal, 1, |_, _| {});
    assert_eq!(back.first_seq(), 1);
    assert_eq!(back.last_seq(), 1500);
    assert_eq!(back.read(1).unwrap(), payload(0, 1000));
    assert_eq!(back.read(1500).unwrap(), payload(1499, 1000));
}

#[test]
fn recovery_stops_at_corruption() {
    let mut wal = LocalFileWALImpl::new("/tmp/wal");
    for i in 0..4 {
        wal.write(&payload(i, 20)).unwrap();
    }
    let record = 7 + 20;
    let mut back = reopen(&wal, 1, |_, bytes| bytes[2 * record + 10] ^= 0x10);
    assert_eq!(back.last_seq(), 2);
    assert_eq!(back.read(2).unwrap(), payload(1, 20));
    assert!(matches!(back.read(3), Err(Error::SequenceNotFound)));
    assert_eq!(back.segments()[0].data.len(), 2 * record);
    assert_eq!(back.write(b"after").unwrap(), 3);
    assert_eq!(back.read(3).unwrap(), b"after".to_vec());
}

#[test]
fn recovery_refuses_bad_arguments() {
    let mut wal = LocalFileWALImpl::new("/tmp/wal");
    let f0 = WritableLogFile::open(b"/tmp/wal/0000000003".to_vec(), 3, Vec::new()).unwrap();
    let f1 = WritableLogFile::open(b"/tmp/wal/0000000005".to_vec(), 5, Vec::new()).unwrap();
    assert!(matches!(wal.open(1, vec![f0, f1]), Err(Error::InvalidArgs(_))));
    let f2 = WritableLogFile::create(b"/tmp/wal/0000000003".to_vec(), 3).unwrap();
    assert!(matches!(wal.open(0, vec![f2]), Err(Error::InvalidArgs(_))));
}
