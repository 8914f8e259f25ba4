use tsdb::error::ErrorKind;
use tsdb::log::{FileLogReader, FileLogWriter, LogReader, LogWriter, BLOCK_SIZE_BYTES};

#[test]
fn invalid_record_size() {
    let mut log = FileLogWriter::create(4).unwrap();
    assert_eq!(ErrorKind::InvalidInput, log.append(&[0]).unwrap_err().kind());
}

#[test]
fn single_log_replay() {
    let file = {
        let mut writer = FileLogWriter::create(4).unwrap();
        writer.append(&[0, 1, 2, 3]).unwrap();
        writer.bytes().clone()
    };

    let mut reader = FileLogReader::create(file, 4).unwrap();
    let mut buf = [0; 4];
    assert_eq!(true, reader.next_record(&mut buf).unwrap());
    assert_eq!([0, 1, 2, 3], buf);
    assert_eq!(false, reader.next_record(&mut buf).unwrap());
}

#[test]
fn multiple_block_replay() {
    let records = 2 * ((BLOCK_SIZE_BYTES + 4) / 4);

    let file = {
        let mut writer = FileLogWriter::create(4).unwrap();
        for i in 0..records {
            let v = (i % 256) as u8;
            writer.append(&[v, v, v, v]).unwrap();
        }
        writer.bytes().clone()
    };

    let mut reader = FileLogReader::create(file, 4).unwrap();
    let mut buf = [0; 4];
    for i in 0..records {
        let v = (i % 256) as u8;
        assert_eq!(true, reader.next_record(&mut buf).unwrap());
        assert_eq!([v, v, v, v], buf);
    }
    assert_eq!(false, reader.next_record(&mut buf).unwrap());
}

#[test]
fn invalid_result_size() {
    let mut writer = FileLogWriter::create(4).unwrap();
    writer.append(&[0, 1, 2, 3]).unwrap();
    let file = writer.bytes().clone();

    let mut reader = FileLogReader::create(file, 4).unwrap();
    let mut small = [9u8; 3];
    assert_eq!(
        ErrorKind::InvalidInput,
        reader.next_record(&mut small).unwrap_err().kind()
    );
    assert_eq!([9, 9, 9], small);

    let mut buf = [0u8; 4];
    assert_eq!(true, reader.next_record(&mut buf).unwrap());
    assert_eq!([0, 1, 2, 3], buf);
}

#[test]
fn refused_append_writes_nothing() {
    let mut writer = FileLogWriter::create(3).unwrap();
    writer.append(&[1, 2, 3]).unwrap();
    assert!(writer.append(&[1, 2, 3, 4]).is_err());
    assert!(writer.append(&[]).is_err());
    assert_eq!(&vec![1u8, 2, 3], writer.bytes());
}

#[test]
fn record_sizes_that_no_block_holds_are_refused() {
    assert_eq!(
        ErrorKind::InvalidInput,
        FileLogWriter::create(0).err().unwrap().kind()
    );
    assert_eq!(
        ErrorKind::InvalidInput,
        FileLogWriter::create(BLOCK_SIZE_BYTES + 1).err().unwrap().kind()
    );
    assert!(FileLogWriter::create(BLOCK_SIZE_BYTES).is_ok());
    assert_eq!(
        ErrorKind::InvalidInput,
        FileLogReader::create(Vec::new(), 0).err().unwrap().kind()
    );
    assert_eq!(
        ErrorKind::InvalidInput,
        FileLogReader::create(Vec::new(), BLOCK_SIZE_BYTES + 1).err().unwrap().kind()
    );
}

#[test]
fn empty_file_has_no_record() {
    let mut reader = FileLogReader::create(Vec::new(), 16).unwrap();
    let mut buf = [5u8; 16];
    assert_eq!(false, reader.next_record(&mut buf).unwrap());
    assert_eq!([5u8; 16], buf);
    assert_eq!(false, reader.next_record(&mut buf).unwrap());
}

#[test]
fn blocks_are_padded_with_zeros() {
    // 10922 records of three bytes fill a block up to its last two bytes.
    let per_block = BLOCK_SIZE_BYTES / 3;
    assert_eq!(10922, per_block);

    let mut writer = FileLogWriter::create(3).unwrap();
    for i in 0..per_block {
        let v = (i % 251) as u8 + 1;
        writer.append(&[v, v, v]).unwrap();
    }
    assert_eq!(32766, writer.bytes().len());

    writer.append(&[0xaa, 0xbb, 0xcc]).unwrap();
    let file = writer.bytes().clone();
    assert_eq!(32768 + 3, file.len());
    assert_eq!([0, 0], file[32766..32768]);
    assert_eq!([0xaa, 0xbb, 0xcc], file[32768..]);
}

#[test]
fn reader_skips_the_padding() {
    let records = 3 * (BLOCK_SIZE_BYTES / 3) + 17;

    let mut writer = FileLogWriter::create(3).unwrap();
    for i in 0..records {
        writer.append(&[(i % 256) as u8, (i / 256 % 256) as u8, 1]).unwrap();
    }
    let file = writer.bytes().clone();
    assert_eq!(3 * 32768 + 17 * 3, file.len());

    let mut reader = FileLogReader::create(file.to_vec(), 3).unwrap();
    let mut buf = [0u8; 3];
    for i in 0..records {
        assert_eq!(true, reader.next_record(&mut buf).unwrap());
        assert_eq!([(i % 256) as u8, (i / 256 % 256) as u8, 1], buf);
    }
    assert_eq!(false, reader.next_record(&mut buf).unwrap());
    assert_eq!(false, reader.next_record(&mut buf).unwrap());
}

#[test]
fn whole_blocks_end_the_file_cleanly() {
    let records = 2 * (BLOCK_SIZE_BYTES / 16);

    let mut writer = FileLogWriter::create(16).unwrap();
    for i in 0..records {
        writer.append(&[(i % 256) as u8; 16]).unwrap();
    }
    let file = writer.bytes().clone();
    assert_eq!(2 * 32768, file.len());

    let mut reader = FileLogReader::create(file, 16).unwrap();
    let mut buf = [0u8; 16];
    for i in 0..records {
        assert_eq!(true, reader.next_record(&mut buf).unwrap());
        assert_eq!([(i % 256) as u8; 16], buf);
    }
    assert_eq!(false, reader.next_record(&mut buf).unwrap());
}

#[test]
fn a_cut_record_is_not_read() {
    let file = [1u8, 2, 3, 4, 5, 6, 7];
    let mut reader = FileLogReader::create(file.to_vec(), 3).unwrap();
    let mut buf = [0u8; 3];
    assert_eq!(true, reader.next_record(&mut buf).unwrap());
    assert_eq!([1, 2, 3], buf);
    assert_eq!(true, reader.next_record(&mut buf).unwrap());
    assert_eq!([4, 5, 6], buf);
    assert_eq!(false, reader.next_record(&mut buf).unwrap());
    assert_eq!([4, 5, 6], buf);

    let short = [1u8, 2];
    let mut reader = FileLogReader::create(short.to_vec(), 3).unwrap();
    assert_eq!(false, reader.next_record(&mut buf).unwrap());
}

#[test]
fn a_record_may_fill_a_block() {
    let mut writer = FileLogWriter::create(BLOCK_SIZE_BYTES).unwrap();
    writer.append(&vec![1u8; BLOCK_SIZE_BYTES]).unwrap();
    writer.append(&vec![2u8; BLOCK_SIZE_BYTES]).unwrap();
    let file = writer.bytes().clone();
    assert_eq!(2 * BLOCK_SIZE_BYTES, file.len());

    let mut reader = FileLogReader::create(file, BLOCK_SIZE_BYTES).unwrap();
    let mut buf = vec![0u8; BLOCK_SIZE_BYTES];
    assert_eq!(true, reader.next_record(&mut buf).unwrap());
    assert_eq!(vec![1u8; BLOCK_SIZE_BYTES], buf);
    assert_eq!(true, reader.next_record(&mut buf).unwrap());
    assert_eq!(vec![2u8; BLOCK_SIZE_BYTES], buf);
    assert_eq!(false, reader.next_record(&mut buf).unwrap());
}

#[test]
fn framed_is_what_append_adds() {
    let mut writer = FileLogWriter::create(5).unwrap();
    assert_eq!(
        ErrorKind::InvalidInput,
        writer.framed(&[1, 2, 3]).unwrap_err().kind()
    );
    for i in 0..(BLOCK_SIZE_BYTES / 5) {
        let record = [(i % 256) as u8; 5];
        assert_eq!(record.to_vec(), writer.framed(&record).unwrap());
        writer.append(&record).unwrap();
    }
    assert_eq!(32765, writer.bytes().len());
    assert_eq!(vec![0, 0, 0, 9, 9, 9, 9, 9], writer.framed(&[9; 5]).unwrap());
    writer.append(&[9; 5]).unwrap();
    assert_eq!(32768 + 5, writer.bytes().len());
    assert_eq!(vec![8u8; 5], writer.framed(&[8; 5]).unwrap());
}

#[test]
fn a_failed_write_leaves_the_writer_alone() {
    let mut writer = FileLogWriter::create(2).unwrap();
    writer.append(&[1, 2]).unwrap();

    let failed: Result<(), &str> = Err("disk full");
    assert_eq!(Err("disk full"), writer.append_written(&[3, 4], failed));
    assert_eq!(&vec![1u8, 2], writer.bytes());

    let written: Result<(), &str> = Ok(());
    assert_eq!(Ok(()), writer.append_written(&[3, 4], written));
    assert_eq!(&vec![1u8, 2, 3, 4], writer.bytes());
}
