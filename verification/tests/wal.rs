use libcix::messages::{
    CancelOrderMessage, EngineMessage, NewOrderMessage, OpenOrdersSequence,
};
use libcix::order::trade_types::{OrderId, OrderSide, Symbol};
use libcix::wal::{
    decode_message, encode_message, list_segments, newest, next_free, segment_index, segment_name,
    DecodeError, ReaderStep, Wal, WalDirectoryReader, WalError, WalFile, WalWrite, WriteResult,
};

fn new_order(seq: u64) -> EngineMessage {
    EngineMessage::NewOrder(NewOrderMessage {
        user: 0x0102_0304_0506_0708,
        order_id: OrderId::new(1, OrderSide::Sell, seq).unwrap(),
        symbol: Symbol::from_str("GOOG").unwrap(),
        side: OrderSide::Sell,
        price: 500,
        quantity: 1000,
    })
}

fn cancel(seq: u64) -> EngineMessage {
    EngineMessage::CancelOrder(CancelOrderMessage {
        user: 7,
        order_id: OrderId::new(0, OrderSide::Buy, seq).unwrap(),
    })
}

fn same(a: &EngineMessage, b: &EngineMessage) -> bool {
    encode_message(a) == encode_message(b)
}

#[test]
fn record_of_a_new_order_is_laid_out_field_by_field() {
    let bytes = encode_message(&new_order(3));
    let mut expect: Vec<u8> = vec![1, 0, 0, 0];
    expect.extend_from_slice(&[8, 7, 6, 5, 4, 3, 2, 1]);
    expect.extend_from_slice(&((1u64 << 44) | 3).to_le_bytes());
    expect.extend_from_slice(b"GOOG\0\0\0\0");
    expect.extend_from_slice(&[1, 0, 0, 0]);
    expect.extend_from_slice(&500u64.to_le_bytes());
    expect.extend_from_slice(&1000u32.to_le_bytes());
    assert_eq!(bytes, expect);
    assert_eq!(bytes.len(), 44);
}

#[test]
fn records_have_the_length_of_their_kind() {
    assert_eq!(encode_message(&EngineMessage::NullMessage), vec![0, 0, 0, 0]);
    assert_eq!(encode_message(&cancel(1)).len(), 20);
    assert_eq!(encode_message(&EngineMessage::SerializationMessage(9)), vec![3, 0, 0, 0, 9, 0, 0, 0]);
    let q = EngineMessage::GetOpenOrdersMessaage(OpenOrdersSequence { user: 5, seq: 6 });
    assert_eq!(encode_message(&q).len(), 16);
}

#[test]
fn every_command_reads_back_as_written() {
    let q = EngineMessage::GetOpenOrdersMessaage(OpenOrdersSequence { user: u64::MAX, seq: u32::MAX });
    for m in vec![
        EngineMessage::NullMessage,
        new_order(0),
        new_order(0xFF_FFFF_FFFF),
        cancel(12),
        EngineMessage::SerializationMessage(0xDEAD_BEEF),
        q,
    ] {
        let mut bytes = encode_message(&m);
        let len = bytes.len();
        bytes.extend_from_slice(&[0xAA, 0xBB, 0xCC]);
        let (back, n) = decode_message(&bytes).unwrap();
        assert_eq!(n, len);
        assert!(same(&back, &m));
        assert_eq!(format!("{:?}", back), format!("{:?}", m));
    }
}

#[test]
fn bytes_that_are_no_record_are_told_apart() {
    assert_eq!(decode_message(&[0, 0, 0]).err(), Some(DecodeError::Truncated));
    assert_eq!(decode_message(&[5, 0, 0, 0]).err(), Some(DecodeError::BadTag));
    assert_eq!(decode_message(&[1, 1, 0, 0]).err(), Some(DecodeError::BadTag));
    let full = encode_message(&new_order(2));
    assert_eq!(decode_message(&full[..43]).err(), Some(DecodeError::Truncated));
    let mut bad_side = full.clone();
    bad_side[28] = 2;
    assert_eq!(decode_message(&bad_side).err(), Some(DecodeError::BadSide));
    let mut bad_id = full.clone();
    bad_id[17] |= 1;
    assert_eq!(decode_message(&bad_id).err(), Some(DecodeError::BadOrderId));
    let mut bad_cancel = encode_message(&cancel(1));
    bad_cancel[17] |= 1;
    assert_eq!(decode_message(&bad_cancel).err(), Some(DecodeError::BadOrderId));
    assert_eq!(decode_message(&encode_message(&cancel(1))[..19]).err(), Some(DecodeError::Truncated));
    assert_eq!(decode_message(&[3, 0, 0, 0, 1]).err(), Some(DecodeError::Truncated));
    assert_eq!(decode_message(&[4, 0, 0, 0, 1, 2, 3]).err(), Some(DecodeError::Truncated));
}

#[test]
fn segment_takes_a_record_that_fits_exactly() {
    let mut exact = WalFile::create(44);
    assert_eq!(exact.write_entry(&new_order(1)), WriteResult::Success);
    assert_eq!(exact.cursor(), 44);
    assert_eq!(exact.as_bytes(), encode_message(&new_order(1)).as_slice());
    let mut short = WalFile::create(43);
    assert_eq!(short.write_entry(&new_order(1)), WriteResult::LogFull);
    assert_eq!(short.cursor(), 0);
    assert_eq!(short.as_bytes(), vec![0u8; 43].as_slice());
    assert_eq!(short.write_entry(&cancel(1)), WriteResult::Success);
    assert_eq!(short.cursor(), 20);
    assert_eq!(short.write_entry(&cancel(2)), WriteResult::Success);
    assert_eq!(short.write_entry(&EngineMessage::SerializationMessage(1)), WriteResult::LogFull);
    assert_eq!(short.cursor(), 40);
}

#[test]
fn segment_gives_back_what_was_appended() {
    let mut seg = WalFile::create(256);
    let written = vec![new_order(1), cancel(1), new_order(2), new_order(3), cancel(3)];
    for m in &written {
        assert_eq!(seg.write_entry(m), WriteResult::Success);
    }
    let end = seg.cursor();
    assert_eq!(end, 44 * 3 + 20 * 2);
    let mut again = WalFile::open(seg.as_bytes().to_vec());
    assert_eq!(again.cursor(), 0);
    assert_eq!(again.capacity(), 256);
    let (read, failure) = again.read_all();
    assert!(failure.is_none());
    assert_eq!(again.cursor(), end);
    assert_eq!(read.len(), written.len());
    for (a, b) in read.iter().zip(written.iter()) {
        assert!(same(a, b));
    }
    assert!(again.advance_entry().is_none());
    let mut resumed = WalFile::open(seg.as_bytes().to_vec());
    assert!(resumed.advance_to_end().is_ok());
    assert_eq!(resumed.cursor(), end);
    assert_eq!(resumed.write_entry(&cancel(9)), WriteResult::Success);
    assert_eq!(resumed.cursor(), end + 20);
}

#[test]
fn reading_stops_where_bytes_are_no_record() {
    let mut bytes = encode_message(&cancel(1));
    bytes.extend_from_slice(&[9, 0, 0, 0, 0, 0]);
    let mut seg = WalFile::open(bytes);
    let (read, failure) = seg.read_all();
    assert_eq!(read.len(), 1);
    assert_eq!(failure, Some(DecodeError::BadTag));
    assert_eq!(seg.cursor(), 20);
    assert!(matches!(seg.advance_entry(), Some(Err(DecodeError::BadTag))));
    assert_eq!(seg.advance_to_end().err(), Some(DecodeError::BadTag));
    let mut tail = encode_message(&cancel(1));
    tail.extend_from_slice(&[9, 0, 0]);
    let mut short = WalFile::open(tail);
    let (read, failure) = short.read_all();
    assert_eq!(read.len(), 1);
    assert!(failure.is_none());
}

#[test]
fn log_moves_on_when_the_segment_is_full() {
    let (mut wal, created) = Wal::new(Vec::new(), None, 50).unwrap();
    assert_eq!(created, Some(0));
    assert_eq!(
        wal.write_entry(&new_order(1)),
        Ok(WalWrite { rotated_to: None, offset: 0, len: 44 })
    );
    assert_eq!(
        wal.write_entry(&cancel(1)),
        Ok(WalWrite { rotated_to: Some(1), offset: 0, len: 20 })
    );
    assert_eq!(wal.current().cursor(), 20);
    assert_eq!(wal.current().capacity(), 50);
    assert_eq!(
        wal.write_entry(&cancel(2)),
        Ok(WalWrite { rotated_to: None, offset: 20, len: 20 })
    );
    assert_eq!(
        wal.write_entry(&cancel(3)),
        Ok(WalWrite { rotated_to: Some(2), offset: 0, len: 20 })
    );
}

#[test]
fn record_longer_than_a_segment_is_turned_down() {
    let (mut wal, created) = Wal::new(vec![0, 1, 3], None, 30).unwrap();
    assert_eq!(created, Some(2));
    assert_eq!(
        wal.write_entry(&new_order(1)),
        Err(WalError::RecordTooLarge { rotated_to: 4 })
    );
    assert_eq!(wal.current().cursor(), 0);
    assert_eq!(
        wal.write_entry(&cancel(1)),
        Ok(WalWrite { rotated_to: None, offset: 0, len: 20 })
    );
}

#[test]
fn log_goes_on_in_the_newest_segment() {
    let mut seg = WalFile::create(100);
    seg.write_entry(&cancel(1));
    seg.write_entry(&cancel(2));
    let (mut wal, created) = Wal::new(vec![0, 4, 2], Some(seg.as_bytes().to_vec()), 100).unwrap();
    assert_eq!(created, None);
    assert_eq!(wal.current().cursor(), 40);
    assert_eq!(
        wal.write_entry(&new_order(1)),
        Ok(WalWrite { rotated_to: None, offset: 40, len: 44 })
    );
    assert_eq!(
        wal.write_entry(&new_order(2)),
        Ok(WalWrite { rotated_to: Some(5), offset: 0, len: 44 })
    );
}

#[test]
fn free_index_is_the_first_that_is_not_taken() {
    assert_eq!(next_free(&vec![], 0), Some(0));
    assert_eq!(next_free(&vec![0, 1, 2, 4], 0), Some(3));
    assert_eq!(next_free(&vec![0, 1, 2, 4], 4), Some(5));
    assert_eq!(next_free(&vec![u32::MAX], u32::MAX as u64), None);
    assert_eq!(next_free(&vec![], u32::MAX as u64 + 1), None);
    assert_eq!(newest(&vec![3, 9, 4]), 9);
    assert_eq!(newest(&vec![]), 0);
}

#[test]
fn segment_names_are_wal_and_a_number() {
    assert_eq!(segment_name(0), b"wal_0".to_vec());
    assert_eq!(segment_name(10), b"wal_10".to_vec());
    assert_eq!(segment_name(u32::MAX), b"wal_4294967295".to_vec());
    assert_eq!(segment_index(b"wal_0"), Some(0));
    assert_eq!(segment_index(b"wal_007"), Some(7));
    assert_eq!(segment_index(b"wal_4294967295"), Some(u32::MAX));
    assert_eq!(segment_index(b"wal_4294967296"), None);
    assert_eq!(segment_index(b"wal_"), None);
    assert_eq!(segment_index(b"wal_1a"), None);
    assert_eq!(segment_index(b"wal_-1"), None);
    assert_eq!(segment_index(b"wal1"), None);
    assert_eq!(segment_index(b"xwal_1"), None);
    assert_eq!(segment_index(b""), None);
    for i in vec![0u32, 9, 10, 99, 100, 12345, u32::MAX] {
        assert_eq!(segment_index(&segment_name(i)), Some(i));
    }
}

#[test]
fn listing_keeps_segments_in_ascending_order() {
    let names: Vec<Vec<u8>> = vec![
        b"wal_10".to_vec(),
        b"notes.txt".to_vec(),
        b"wal_2".to_vec(),
        b"wal_".to_vec(),
        b"wal_0".to_vec(),
        b"wal_33".to_vec(),
        b"wal_3".to_vec(),
    ];
    assert_eq!(list_segments(&names), vec![0, 2, 3, 10, 33]);
    assert!(list_segments(&Vec::new()).is_empty());
}

#[test]
fn directory_reader_goes_through_the_segments_in_order() {
    let mut first = WalFile::create(64);
    first.write_entry(&cancel(1));
    first.write_entry(&cancel(2));
    let mut second = WalFile::create(64);
    second.write_entry(&new_order(3));
    let mut broken = encode_message(&cancel(4));
    broken.extend_from_slice(&[7, 0, 0, 0]);
    let mut reader = WalDirectoryReader::new(vec![0, 1, 2]);
    let mut seen: Vec<String> = Vec::new();
    let mut segments = vec![first.as_bytes().to_vec(), broken, second.as_bytes().to_vec()].into_iter();
    loop {
        match reader.next() {
            ReaderStep::Entry(m) => seen.push(format!("{:?}", m)),
            ReaderStep::Failed(e) => seen.push(format!("{:?}", e)),
            ReaderStep::Open(index) => {
                seen.push(format!("open {}", index));
                reader.supply(segments.next().unwrap());
            }
            ReaderStep::Done => break,
        }
    }
    assert_eq!(
        seen,
        vec![
            "open 0".to_string(),
            format!("{:?}", cancel(1)),
            format!("{:?}", cancel(2)),
            "open 1".to_string(),
            format!("{:?}", cancel(4)),
            "BadTag".to_string(),
            "open 2".to_string(),
            format!("{:?}", new_order(3)),
        ]
    );
    assert!(matches!(reader.next(), ReaderStep::Done));
}

#[test]
fn directory_reader_passes_over_a_segment_that_cannot_be_had() {
    let mut only = WalFile::create(32);
    only.write_entry(&cancel(1));
    let mut reader = WalDirectoryReader::new(vec![5, 6]);
    assert!(matches!(reader.next(), ReaderStep::Open(5)));
    reader.skip();
    assert!(matches!(reader.next(), ReaderStep::Open(6)));
    reader.supply(only.as_bytes().to_vec());
    assert!(matches!(reader.next(), ReaderStep::Entry(EngineMessage::CancelOrder(_))));
    assert!(matches!(reader.next(), ReaderStep::Done));
}
