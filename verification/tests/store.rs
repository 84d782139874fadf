use byteorder::ByteOrder;
use sonnerie::database::{compact, CreateTx, DatabaseReader};
use sonnerie::range::KeyBound;
use sonnerie::segment::{SegmentReader, Writer};
use sonnerie::Error;

fn be_value(ts: u64, extra: &[u8]) -> Vec<u8> {
    let mut v = vec![0u8; 8];
    byteorder::BigEndian::write_u64(&mut v[..], ts);
    v.extend_from_slice(extra);
    v
}

#[test]
fn basic1() {
    let mut w = Writer::new();
    w.add_record(b"ab", b"u", b"\0\0\0\0\0\0\0\0\0\0\0\0").unwrap();
    w.add_record(b"ab", b"u", b"\0\0\0\0\0\0\0\x01\0\0\0\x01").unwrap();
    w.add_record(b"ab", b"u", b"\0\0\0\0\0\0\0\x02\0\0\0\x02").unwrap();
    w.add_record(b"ab", b"u", b"\0\0\0\0\0\0\0\x03\x03\0\0\x03").unwrap();
    let image = w.finish();

    let o = SegmentReader::open(&image).unwrap();
    let s = o.get(b"ab");
    let mut i = s.into_iter();
    let a = i.next().unwrap();
    assert_eq!(a.key(), b"ab");
    assert_eq!(a.format(), b"u");
    assert_eq!(a.value(), b"\0\0\0\0\0\0\0\0\0\0\0\0");
    let a = i.next().unwrap();
    assert_eq!(a.key(), b"ab");
    assert_eq!(a.format(), b"u");
    assert_eq!(a.value(), b"\0\0\0\0\0\0\0\x01\0\0\0\x01");
    let a = i.next().unwrap();
    assert_eq!(a.key(), b"ab");
    assert_eq!(a.format(), b"u");
    assert_eq!(a.value(), b"\0\0\0\0\0\0\0\x02\0\0\0\x02");
    let a = i.next().unwrap();
    assert_eq!(a.key(), b"ab");
    assert_eq!(a.format(), b"u");
    assert_eq!(a.value(), b"\0\0\0\0\0\0\0\x03\x03\0\0\x03");
    assert!(i.next().is_none());
}

fn write_many(w: &mut Writer, key: &[u8], range: std::ops::Range<u32>) {
    for n in range {
        let mut buf = [0u8; 12];
        byteorder::BigEndian::write_u64(&mut buf[..], n as u64);
        byteorder::BigEndian::write_u32(&mut buf[8..12], n);
        w.add_record(key, b"u", &buf).unwrap();
    }
}

#[test]
fn basic2() {
    let mut w = Writer::new();
    write_many(&mut w, b"aa", 0..70000);
    write_many(&mut w, b"aabq", 0..50000);
    write_many(&mut w, b"n", 0..10000);
    let image = w.finish();

    let o = SegmentReader::open(&image).unwrap();
    assert_eq!(o.get(b"aa").len(), 70000);
    assert_eq!(o.get(b"aabq").len(), 50000);
    assert_eq!(o.get(b"aac").len(), 0);
    assert_eq!(o.get(b"n").len(), 10000);
}

#[test]
fn range_before() {
    let mut tx = CreateTx::new();
    tx.add_record(b"aa", b"u", &be_value(1, &[0, 0, 0, 10])).expect("writing");
    tx.add_record(b"bb", b"u", &be_value(2, &[0, 0, 0, 20])).expect("writing");
    tx.add_record(b"cc", b"u", &be_value(3, &[0, 0, 0, 20])).expect("writing");
    let image = tx.commit();

    let o = SegmentReader::open(&image).unwrap();
    let s = o.get_range(&KeyBound::Unbounded, &KeyBound::Included(b"bb".to_vec()));
    assert_eq!(s.len(), 2);
    let s = o.get_range(&KeyBound::Unbounded, &KeyBound::Excluded(b"bb".to_vec()));
    assert_eq!(s.len(), 1);
}

#[test]
#[should_panic]
fn violate_time_order() {
    let mut tx = CreateTx::new();
    tx.add_record(b"a", b"u", &be_value(10, &[0, 0, 0, 10])).expect("writing");
    // the same key and timestamp again must be rejected
    tx.add_record(b"a", b"u", &be_value(10, &[0, 0, 0, 20])).expect("writing");
}

#[test]
fn write() {
    let mut w = Writer::new();
    w.add_record(b"a", b"u", b"\0\0\0\0\0\0\0\0\0\0\0\0").unwrap();
    let image = w.finish();

    let o = SegmentReader::open(&image).unwrap();
    assert_eq!(o.get(b"a").len(), 1);
}

#[test]
fn database_merge() {
    let mut tx = CreateTx::new();
    tx.add_record(b"a", b"U", &[0, 0, 0, 0, 0, 0, 0, 0]).unwrap();
    tx.add_record(b"a", b"U", &[1, 0, 0, 0, 0, 0, 0, 0]).unwrap();
    tx.add_record(b"c", b"U", &[0, 0, 0, 0, 0, 0, 0, 0]).unwrap();
    tx.add_record(b"c", b"U", &[1, 0, 0, 0, 0, 0, 0, 0]).unwrap();
    let t1 = tx.commit();

    let mut tx = CreateTx::new();
    tx.add_record(b"b", b"U", &[0, 0, 0, 0, 0, 0, 0, 0]).unwrap();
    tx.add_record(b"b", b"U", &[1, 0, 0, 0, 0, 0, 0, 0]).unwrap();
    tx.add_record(b"d", b"U", &[0, 0, 0, 0, 0, 0, 0, 0]).unwrap();
    tx.add_record(b"d", b"U", &[1, 0, 0, 0, 0, 0, 0, 0]).unwrap();
    let t2 = tx.commit();

    let files = vec![
        (b"main".to_vec(), Vec::new()),
        (b"tx.1.0".to_vec(), t1),
        (b"tx.2.0".to_vec(), t2),
    ];
    let r = DatabaseReader::new(&files).unwrap();
    assert_eq!(r.transaction_paths().len(), 3);
    let reader = r.get_range(&KeyBound::Unbounded, &KeyBound::Unbounded);
    let keys: Vec<&[u8]> = reader.iter().map(|r| r.key()).collect();
    assert_eq!(keys, vec![b"a", b"a", b"b", b"b", b"c", b"c", b"d", b"d"]);
}

#[test]
fn database_merge_last() {
    let mut tx = CreateTx::new();
    tx.add_record(b"a", b"U", &[0, 0, 0, 0, 0, 0, 0, 0, 1]).unwrap();
    let t1 = tx.commit();

    let mut tx = CreateTx::new();
    tx.add_record(b"a", b"U", &[0, 0, 0, 0, 0, 0, 0, 0, 2]).unwrap();
    let t2 = tx.commit();

    let files = vec![
        (b"main".to_vec(), Vec::new()),
        (b"tx.1.0".to_vec(), t1),
        (b"tx.2.0".to_vec(), t2),
    ];
    let r = DatabaseReader::new(&files).unwrap();
    let out = r.get_range(&KeyBound::Unbounded, &KeyBound::Unbounded);
    // both records stay; the older transaction's comes first, the newer after
    assert_eq!(out.len(), 2);
    assert_eq!(out[0].value()[8], 1);
    assert_eq!(out[1].value()[8], 2);
}

#[test]
fn empty_writer_round_trip() {
    let w = Writer::new();
    let image = w.finish();
    assert!(image.is_empty());
    let o = SegmentReader::open(&image).unwrap();
    assert_eq!(o.records().len(), 0);
}

#[test]
fn corrupt_image_is_rejected() {
    assert_eq!(SegmentReader::open(b"short").unwrap_err(), Error::CorruptSegment);
    let mut w = Writer::new();
    w.add_record(b"a", b"u", &be_value(1, &[7])).unwrap();
    let mut image = w.finish();
    let magic_at = image.len() - 33;
    image[magic_at] ^= 0xff; // break the trailer's magic
    assert_eq!(SegmentReader::open(&image).unwrap_err(), Error::CorruptSegment);
}

#[test]
fn out_of_order_rejected() {
    let mut w = Writer::new();
    w.add_record(b"b", b"u", &be_value(5, &[])).unwrap();
    assert_eq!(w.add_record(b"a", b"u", &be_value(9, &[])).unwrap_err(), Error::OutOfOrder);
    assert_eq!(w.add_record(b"b", b"u", &be_value(4, &[])).unwrap_err(), Error::OutOfOrder);
    assert_eq!(
        w.add_record(b"b", b"u", &be_value(5, &[])).unwrap_err(),
        Error::DuplicateTimestamp
    );
    assert_eq!(w.add_record(b"b", b"s", &be_value(6, &[])).unwrap_err(), Error::FormatMismatch);
    assert_eq!(w.add_record(b"b", b"u", &[0, 1, 2]).unwrap_err(), Error::ParseError);
    // the writer is still usable and holds only the good record
    w.add_record(b"b", b"u", &be_value(6, &[])).unwrap();
    let o = SegmentReader::open(&w.finish()).unwrap();
    assert_eq!(o.records().len(), 2);
}

#[test]
fn format_checked_against_database() {
    let mut tx = CreateTx::new();
    tx.add_record(b"k", b"uu", &be_value(1, &[1, 2, 3, 4, 5, 6, 7, 8])).unwrap();
    let t1 = tx.commit();
    let files = vec![(b"tx.1.0".to_vec(), t1)];
    let db = DatabaseReader::new(&files).unwrap();

    let mut tx = CreateTx::new();
    assert_eq!(
        tx.add_record_checked(&db, b"k", b"u", &be_value(2, &[1, 2, 3, 4]))
            .unwrap_err(),
        Error::FormatMismatch
    );
    tx.add_record_checked(&db, b"k", b"uu", &be_value(2, &[1, 2, 3, 4, 5, 6, 7, 8])).unwrap();
}

#[test]
fn compaction_round_trip_and_idempotence() {
    let mut tx = CreateTx::new();
    tx.add_record(b"a", b"u", &be_value(1, &[1])).unwrap();
    tx.add_record(b"c", b"u", &be_value(1, &[3])).unwrap();
    let t1 = tx.commit();
    let mut tx = CreateTx::new();
    tx.add_record(b"b", b"u", &be_value(1, &[2])).unwrap();
    let t2 = tx.commit();

    let files = vec![(b"tx.1.0".to_vec(), t1), (b"tx.2.0".to_vec(), t2)];
    let db = DatabaseReader::new(&files).unwrap();
    let fused = compact(&db).unwrap();

    // a major compaction replaces main with the fused segment
    let files2 = vec![(b"main".to_vec(), fused.clone())];
    let db2 = DatabaseReader::new(&files2).unwrap();
    let all1 = db.get_range(&KeyBound::Unbounded, &KeyBound::Unbounded);
    let all2 = db2.get_range(&KeyBound::Unbounded, &KeyBound::Unbounded);
    assert_eq!(all1.len(), 3);
    assert_eq!(all1.len(), all2.len());
    for (x, y) in all1.iter().zip(all2.iter()) {
        assert_eq!(x.key(), y.key());
        assert_eq!(x.timestamp(), y.timestamp());
        assert_eq!(x.value(), y.value());
    }

    // compacting again changes nothing
    let fused2 = compact(&db2).unwrap();
    let db3 = DatabaseReader::new(&vec![(b"main".to_vec(), fused2)]).unwrap();
    let all3 = db3.get_range(&KeyBound::Unbounded, &KeyBound::Unbounded);
    assert_eq!(all2.len(), all3.len());
    for (x, y) in all2.iter().zip(all3.iter()) {
        assert_eq!(x.key(), y.key());
        assert_eq!(x.timestamp(), y.timestamp());
        assert_eq!(x.value(), y.value());
    }
}

#[test]
fn compaction_reports_duplicates() {
    let mut tx = CreateTx::new();
    tx.add_record(b"a", b"u", &be_value(7, &[1])).unwrap();
    let t1 = tx.commit();
    let mut tx = CreateTx::new();
    tx.add_record(b"a", b"u", &be_value(7, &[2])).unwrap();
    let t2 = tx.commit();
    let files = vec![(b"tx.1.0".to_vec(), t1), (b"tx.2.0".to_vec(), t2)];
    let db = DatabaseReader::new(&files).unwrap();
    assert_eq!(compact(&db).unwrap_err(), Error::DuplicateTimestamp);
}

#[test]
fn crash_tolerance_subset_still_opens() {
    let mut tx = CreateTx::new();
    tx.add_record(b"a", b"u", &be_value(1, &[1])).unwrap();
    let main_img = tx.commit();
    let mut tx = CreateTx::new();
    tx.add_record(b"b", b"u", &be_value(1, &[2])).unwrap();
    let t1 = tx.commit();
    let mut tx = CreateTx::new();
    tx.add_record(b"c", b"u", &be_value(1, &[3])).unwrap();
    let t2 = tx.commit();

    let full = vec![
        (b"main".to_vec(), main_img.clone()),
        (b"tx.1.0".to_vec(), t1),
        (b"tx.2.0".to_vec(), t2.clone()),
    ];
    assert!(DatabaseReader::new(&full).is_ok());
    // any subset of the transactions removed still opens
    let partial = vec![(b"main".to_vec(), main_img), (b"tx.2.0".to_vec(), t2)];
    let db = DatabaseReader::new(&partial).unwrap();
    let all = db.get_range(&KeyBound::Unbounded, &KeyBound::Unbounded);
    assert_eq!(all.len(), 2);
}

#[test]
fn without_main_excludes_main() {
    let mut tx = CreateTx::new();
    tx.add_record(b"a", b"u", &be_value(1, &[1])).unwrap();
    let main_img = tx.commit();
    let mut tx = CreateTx::new();
    tx.add_record(b"b", b"u", &be_value(1, &[2])).unwrap();
    let t1 = tx.commit();
    let files = vec![(b"main".to_vec(), main_img), (b"tx.1.0".to_vec(), t1)];

    let with_main = DatabaseReader::new(&files).unwrap();
    assert_eq!(with_main.get_range(&KeyBound::Unbounded, &KeyBound::Unbounded).len(), 2);
    let delta_only = DatabaseReader::without_main_db(&files).unwrap();
    assert_eq!(delta_only.get_range(&KeyBound::Unbounded, &KeyBound::Unbounded).len(), 1);
    assert_eq!(delta_only.transaction_paths().len(), 1);
}

#[test]
fn key_spanning_many_blocks() {
    // one key large enough to cut several blocks
    let mut w = Writer::new();
    let big = vec![0xabu8; 3000];
    for n in 0..100u64 {
        let mut v = be_value(n, &[]);
        v.extend_from_slice(&big);
        w.add_record(b"k", b"s", &v).unwrap();
    }
    let image = w.finish();
    let o = SegmentReader::open(&image).unwrap();
    let hits = o.get(b"k");
    assert_eq!(hits.len(), 100);
    for (n, r) in hits.iter().enumerate() {
        assert_eq!(r.timestamp(), n as u64);
    }
}

#[test]
fn segment_records_stay_ordered() {
    // records come back in strictly rising (key, timestamp) order, across
    // block cuts, with timestamps strictly rising within one key
    let mut w = Writer::new();
    write_many(&mut w, b"k1", 0..20000);
    write_many(&mut w, b"k2", 5..10);
    let image = w.finish();
    let o = SegmentReader::open(&image).unwrap();
    let all = o.records();
    assert_eq!(all.len(), 20005);
    for pair in all.windows(2) {
        let earlier = (pair[0].key(), pair[0].timestamp());
        let later = (pair[1].key(), pair[1].timestamp());
        assert!(earlier < later);
        if pair[0].key() == pair[1].key() {
            assert!(pair[0].timestamp() < pair[1].timestamp());
        }
    }
}
