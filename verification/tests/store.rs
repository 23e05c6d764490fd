//! End-to-end tests of the engine, with the segment files simulated as byte
//! vectors: every `WriteOp` the engine hands out is applied to the
//! simulated files exactly as the process around the library would apply it
//! to disk, and reads hand the file bytes back in.

use bitcask::engine::{read_value, BitCask, BitCaskOptions, WriteOp};
use bitcask::errors::Error;

fn options(dir: &str, limit: u64) -> BitCaskOptions {
    BitCaskOptions { dir_name: dir.to_string(), segment_size_limit: limit }
}

/// Applies one append to the simulated segment files.
fn apply(files: &mut Vec<Vec<u8>>, op: &WriteOp) {
    if op.fresh_segment {
        assert_eq!(op.file_id as usize, files.len() + 1);
        files.push(Vec::new());
    }
    let file = files.last_mut().expect("an active segment exists");
    assert_eq!(op.offset as usize, file.len());
    file.extend_from_slice(&op.data);
}

/// One put against engine and simulated files together.
fn put(engine: &mut BitCask, files: &mut Vec<Vec<u8>>, key: &[u8], value: &[u8], ts: u128) {
    let op = engine
        .put(key.to_vec(), value.to_vec(), ts)
        .expect("well-formed puts succeed");
    apply(files, &op);
}

/// One get against engine and simulated files together.
fn get(engine: &BitCask, files: &[Vec<u8>], key: &[u8]) -> Result<Vec<u8>, Error> {
    let entry = engine.get(key)?;
    let contents = &files[entry.file_id as usize - 1];
    let rec = read_value(key, entry, contents)?;
    Ok(rec.value)
}

#[test]
fn basic_put_get() {
    let mut engine = BitCask::init(options("t1", 1 << 20), Vec::new()).expect("open empty dir");
    assert_eq!(engine.active_segment_id(), 1);
    assert_eq!(engine.active_segment_size(), 0);
    let mut files: Vec<Vec<u8>> = vec![Vec::new()];

    put(&mut engine, &mut files, b"name", b"ishan jain", 1);
    assert_eq!(get(&engine, &files, b"name").unwrap(), b"ishan jain".to_vec());
    // 56-byte header + 4-byte key + 10-byte value.
    assert_eq!(engine.active_segment_size(), 70);
    assert_eq!(files[0].len(), 70);
}

#[test]
fn get_missing_key_is_not_found() {
    let engine = BitCask::init(options("t1", 1 << 20), Vec::new()).expect("open empty dir");
    assert_eq!(engine.get(b"absent"), Err(Error::NotFound));
}

#[test]
fn overwrite_returns_last_value() {
    let mut engine = BitCask::init(options("t2", 1 << 20), Vec::new()).expect("open empty dir");
    let mut files: Vec<Vec<u8>> = vec![Vec::new()];

    put(&mut engine, &mut files, b"k", b"a", 1);
    put(&mut engine, &mut files, b"k", b"b", 2);
    put(&mut engine, &mut files, b"k", b"cc", 3);
    assert_eq!(get(&engine, &files, b"k").unwrap(), b"cc".to_vec());
    // 57 + 57 + 59 bytes.
    assert_eq!(engine.active_segment_size(), 175);
    assert_eq!(files[0].len(), 175);
}

#[test]
fn recovery_after_close_returns_last_values() {
    let mut engine = BitCask::init(options("t3", 1 << 20), Vec::new()).expect("open empty dir");
    let mut files: Vec<Vec<u8>> = vec![Vec::new()];
    put(&mut engine, &mut files, b"k", b"a", 1);
    put(&mut engine, &mut files, b"k", b"b", 2);
    put(&mut engine, &mut files, b"k", b"cc", 3);
    put(&mut engine, &mut files, b"other", b"zzz", 4);
    let first_segment = files[0].clone();

    // Close is a no-op for the engine state; reopen from the same bytes.
    let reopened = BitCask::init(options("t3", 1 << 20), files.clone()).expect("recovery");
    assert_eq!(reopened.active_segment_id(), 2);
    let mut files2 = files.clone();
    files2.push(Vec::new());
    assert_eq!(get(&reopened, &files2, b"k").unwrap(), b"cc".to_vec());
    assert_eq!(get(&reopened, &files2, b"other").unwrap(), b"zzz".to_vec());
    // The first segment is never touched again.
    assert_eq!(files2[0], first_segment);
}

#[test]
fn rotation_respects_soft_bound() {
    // Limit 100: records are 58 bytes each (1-byte key, 1-byte value), so
    // the first two land in segment 1 (58, then 116 bytes); the pre-append
    // check then rotates, and the third lands at offset 0 of segment 2.
    let mut engine = BitCask::init(options("t4", 100), Vec::new()).expect("open empty dir");
    let mut files: Vec<Vec<u8>> = vec![Vec::new()];

    let op1 = engine.put(b"a".to_vec(), b"1".to_vec(), 1).unwrap();
    assert!(!op1.fresh_segment);
    assert_eq!(op1.file_id, 1);
    apply(&mut files, &op1);

    let op2 = engine.put(b"b".to_vec(), b"2".to_vec(), 2).unwrap();
    assert!(!op2.fresh_segment);
    assert_eq!(op2.offset, 58);
    apply(&mut files, &op2);

    let len_before_rotation = files[0].len();
    let op3 = engine.put(b"c".to_vec(), b"3".to_vec(), 3).unwrap();
    assert!(op3.fresh_segment);
    assert_eq!(op3.file_id, 2);
    assert_eq!(op3.offset, 0);
    apply(&mut files, &op3);

    // The rotated-out segment had reached the limit and no longer grows.
    assert!(len_before_rotation as u64 >= 100);
    assert_eq!(files[0].len(), len_before_rotation);
    assert_eq!(engine.active_segment_id(), 2);
    assert_eq!(engine.get(b"c").unwrap().file_id, 2);
    assert_eq!(engine.get(b"a").unwrap().file_id, 1);
    assert_eq!(get(&engine, &files, b"c").unwrap(), b"3".to_vec());
}

#[test]
fn recovery_assigns_next_segment_id() {
    // Two recovered segments: the new active segment gets id 3.
    let mut engine = BitCask::init(options("t5", 50), Vec::new()).expect("open empty dir");
    let mut files: Vec<Vec<u8>> = vec![Vec::new()];
    put(&mut engine, &mut files, b"a", b"1", 1);
    put(&mut engine, &mut files, b"b", b"2", 2);
    assert_eq!(files.len(), 2);

    let reopened = BitCask::init(options("t5", 50), files.clone()).expect("recovery");
    assert_eq!(reopened.active_segment_id(), 3);
}

#[test]
fn prepare_put_matches_put() {
    let mut engine = BitCask::init(options("t6", 1 << 20), Vec::new()).expect("open empty dir");
    let planned = engine.prepare_put(b"k", b"v", 9).expect("plan");
    let op = engine.put(b"k".to_vec(), b"v".to_vec(), 9).expect("commit");
    assert_eq!(planned.file_id, op.file_id);
    assert_eq!(planned.offset, op.offset);
    assert_eq!(planned.fresh_segment, op.fresh_segment);
    assert_eq!(planned.data, op.data);
}

#[test]
fn corrupt_segment_fails_recovery() {
    let mut engine = BitCask::init(options("t7", 1 << 20), Vec::new()).expect("open empty dir");
    let mut files: Vec<Vec<u8>> = vec![Vec::new()];
    put(&mut engine, &mut files, b"k", b"v", 1);

    // Flip one byte inside the stored hash of the only record.
    let mut corrupted = files.clone();
    corrupted[0][3] ^= 0x01;
    assert!(matches!(
        BitCask::init(options("t7", 1 << 20), corrupted),
        Err(Error::RecoveryCorrupt)
    ));
}

#[test]
fn truncated_tail_fails_recovery() {
    let mut engine = BitCask::init(options("t8", 1 << 20), Vec::new()).expect("open empty dir");
    let mut files: Vec<Vec<u8>> = vec![Vec::new()];
    put(&mut engine, &mut files, b"k", b"v", 1);

    let mut torn = files.clone();
    let keep = torn[0].len() - 1;
    torn[0].truncate(keep);
    assert!(matches!(
        BitCask::init(options("t8", 1 << 20), torn),
        Err(Error::RecoveryCorrupt)
    ));
}

#[test]
fn empty_key_is_rejected_and_engine_stays_usable() {
    let mut engine = BitCask::init(options("t9", 1 << 20), Vec::new()).expect("open empty dir");
    let mut files: Vec<Vec<u8>> = vec![Vec::new()];
    assert!(matches!(
        engine.put(Vec::new(), b"v".to_vec(), 1),
        Err(Error::InvalidRecord)
    ));
    put(&mut engine, &mut files, b"k", b"v", 2);
    assert_eq!(get(&engine, &files, b"k").unwrap(), b"v".to_vec());
}

#[test]
fn read_value_rejects_short_contents() {
    let mut engine = BitCask::init(options("t10", 1 << 20), Vec::new()).expect("open empty dir");
    let mut files: Vec<Vec<u8>> = vec![Vec::new()];
    put(&mut engine, &mut files, b"k", b"value", 1);
    let entry = engine.get(b"k").unwrap();
    let short = &files[0][..files[0].len() - 1];
    assert!(matches!(read_value(b"k", entry, short), Err(Error::Io)));
}

#[test]
fn default_options() {
    let o = BitCaskOptions::default();
    assert_eq!(o.dir_name, "db");
    assert_eq!(o.segment_size_limit, 100 * 1024 * 1024);
}
