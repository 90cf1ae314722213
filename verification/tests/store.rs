use memdb::{Entry, DB};

#[test]
fn basic() {
    let mut db = DB::open(b"/tmp/hello".as_slice()).expect("failed to open");

    db.put(b"1".to_vec(), b"hello".to_vec()).expect("cant put 1");
    db.put(b"2".to_vec(), b"world".to_vec()).expect("cant put 2");
    assert_eq!(db.get(b"1".as_slice()), Ok(Some(b"hello".to_vec())));
    assert_eq!(db.get(b"2".as_slice()), Ok(Some(b"world".to_vec())));
    assert_eq!(db.get(b"3".as_slice()), Ok(None));
}

#[test]
fn basic_delete() {
    let mut db = DB::open(b"/tmp/hello".as_slice()).expect("failed to open");

    db.put(b"1".to_vec(), b"hello".to_vec()).expect("cant put 1");
    db.put(b"2".to_vec(), b"world".to_vec()).expect("cant put 2");

    assert_eq!(db.get(b"2".as_slice()), Ok(Some(b"world".to_vec())));
    db.delete(b"2".to_vec()).expect("couldnt delete 2");
    assert_eq!(db.get(b"2".as_slice()).expect("cant put 2"), None);
}

#[test]
fn basic_seek() {
    let mut db = DB::open(b"/tmp/hello".as_slice()).expect("failed to open");

    db.put(b"/user/name/adam".to_vec(), b"adam".to_vec())
        .expect("cant put /user/adam");
    db.put(b"/user/name/vardhan".to_vec(), b"vardhan".to_vec())
        .expect("cant put /user/vardhan");
    db.put(b"/abc".to_vec(), b"abc".to_vec()).expect("cant put /abc");
    db.put(b"/xyz".to_vec(), b"xyz".to_vec()).expect("cant put /xyz");
    assert_eq!(
        db.get(b"/user/name/vardhan".as_slice()),
        Ok(Some(b"vardhan".to_vec()))
    );

    assert_eq!(
        db.seek(b"/user/".as_slice())
            .expect("couldnt seek /user")
            .into_vec(),
        vec![
            (b"/user/name/adam".to_vec(), b"adam".to_vec()),
            (b"/user/name/vardhan".to_vec(), b"vardhan".to_vec())
        ]
    );

    assert_eq!(
        db.seek(b"/user/vardhan_".as_slice())
            .expect("couldn't seen /user/vardhan_")
            .into_vec(),
        vec![]
    );

    assert_eq!(
        db.seek(b"/items/".as_slice())
            .expect("couldnt seek /items")
            .into_vec(),
        vec![]
    );
}

#[test]
fn seek_with_frozen_memtable() {
    let mut db = DB::open(b"/tmp/hello".as_slice()).expect("failed to open");

    db.put(b"/user/name/adam".to_vec(), b"adam".to_vec())
        .expect("cant put /user/adam");
    db.put(b"/user/name/vardhan".to_vec(), b"vardhan".to_vec())
        .expect("cant put /user/vardhan");
    db.put(b"/user/name/catherine".to_vec(), b"catherine".to_vec())
        .expect("cant put /user/catherine");
    db.put(b"/abc".to_vec(), b"abc".to_vec()).expect("cant put /abc");
    db.put(b"/xyz".to_vec(), b"xyz".to_vec()).expect("cant put /xyz");

    db._swap_and_compact();

    assert_eq!(
        db.seek(b"/user/".as_slice())
            .expect("couldnt seek /user")
            .into_vec(),
        vec![
            (b"/user/name/adam".to_vec(), b"adam".to_vec()),
            (b"/user/name/catherine".to_vec(), b"catherine".to_vec()),
            (b"/user/name/vardhan".to_vec(), b"vardhan".to_vec())
        ]
    );

    db.delete(b"/user/name/catherine".to_vec())
        .expect("couldnt delete /user/catherine");

    db.put(b"/user/name/adam".to_vec(), b"vardhan".to_vec())
        .expect("cant put /user/name/adam");

    assert_eq!(
        db.get(b"/user/name/vardhan".as_slice()),
        Ok(Some(b"vardhan".to_vec()))
    );

    assert_eq!(
        db.seek(b"/user/".as_slice())
            .expect("couldnt seek /user")
            .into_vec(),
        vec![
            (b"/user/name/adam".to_vec(), b"vardhan".to_vec()),
            (b"/user/name/vardhan".to_vec(), b"vardhan".to_vec())
        ]
    );

    assert_eq!(
        db.seek(b"/user/vardhan_".as_slice())
            .expect("couldn't seen /user/vardhan_")
            .into_vec(),
        vec![]
    );

    assert_eq!(
        db.seek(b"/items/".as_slice())
            .expect("couldnt seek /items")
            .into_vec(),
        vec![]
    );
}

#[test]
fn entry_len_counts_payload_or_tombstone() {
    assert_eq!(Entry::Present(b"hello".to_vec()).len(), 5);
    assert_eq!(Entry::Present(Vec::new()).len(), 0);
    assert_eq!(Entry::Deleted.len(), 1);
}

#[test]
fn last_write_to_a_key_wins() {
    let mut db = DB::open(b"/tmp/hello".as_slice()).expect("failed to open");
    db.put(b"k".to_vec(), b"one".to_vec()).expect("cant put");
    db.put(b"k".to_vec(), b"two".to_vec()).expect("cant put");
    assert_eq!(db.get(b"k".as_slice()), Ok(Some(b"two".to_vec())));
    db.delete(b"k".to_vec()).expect("cant delete");
    assert_eq!(db.get(b"k".as_slice()), Ok(None));
    db.put(b"k".to_vec(), b"three".to_vec()).expect("cant put");
    assert_eq!(db.get(b"k".as_slice()), Ok(Some(b"three".to_vec())));
}

#[test]
fn overwrite_keeps_the_key_set() {
    let mut db = DB::open(b"/tmp/hello".as_slice()).expect("failed to open");
    db.put(b"a".to_vec(), b"xx".to_vec()).expect("cant put");
    db.put(b"b".to_vec(), b"yy".to_vec()).expect("cant put");
    db.put(b"a".to_vec(), b"zzzz".to_vec()).expect("cant put");
    assert_eq!(
        db.seek(b"".as_slice()).expect("cant seek").into_vec(),
        vec![
            (b"a".to_vec(), b"zzzz".to_vec()),
            (b"b".to_vec(), b"yy".to_vec())
        ]
    );
}

#[test]
fn size_counter_tracks_active_contents() {
    let mut db = DB::open(b"/tmp/hello".as_slice()).expect("failed to open");
    assert_eq!(db.memtable_size, 0);
    db.put(b"ab".to_vec(), b"xyz".to_vec()).expect("cant put");
    assert_eq!(db.memtable_size, 2 + 3);
    // overwriting replaces only the entry's share
    db.put(b"ab".to_vec(), b"x".to_vec()).expect("cant put");
    assert_eq!(db.memtable_size, 2 + 1);
    // a tombstone accounts one byte, also for a key never written
    db.delete(b"ab".to_vec()).expect("cant delete");
    assert_eq!(db.memtable_size, 2 + 1);
    db.delete(b"cdef".to_vec()).expect("cant delete");
    assert_eq!(db.memtable_size, 2 + 1 + 4 + 1);
}

#[test]
fn empty_prefix_scans_every_live_key() {
    let mut db = DB::open(b"/tmp/hello".as_slice()).expect("failed to open");
    db.put(b"b".to_vec(), b"2".to_vec()).expect("cant put");
    db.put(b"d".to_vec(), b"4".to_vec()).expect("cant put");
    db._swap_and_compact();
    db.put(b"a".to_vec(), b"1".to_vec()).expect("cant put");
    db.put(b"c".to_vec(), b"3".to_vec()).expect("cant put");
    db.delete(b"d".to_vec()).expect("cant delete");
    assert_eq!(
        db.seek(b"".as_slice()).expect("cant seek").into_vec(),
        vec![
            (b"a".to_vec(), b"1".to_vec()),
            (b"b".to_vec(), b"2".to_vec()),
            (b"c".to_vec(), b"3".to_vec())
        ]
    );
}

#[test]
fn active_entry_wins_over_frozen() {
    let mut db = DB::open(b"/tmp/hello".as_slice()).expect("failed to open");
    db.put(b"k".to_vec(), b"old".to_vec()).expect("cant put");
    db.put(b"l".to_vec(), b"stale".to_vec()).expect("cant put");
    db._swap_and_compact();
    db.put(b"k".to_vec(), b"new".to_vec()).expect("cant put");
    db.delete(b"l".to_vec()).expect("cant delete");
    // the active live entry hides the frozen one
    assert_eq!(db.get(b"k".as_slice()), Ok(Some(b"new".to_vec())));
    // the active tombstone hides the frozen live entry
    assert_eq!(db.get(b"l".as_slice()), Ok(None));
    // each key appears at most once, with the active value
    assert_eq!(
        db.seek(b"".as_slice()).expect("cant seek").into_vec(),
        vec![(b"k".to_vec(), b"new".to_vec())]
    );
}

#[test]
fn reaching_the_threshold_freezes_inline() {
    let mut db = DB::open(b"/tmp/hello".as_slice()).expect("failed to open");
    let big = vec![b'x'; 1024 * 1024];
    db.put(b"big".to_vec(), big.clone()).expect("cant put big");
    // the write crossed the threshold: the active mapping was retired
    assert!(db.memtable_frozen.is_some());
    assert_eq!(db.memtable_size, 0);
    // the frozen binding is still readable and scannable
    assert_eq!(db.get(b"big".as_slice()), Ok(Some(big.clone())));
    assert_eq!(
        db.seek(b"big".as_slice()).expect("cant seek").into_vec(),
        vec![(b"big".to_vec(), big)]
    );
}

#[test]
fn scan_stops_at_the_end_of_the_prefix_range() {
    let mut db = DB::open(b"/tmp/hello".as_slice()).expect("failed to open");
    db.put(b"a/1".to_vec(), b"x".to_vec()).expect("cant put");
    db.put(b"a/2".to_vec(), b"y".to_vec()).expect("cant put");
    db.put(b"b/1".to_vec(), b"z".to_vec()).expect("cant put");
    let mut it = db.seek(b"a/".as_slice()).expect("cant seek");
    assert_eq!(it.next(), Some((b"a/1".to_vec(), b"x".to_vec())));
    assert_eq!(it.next(), Some((b"a/2".to_vec(), b"y".to_vec())));
    assert_eq!(it.next(), None);
    // the cursor stays exhausted once the prefix range has been left
    assert_eq!(it.next(), None);
}

#[test]
fn scan_on_an_empty_store_is_empty() {
    let db = DB::open(b"/tmp/hello".as_slice()).expect("failed to open");
    assert_eq!(db.seek(b"".as_slice()).expect("cant seek").into_vec(), vec![]);
    assert_eq!(db.get(b"k".as_slice()), Ok(None));
}
