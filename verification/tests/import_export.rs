use checkpoint_core::checkpoint::Checkpoint;
use checkpoint_core::fs::Fs;
use checkpoint_core::store::Store;
use checkpoint_core::Error;

fn store_with(comparator: &[u8], cf: &[u8], pairs: &[(&[u8], &[u8])]) -> Store {
    let mut db = Store::open(comparator.to_vec());
    db.create_cf(&cf.to_vec()).unwrap();
    for (k, v) in pairs {
        db.put(&cf.to_vec(), &k.to_vec(), &v.to_vec()).unwrap();
    }
    db
}

#[test]
fn test_import_comparator_mismatch() {
    let mut fs = Fs::new();
    let db = store_with(b"bytewise", b"cf1", &[(b"k", b"v")]);
    let cp = Checkpoint::new(&db).unwrap();
    let bundle = cp.export_column_family(&mut fs, &b"cf1".to_vec(), &b"exp".to_vec()).unwrap();

    let mut dst = Store::open(b"reverse-bytewise".to_vec());
    let r = dst.create_cf_with_import(&b"cf1".to_vec(), &bundle, &fs);
    assert_eq!(r, Err(Error::ComparatorMismatch));
    // The destination's column family set is unchanged.
    assert!(!dst.has_cf(&b"cf1".to_vec()));
    assert_eq!(dst.cfs.len(), 0);
}

#[test]
fn test_import_missing_file() {
    let mut fs = Fs::new();
    let db = store_with(b"bytewise", b"cf1", &[(b"k", b"v")]);
    let cp = Checkpoint::new(&db).unwrap();
    let bundle = cp.export_column_family(&mut fs, &b"cf1".to_vec(), &b"exp".to_vec()).unwrap();

    // The exported file disappears before the import runs.
    fs.dirs.clear();

    let mut dst = Store::open(b"bytewise".to_vec());
    let r = dst.create_cf_with_import(&b"cf1".to_vec(), &bundle, &fs);
    assert_eq!(r, Err(Error::MissingFile));
    // The destination column family was not created: no partial registration.
    assert!(!dst.has_cf(&b"cf1".to_vec()));
    assert_eq!(dst.cfs.len(), 0);
}

#[test]
fn test_import_already_exists() {
    let mut fs = Fs::new();
    let db = store_with(b"bytewise", b"cf1", &[(b"k", b"v")]);
    let cp = Checkpoint::new(&db).unwrap();
    let bundle = cp.export_column_family(&mut fs, &b"cf1".to_vec(), &b"exp".to_vec()).unwrap();

    let mut dst = store_with(b"bytewise", b"cf1", &[]);
    let r = dst.create_cf_with_import(&b"cf1".to_vec(), &bundle, &fs);
    assert_eq!(r, Err(Error::AlreadyExists));
}

#[test]
fn test_export_import_empty_family() {
    let mut fs = Fs::new();
    let db = store_with(b"bytewise", b"cf1", &[]);
    let cp = Checkpoint::new(&db).unwrap();
    let bundle = cp.export_column_family(&mut fs, &b"cf1".to_vec(), &b"exp".to_vec()).unwrap();
    assert_eq!(bundle.files.len(), 0);

    let mut dst = Store::open(b"bytewise".to_vec());
    dst.create_cf_with_import(&b"cf1".to_vec(), &bundle, &fs).unwrap();
    assert!(dst.has_cf(&b"cf1".to_vec()));
    assert!(dst.get(&b"cf1".to_vec(), &b"k".to_vec()).unwrap().is_none());
}

#[test]
fn test_export_bundle_statistics() {
    let mut fs = Fs::new();
    let db = store_with(
        b"bytewise",
        b"cf1",
        &[(b"mango", b"1"), (b"apple", b"2"), (b"peach", b"3")],
    );
    let cp = Checkpoint::new(&db).unwrap();
    let bundle = cp.export_column_family(&mut fs, &b"cf1".to_vec(), &b"exp".to_vec()).unwrap();

    assert_eq!(bundle.db_comparator_name, b"bytewise".to_vec());
    assert_eq!(bundle.files.len(), 1);
    let fm = &bundle.files[0];
    assert_eq!(fm.column_family_name, b"cf1".to_vec());
    assert_eq!(fm.directory, b"exp".to_vec());
    assert_eq!(fm.num_entries, 3);
    assert_eq!(fm.smallestkey, b"apple".to_vec());
    assert_eq!(fm.largestkey, b"peach".to_vec());
    assert_eq!(fm.smallest_seqno, 0);
    assert_eq!(fm.largest_seqno, 2);
    assert!(fm.smallest_seqno <= fm.largest_seqno);
}

#[test]
fn test_export_missing_family() {
    let mut fs = Fs::new();
    let db = store_with(b"bytewise", b"cf1", &[]);
    let cp = Checkpoint::new(&db).unwrap();
    let r = cp.export_column_family(&mut fs, &b"cf9".to_vec(), &b"exp".to_vec());
    assert_eq!(r.err(), Some(Error::EngineError));
}
