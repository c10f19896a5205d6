use checkpoint_core::checkpoint::{open_at, Checkpoint};
use checkpoint_core::fs::Fs;
use checkpoint_core::store::Store;

fn default_store() -> Store {
    let mut db = Store::open(b"leveldb.BytewiseComparator".to_vec());
    db.create_cf(&b"default".to_vec()).unwrap();
    db
}

#[test]
pub fn test_single_checkpoint() {
    const PATH_PREFIX: &str = "_rust_rocksdb_cp_single_";

    let mut fs = Fs::new();
    let mut db = default_store();
    let d = b"default".to_vec();

    db.put(&d, &b"k1".to_vec(), &b"v1".to_vec()).unwrap();
    db.put(&d, &b"k2".to_vec(), &b"v2".to_vec()).unwrap();
    db.put(&d, &b"k3".to_vec(), &b"v3".to_vec()).unwrap();
    db.put(&d, &b"k4".to_vec(), &b"v4".to_vec()).unwrap();

    let cp1 = Checkpoint::new(&db).unwrap();
    let cp1_path = format!("{PATH_PREFIX}cp1").into_bytes();
    cp1.create_checkpoint(&mut fs, &cp1_path).unwrap();

    let cp = open_at(&fs, &cp1_path).unwrap();

    assert_eq!(cp.get(&d, &b"k1".to_vec()).unwrap().unwrap(), b"v1".to_vec());
    assert_eq!(cp.get(&d, &b"k2".to_vec()).unwrap().unwrap(), b"v2".to_vec());
    assert_eq!(cp.get(&d, &b"k3".to_vec()).unwrap().unwrap(), b"v3".to_vec());
    assert_eq!(cp.get(&d, &b"k4".to_vec()).unwrap().unwrap(), b"v4".to_vec());
}

#[test]
pub fn test_multi_checkpoints() {
    const PATH_PREFIX: &str = "_rust_rocksdb_cp_multi_";

    let mut fs = Fs::new();
    let mut db = default_store();
    let d = b"default".to_vec();

    db.put(&d, &b"k1".to_vec(), &b"v1".to_vec()).unwrap();
    db.put(&d, &b"k2".to_vec(), &b"v2".to_vec()).unwrap();
    db.put(&d, &b"k3".to_vec(), &b"v3".to_vec()).unwrap();
    db.put(&d, &b"k4".to_vec(), &b"v4".to_vec()).unwrap();

    let cp1 = Checkpoint::new(&db).unwrap();
    let cp1_path = format!("{PATH_PREFIX}cp1").into_bytes();
    cp1.create_checkpoint(&mut fs, &cp1_path).unwrap();

    let cp = open_at(&fs, &cp1_path).unwrap();

    assert_eq!(cp.get(&d, &b"k1".to_vec()).unwrap().unwrap(), b"v1".to_vec());
    assert_eq!(cp.get(&d, &b"k2".to_vec()).unwrap().unwrap(), b"v2".to_vec());
    assert_eq!(cp.get(&d, &b"k3".to_vec()).unwrap().unwrap(), b"v3".to_vec());
    assert_eq!(cp.get(&d, &b"k4".to_vec()).unwrap().unwrap(), b"v4".to_vec());

    // Change some existing keys
    db.put(&d, &b"k1".to_vec(), &b"modified".to_vec()).unwrap();
    db.put(&d, &b"k2".to_vec(), &b"changed".to_vec()).unwrap();

    // Add some new keys
    db.put(&d, &b"k5".to_vec(), &b"v5".to_vec()).unwrap();
    db.put(&d, &b"k6".to_vec(), &b"v6".to_vec()).unwrap();

    let cp2 = Checkpoint::new(&db).unwrap();
    let cp2_path = format!("{PATH_PREFIX}cp2").into_bytes();
    cp2.create_checkpoint(&mut fs, &cp2_path).unwrap();

    let cp = open_at(&fs, &cp2_path).unwrap();

    assert_eq!(cp.get(&d, &b"k1".to_vec()).unwrap().unwrap(), b"modified".to_vec());
    assert_eq!(cp.get(&d, &b"k2".to_vec()).unwrap().unwrap(), b"changed".to_vec());
    assert_eq!(cp.get(&d, &b"k5".to_vec()).unwrap().unwrap(), b"v5".to_vec());
    assert_eq!(cp.get(&d, &b"k6".to_vec()).unwrap().unwrap(), b"v6".to_vec());

    // The first checkpoint is untouched: it still shows the original values
    // and none of the later writes.
    let cp = open_at(&fs, &cp1_path).unwrap();
    assert_eq!(cp.get(&d, &b"k1".to_vec()).unwrap().unwrap(), b"v1".to_vec());
    assert_eq!(cp.get(&d, &b"k2".to_vec()).unwrap().unwrap(), b"v2".to_vec());
    assert!(cp.get(&d, &b"k5".to_vec()).unwrap().is_none());
    assert!(cp.get(&d, &b"k6".to_vec()).unwrap().is_none());
}

#[test]
fn test_export_column_family() {
    const PATH_PREFIX: &str = "_rust_rocksdb_export_column_family_";

    let mut fs = Fs::new();
    let mut origin_db = default_store();
    let d = b"default".to_vec();

    assert!(origin_db.create_cf(&b"cf1".to_vec()).is_ok());
    assert!(origin_db.create_cf(&b"cf2".to_vec()).is_ok());
    assert!(origin_db.has_cf(&b"cf1".to_vec()));
    assert!(origin_db.has_cf(&b"cf2".to_vec()));

    assert!(origin_db.put(&d, &b"0".to_vec(), &b"0".to_vec()).is_ok());
    let cf1 = b"cf1".to_vec();
    assert!(origin_db.put(&cf1, &b"1".to_vec(), &b"1".to_vec()).is_ok());
    let cf2 = b"cf2".to_vec();
    assert!(origin_db.put(&cf2, &b"2".to_vec(), &b"2".to_vec()).is_ok());

    let checkpoint = Checkpoint::new(&origin_db);
    assert!(checkpoint.is_ok());
    let checkpoint = checkpoint.unwrap();

    let export_path = format!("{}db1_backup", PATH_PREFIX).into_bytes();
    let result = checkpoint.export_column_family(&mut fs, &cf1, &export_path);
    assert!(result.is_ok());
    let metadata = result.unwrap();

    let mut recover_db = Store::open(b"leveldb.BytewiseComparator".to_vec());
    assert!(!recover_db.has_cf(&b"cf1".to_vec()));
    assert!(!recover_db.has_cf(&b"cf2".to_vec()));
    let result = recover_db.create_cf_with_import(&b"cf1".to_vec(), &metadata, &fs);
    assert!(result.is_ok());
    assert!(recover_db.has_cf(&b"cf1".to_vec()));
    assert_eq!(recover_db.get(&cf1, &b"1".to_vec()).unwrap().unwrap(), b"1".to_vec());
    assert!(!recover_db.has_cf(&b"cf2".to_vec()));
    assert!(recover_db.get(&cf1, &b"2".to_vec()).unwrap().is_none());
}

#[test]
fn test_checkpoint_path_taken() {
    let mut fs = Fs::new();
    let mut db = default_store();
    let d = b"default".to_vec();
    db.put(&d, &b"k".to_vec(), &b"v".to_vec()).unwrap();

    let cp = Checkpoint::new(&db).unwrap();
    cp.create_checkpoint(&mut fs, &b"cp".to_vec()).unwrap();
    let again = cp.create_checkpoint(&mut fs, &b"cp".to_vec());
    assert_eq!(again, Err(checkpoint_core::Error::PathError));
    // An export into an occupied directory is refused the same way.
    let exported = cp.export_column_family(&mut fs, &d, &b"cp".to_vec());
    assert!(matches!(exported, Err(checkpoint_core::Error::PathError)));
    // Opening something that is not a checkpoint directory fails.
    assert!(open_at(&fs, &b"nowhere".to_vec()).is_err());
}
