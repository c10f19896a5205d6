use std::sync::Mutex;

use checkpoint_core::event::{EventListener, FlushJobInfo};
use checkpoint_core::store::Store;
use checkpoint_core::Error;

#[test]
fn test_put_get_delete() {
    let mut db = Store::open(b"bytewise".to_vec());
    let cf = b"default".to_vec();
    db.create_cf(&cf).unwrap();

    assert!(db.get(&cf, &b"k".to_vec()).unwrap().is_none());
    db.put(&cf, &b"k".to_vec(), &b"v1".to_vec()).unwrap();
    assert_eq!(db.get(&cf, &b"k".to_vec()).unwrap().unwrap(), b"v1".to_vec());
    db.put(&cf, &b"k".to_vec(), &b"v2".to_vec()).unwrap();
    assert_eq!(db.get(&cf, &b"k".to_vec()).unwrap().unwrap(), b"v2".to_vec());
    db.delete(&cf, &b"k".to_vec()).unwrap();
    assert!(db.get(&cf, &b"k".to_vec()).unwrap().is_none());

    // Operations against a family that is not open report an engine failure.
    assert_eq!(db.put(&b"nope".to_vec(), &b"k".to_vec(), &b"v".to_vec()), Err(Error::EngineError));
    assert_eq!(db.get(&b"nope".to_vec(), &b"k".to_vec()), Err(Error::EngineError));
    assert_eq!(db.delete(&b"nope".to_vec(), &b"k".to_vec()), Err(Error::EngineError));

    // A second family with the same name is refused.
    assert_eq!(db.create_cf(&cf), Err(Error::AlreadyExists));

    assert_eq!(db.comparator_name(), b"bytewise".to_vec());
    assert_eq!(Error::EngineError.message(), "the storage engine reported a failure");
}

struct Recorder {
    seen: Mutex<Vec<(String, Vec<u8>, u64, u64)>>,
}

impl EventListener for Recorder {
    fn on_flush_begin(&self, info: &FlushJobInfo) {
        self.seen.lock().unwrap().push((
            "begin".to_string(),
            info.cf_name(),
            info.smallest_seqno(),
            info.largest_seqno(),
        ));
    }

    fn on_flush_completed(&self, info: &FlushJobInfo) {
        self.seen.lock().unwrap().push((
            "completed".to_string(),
            info.cf_name(),
            info.smallest_seqno(),
            info.largest_seqno(),
        ));
    }
}

#[test]
fn test_flush_events() {
    let mut db = Store::open(b"bytewise".to_vec());
    let cf = b"default".to_vec();
    db.create_cf(&cf).unwrap();
    db.put(&cf, &b"a".to_vec(), &b"1".to_vec()).unwrap();
    db.put(&cf, &b"b".to_vec(), &b"2".to_vec()).unwrap();

    let listener = Recorder { seen: Mutex::new(Vec::new()) };
    db.flush(&cf, &listener).unwrap();

    let seen = listener.seen.lock().unwrap();
    assert_eq!(seen.len(), 2);
    assert_eq!(seen[0], ("begin".to_string(), b"default".to_vec(), 0, 1));
    assert_eq!(seen[1], ("completed".to_string(), b"default".to_vec(), 0, 1));
    drop(seen);

    assert_eq!(db.flush(&b"nope".to_vec(), &listener), Err(Error::EngineError));
}
