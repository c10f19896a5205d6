//! An open store: column families of byte-keyed entries, each write stamped
//! with a monotonically increasing sequence number.

use vstd::prelude::*;

use crate::bytes::{bytes_eq, copy_bytes};
use crate::Error;

verus! {

/// One live key/value pair, with the sequence number of the write that
/// produced it.
pub struct Entry {
    /// The key.
    pub key: Vec<u8>,
    /// The value.
    pub value: Vec<u8>,
    /// Sequence number of the write.
    pub seqno: u64,
}

/// Mathematical value of an [`Entry`].
#[verifier::ext_equal]
pub ghost struct EntryView {
    pub key: Seq<u8>,
    pub value: Seq<u8>,
    pub seqno: u64,
}

impl View for Entry {
    type V = EntryView;

    open spec fn view(&self) -> EntryView {
        EntryView { key: self.key@, value: self.value@, seqno: self.seqno }
    }
}

/// The views of a sequence of entries.
pub open spec fn entries_view(es: Seq<Entry>) -> Seq<EntryView> {
    es.map_values(|e: Entry| e@)
}

/// The key/value map described by a sequence of entries; a later entry for
/// the same key wins.
pub open spec fn entries_map(es: Seq<EntryView>) -> Map<Seq<u8>, Seq<u8>>
    decreases es.len(),
{
    if es.len() == 0 {
        Map::empty()
    } else {
        entries_map(es.drop_last()).insert(es.last().key, es.last().value)
    }
}

/// Whether no two entries carry the same key.
pub open spec fn keys_unique(es: Seq<EntryView>) -> bool {
    forall|p: int, q: int| 0 <= p < q < es.len() ==> es[p].key != es[q].key
}

/// A key is in the map exactly when some entry carries it.
pub proof fn lemma_entries_map_domain(es: Seq<EntryView>)
    ensures
        forall|k: Seq<u8>|
            entries_map(es).contains_key(k) <==> (exists|p: int|
                0 <= p < es.len() && (#[trigger] es[p]).key == k),
    decreases es.len(),
{
    if es.len() > 0 {
        lemma_entries_map_domain(es.drop_last());
        assert forall|k: Seq<u8>| entries_map(es).contains_key(k) implies (exists|p: int|
            0 <= p < es.len() && (#[trigger] es[p]).key == k) by {
            if es.last().key == k {
                assert(es[es.len() - 1].key == k);
            } else {
                assert(entries_map(es.drop_last()).contains_key(k));
                let p = choose|p: int|
                    0 <= p < es.drop_last().len() && (#[trigger] es.drop_last()[p]).key == k;
                assert(es.drop_last()[p] == es[p]);
                assert(es[p].key == k);
            }
        }
        assert forall|k: Seq<u8>|
            (exists|p: int| 0 <= p < es.len() && (#[trigger] es[p]).key == k) implies entries_map(
            es,
        ).contains_key(k) by {
            let p = choose|p: int| 0 <= p < es.len() && (#[trigger] es[p]).key == k;
            if p < es.len() - 1 {
                assert(es.drop_last()[p].key == k);
                assert(entries_map(es.drop_last()).contains_key(k));
            } else {
                assert(es.last().key == k);
            }
        }
    }
}

/// Under unique keys, the map sends each entry's key to that entry's value.
pub proof fn lemma_entries_map_index(es: Seq<EntryView>, i: int)
    requires
        keys_unique(es),
        0 <= i < es.len(),
    ensures
        entries_map(es).contains_key(es[i].key),
        entries_map(es)[es[i].key] == es[i].value,
    decreases es.len(),
{
    if i == es.len() - 1 {
    } else {
        assert(keys_unique(es.drop_last())) by {
            assert(forall|p: int, q: int|
                0 <= p < q < es.drop_last().len() ==> es.drop_last()[p].key != es.drop_last()[q].key);
        }
        assert(es.drop_last()[i] == es[i]);
        lemma_entries_map_index(es.drop_last(), i);
        assert(es[i].key != es.last().key);
    }
}

/// Under unique keys, removing the entry at `i` removes exactly its key from
/// the map.
pub proof fn lemma_entries_map_remove(es: Seq<EntryView>, i: int)
    requires
        keys_unique(es),
        0 <= i < es.len(),
    ensures
        entries_map(es.remove(i)) == entries_map(es).remove(es[i].key),
    decreases es.len(),
{
    let k = es[i].key;
    if i == es.len() - 1 {
        assert(es.remove(i) =~= es.drop_last());
        lemma_entries_map_domain(es.drop_last());
        assert forall|p: int| 0 <= p < es.drop_last().len() implies (#[trigger] es.drop_last()[p]).key
            != k by {
            assert(es[p] == es.drop_last()[p]);
        }
        assert(!entries_map(es.drop_last()).contains_key(k));
        assert(entries_map(es.drop_last()) =~= entries_map(es).remove(k));
    } else {
        let dl = es.drop_last();
        assert(keys_unique(dl)) by {
            assert(forall|p: int, q: int| 0 <= p < q < dl.len() ==> dl[p].key != dl[q].key);
        }
        assert(dl[i] == es[i]);
        lemma_entries_map_remove(dl, i);
        assert(es.remove(i).drop_last() =~= dl.remove(i));
        assert(es.remove(i).last() == es.last());
        assert(entries_map(es.remove(i)) == entries_map(dl.remove(i)).insert(
            es.last().key,
            es.last().value,
        ));
        assert(es.last().key != k);
        assert(entries_map(dl).remove(k).insert(es.last().key, es.last().value) =~= entries_map(
            dl,
        ).insert(es.last().key, es.last().value).remove(k));
    }
}

/// Finds the index of the entry carrying `key`, if any.
pub(crate) fn find_entry(es: &Vec<Entry>, key: &Vec<u8>) -> (r: Option<usize>)
    ensures
        match r {
            Some(i) => i < es@.len() && es@[i as int]@.key == key@,
            None => forall|p: int| 0 <= p < es@.len() ==> (#[trigger] es@[p])@.key != key@,
        },
{
    let mut i: usize = 0;
    while i < es.len()
        invariant
            i <= es@.len(),
            forall|p: int| 0 <= p < i ==> (#[trigger] es@[p])@.key != key@,
        decreases es@.len() - i,
    {
        if bytes_eq(&es[i].key, key) {
            return Some(i);
        }
        i = i + 1;
    }
    None
}

/// Inserts or replaces the entry for `key`, keeping keys unique.
pub(crate) fn upsert(es: &mut Vec<Entry>, key: &Vec<u8>, value: &Vec<u8>, seqno: u64)
    requires
        keys_unique(entries_view(old(es)@)),
    ensures
        keys_unique(entries_view(final(es)@)),
        entries_map(entries_view(final(es)@)) == entries_map(entries_view(old(es)@)).insert(
            key@,
            value@,
        ),
{
    let ghost before = entries_view(es@);
    let found = find_entry(es, key);
    let entry = Entry { key: copy_bytes(key), value: copy_bytes(value), seqno };
    match found {
        Some(i) => {
            es.remove(i);
            let ghost mid = entries_view(es@);
            proof {
                assert(mid =~= before.remove(i as int));
                lemma_entries_map_remove(before, i as int);
                assert(keys_unique(mid)) by {
                    assert forall|p: int, q: int| 0 <= p < q < mid.len() implies mid[p].key
                        != mid[q].key by {
                        let p0 = if p < i { p } else { p + 1 };
                        let q0 = if q < i { q } else { q + 1 };
                        assert(before[p0] == mid[p] && before[q0] == mid[q]);
                    }
                }
                assert forall|p: int| 0 <= p < mid.len() implies (#[trigger] mid[p]).key
                    != key@ by {
                    let p0 = if p < i { p } else { p + 1 };
                    assert(before[p0] == mid[p]);
                }
            }
            es.push(entry);
            proof {
                assert(entries_view(es@) =~= mid.push(entry@));
                assert(entries_view(es@).drop_last() =~= mid);
                assert(entries_map(entries_view(es@)) == entries_map(mid).insert(key@, value@));
                assert(entries_map(mid).insert(key@, value@) =~= entries_map(before).insert(
                    key@,
                    value@,
                ));
                assert(keys_unique(entries_view(es@))) by {
                    let whole = entries_view(es@);
                    assert forall|p: int, q: int| 0 <= p < q < whole.len() implies whole[p].key
                        != whole[q].key by {
                        if q == whole.len() - 1 {
                            assert(whole[p] == mid[p]);
                        } else {
                            assert(whole[p] == mid[p] && whole[q] == mid[q]);
                        }
                    }
                }
            }
        },
        None => {
            es.push(entry);
            proof {
                assert(entries_view(es@) =~= before.push(entry@));
                assert(entries_view(es@).drop_last() =~= before);
                assert(entries_map(entries_view(es@)) == entries_map(before).insert(key@, value@));
                assert(keys_unique(entries_view(es@))) by {
                    let whole = entries_view(es@);
                    assert forall|p: int, q: int| 0 <= p < q < whole.len() implies whole[p].key
                        != whole[q].key by {
                        if q == whole.len() - 1 {
                            assert(whole[p] == before[p]);
                        } else {
                            assert(whole[p] == before[p] && whole[q] == before[q]);
                        }
                    }
                }
            }
        },
    }
}

/// Returns a fresh sequence of entries with the same views.
pub(crate) fn copy_entries(es: &Vec<Entry>) -> (r: Vec<Entry>)
    ensures
        entries_view(r@) == entries_view(es@),
{
    let mut out: Vec<Entry> = Vec::new();
    let mut i: usize = 0;
    while i < es.len()
        invariant
            i <= es@.len(),
            out@.len() == i,
            forall|j: int| 0 <= j < i ==> (#[trigger] out@[j])@ == es@[j]@,
        decreases es@.len() - i,
    {
        let e = Entry {
            key: copy_bytes(&es[i].key),
            value: copy_bytes(&es[i].value),
            seqno: es[i].seqno,
        };
        proof {
            assert(e@ =~= es@[i as int]@);
        }
        out.push(e);
        i = i + 1;
    }
    proof {
        assert forall|j: int| 0 <= j < es@.len() implies entries_view(out@)[j] == entries_view(
            es@,
        )[j] by {
            assert(entries_view(out@)[j] == out@[j]@);
            assert(entries_view(es@)[j] == es@[j]@);
        }
        assert(entries_view(out@) =~= entries_view(es@));
    }
    out
}

/// Returns a fresh sequence of column families with the same views.
pub(crate) fn copy_cfs(cfs: &Vec<Cf>) -> (r: Vec<Cf>)
    ensures
        cfs_view(r@) == cfs_view(cfs@),
{
    let mut out: Vec<Cf> = Vec::new();
    let mut i: usize = 0;
    while i < cfs.len()
        invariant
            i <= cfs@.len(),
            out@.len() == i,
            forall|j: int| 0 <= j < i ==> (#[trigger] out@[j])@ == cfs@[j]@,
        decreases cfs@.len() - i,
    {
        let c = Cf { name: copy_bytes(&cfs[i].name), entries: copy_entries(&cfs[i].entries) };
        proof {
            assert(c@ =~= cfs@[i as int]@);
        }
        out.push(c);
        i = i + 1;
    }
    proof {
        assert forall|j: int| 0 <= j < cfs@.len() implies cfs_view(out@)[j] == cfs_view(cfs@)[j] by {
            assert(cfs_view(out@)[j] == out@[j]@);
            assert(cfs_view(cfs@)[j] == cfs@[j]@);
        }
        assert(cfs_view(out@) =~= cfs_view(cfs@));
    }
    out
}

/// One column family: a name and its live entries.
pub struct Cf {
    /// The column family's name.
    pub name: Vec<u8>,
    /// The live entries, with pairwise distinct keys.
    pub entries: Vec<Entry>,
}

/// Mathematical value of a [`Cf`].
#[verifier::ext_equal]
pub ghost struct CfView {
    pub name: Seq<u8>,
    pub entries: Seq<EntryView>,
}

impl View for Cf {
    type V = CfView;

    open spec fn view(&self) -> CfView {
        CfView { name: self.name@, entries: entries_view(self.entries@) }
    }
}

impl CfView {
    /// The key/value map the column family holds.
    pub open spec fn content(self) -> Map<Seq<u8>, Seq<u8>> {
        entries_map(self.entries)
    }

    /// Keys are unique.
    pub open spec fn wf(self) -> bool {
        keys_unique(self.entries)
    }
}

/// The views of a sequence of column families.
pub open spec fn cfs_view(cfs: Seq<Cf>) -> Seq<CfView> {
    cfs.map_values(|c: Cf| c@)
}

/// An open store.
pub struct Store {
    /// Name of the comparator ordering every column family's keys.
    pub comparator: Vec<u8>,
    /// Sequence number the next write will receive.
    pub next_seqno: u64,
    /// The column families, with pairwise distinct names.
    pub cfs: Vec<Cf>,
}

/// Mathematical value of a [`Store`].
#[verifier::ext_equal]
pub ghost struct StoreView {
    pub comparator: Seq<u8>,
    pub next_seqno: u64,
    pub cfs: Seq<CfView>,
}

impl View for Store {
    type V = StoreView;

    open spec fn view(&self) -> StoreView {
        StoreView { comparator: self.comparator@, next_seqno: self.next_seqno, cfs: cfs_view(self.cfs@) }
    }
}

impl StoreView {
    /// Column family names are unique, and each family is well formed.
    pub open spec fn wf(self) -> bool {
        &&& forall|i: int, j: int| 0 <= i < j < self.cfs.len() ==> self.cfs[i].name != self.cfs[j].name
        &&& forall|i: int| 0 <= i < self.cfs.len() ==> (#[trigger] self.cfs[i]).wf()
    }

    /// Whether a column family of that name is open.
    pub open spec fn has_cf(self, name: Seq<u8>) -> bool {
        exists|i: int| 0 <= i < self.cfs.len() && (#[trigger] self.cfs[i]).name == name
    }

    /// The index of the column family of that name.
    pub open spec fn cf_idx(self, name: Seq<u8>) -> int {
        choose|i: int| 0 <= i < self.cfs.len() && (#[trigger] self.cfs[i]).name == name
    }

    /// The key/value map of the column family of that name.
    pub open spec fn cf_content(self, name: Seq<u8>) -> Map<Seq<u8>, Seq<u8>> {
        self.cfs[self.cf_idx(name)].content()
    }
}

/// Under unique names, the index of a family's name is that family's
/// position.
pub proof fn lemma_cf_idx(sv: StoreView, i: int)
    requires
        sv.wf(),
        0 <= i < sv.cfs.len(),
    ensures
        sv.has_cf(sv.cfs[i].name),
        sv.cf_idx(sv.cfs[i].name) == i,
{
    let name = sv.cfs[i].name;
    assert(sv.has_cf(name));
    let j = sv.cf_idx(name);
    assert(0 <= j < sv.cfs.len() && sv.cfs[j].name == name);
}

impl Store {
    /// Opens a fresh, empty store whose key order is named `comparator`.
    pub fn open(comparator: Vec<u8>) -> (s: Store)
        ensures
            s@.wf(),
            s@.comparator == comparator@,
            s@.next_seqno == 0,
            s@.cfs.len() == 0,
    {
        let s = Store { comparator, next_seqno: 0, cfs: Vec::new() };
        proof {
            assert(cfs_view(s.cfs@) =~= Seq::<CfView>::empty());
        }
        s
    }

    /// The name of the store's comparator.
    pub fn comparator_name(&self) -> (r: Vec<u8>)
        ensures
            r@ == self@.comparator,
    {
        copy_bytes(&self.comparator)
    }

    /// The index of the column family named `name`, if it is open.
    pub(crate) fn find_cf(&self, name: &Vec<u8>) -> (r: Option<usize>)
        ensures
            match r {
                Some(i) => {
                    &&& i < self@.cfs.len()
                    &&& self@.cfs[i as int].name == name@
                    &&& self@.has_cf(name@)
                    &&& self@.wf() ==> self@.cf_idx(name@) == i
                },
                None => !self@.has_cf(name@),
            },
    {
        let mut i: usize = 0;
        while i < self.cfs.len()
            invariant
                i <= self@.cfs.len(),
                self@.cfs.len() == self.cfs@.len(),
                forall|p: int| 0 <= p < i ==> (#[trigger] self@.cfs[p]).name != name@,
            decreases self.cfs@.len() - i,
        {
            if bytes_eq(&self.cfs[i].name, name) {
                proof {
                    if self@.wf() {
                        lemma_cf_idx(self@, i as int);
                    }
                }
                return Some(i);
            }
            i = i + 1;
        }
        None
    }

    /// Whether a column family of that name is open.
    pub fn has_cf(&self, name: &Vec<u8>) -> (r: bool)
        ensures
            r == self@.has_cf(name@),
    {
        match self.find_cf(name) {
            Some(_) => true,
            None => false,
        }
    }

    /// Opens a new, empty column family. Fails when the name is taken, and
    /// then changes nothing.
    pub fn create_cf(&mut self, name: &Vec<u8>) -> (r: Result<(), Error>)
        requires
            old(self)@.wf(),
        ensures
            final(self)@.wf(),
            match r {
                Ok(()) => {
                    &&& !old(self)@.has_cf(name@)
                    &&& final(self)@.cfs == old(self)@.cfs.push(
                        CfView { name: name@, entries: Seq::empty() },
                    )
                    &&& final(self)@.comparator == old(self)@.comparator
                    &&& final(self)@.next_seqno == old(self)@.next_seqno
                },
                Err(e) => {
                    &&& e == Error::AlreadyExists
                    &&& old(self)@.has_cf(name@)
                    &&& final(self)@ == old(self)@
                },
            },
    {
        match self.find_cf(name) {
            Some(_) => Err(Error::AlreadyExists),
            None => {
                let cf = Cf { name: copy_bytes(name), entries: Vec::new() };
                proof {
                    assert(cf@.entries =~= Seq::<EntryView>::empty());
                }
                let ghost before = self@;
                self.cfs.push(cf);
                proof {
                    assert(self@.cfs =~= before.cfs.push(
                        CfView { name: name@, entries: Seq::empty() },
                    ));
                    assert forall|i: int, j: int|
                        0 <= i < j < self@.cfs.len() implies self@.cfs[i].name
                        != self@.cfs[j].name by {
                        if j < self@.cfs.len() - 1 {
                            assert(before.cfs[i] == self@.cfs[i] && before.cfs[j] == self@.cfs[j]);
                        } else {
                            assert(before.cfs[i] == self@.cfs[i]);
                        }
                    }
                    assert forall|i: int| 0 <= i < self@.cfs.len() implies (
                    #[trigger] self@.cfs[i]).wf() by {
                        if i < self@.cfs.len() - 1 {
                            assert(before.cfs[i] == self@.cfs[i]);
                        }
                    }
                }
                Ok(())
            },
        }
    }

    /// Writes `value` under `key` in the column family named `cf`. Fails,
    /// changing nothing, when no such family is open or the sequence numbers
    /// are exhausted.
    pub fn put(&mut self, cf: &Vec<u8>, key: &Vec<u8>, value: &Vec<u8>) -> (r: Result<(), Error>)
        requires
            old(self)@.wf(),
        ensures
            final(self)@.wf(),
            match r {
                Ok(()) => {
                    &&& old(self)@.has_cf(cf@)
                    &&& old(self)@.next_seqno < u64::MAX
                    &&& final(self)@.comparator == old(self)@.comparator
                    &&& final(self)@.next_seqno == old(self)@.next_seqno + 1
                    &&& final(self)@.cfs.len() == old(self)@.cfs.len()
                    &&& forall|j: int|
                        0 <= j < old(self)@.cfs.len() && j != old(self)@.cf_idx(cf@)
                            ==> final(self)@.cfs[j] == old(self)@.cfs[j]
                    &&& final(self)@.cfs[old(self)@.cf_idx(cf@)].name == cf@
                    &&& final(self)@.cf_content(cf@) == old(self)@.cf_content(cf@).insert(
                        key@,
                        value@,
                    )
                },
                Err(e) => {
                    &&& e == Error::EngineError
                    &&& !old(self)@.has_cf(cf@) || old(self)@.next_seqno == u64::MAX
                    &&& final(self)@ == old(self)@
                },
            },
    {
        let idx = match self.find_cf(cf) {
            Some(i) => i,
            None => {
                return Err(Error::EngineError);
            },
        };
        if self.next_seqno == u64::MAX {
            return Err(Error::EngineError);
        }
        let ghost before = self@;
        let ghost before_vec = self.cfs@;
        let seqno = self.next_seqno;
        self.next_seqno = seqno + 1;
        let mut slot = self.cfs.remove(idx);
        let ghost mid_vec = self.cfs@;
        upsert(&mut slot.entries, key, value, seqno);
        let ghost slotval = slot;
        self.cfs.insert(idx, slot);
        proof {
            lemma_cfs_put_back(before_vec, mid_vec, self.cfs@, idx as int, slotval);
            assert(slotval@.name == cf@);
            assert(slotval@.wf());
            lemma_store_update(before, self@, idx as int, cf@);
            assert(self@.cf_content(cf@) == before.cf_content(cf@).insert(key@, value@));
        }
        Ok(())
    }

    /// Removes the entry under `key` in the column family named `cf`, if one
    /// is present. Fails, changing nothing, when no such family is open or
    /// the sequence numbers are exhausted.
    pub fn delete(&mut self, cf: &Vec<u8>, key: &Vec<u8>) -> (r: Result<(), Error>)
        requires
            old(self)@.wf(),
        ensures
            final(self)@.wf(),
            match r {
                Ok(()) => {
                    &&& old(self)@.has_cf(cf@)
                    &&& old(self)@.next_seqno < u64::MAX
                    &&& final(self)@.comparator == old(self)@.comparator
                    &&& final(self)@.next_seqno == old(self)@.next_seqno + 1
                    &&& final(self)@.cfs.len() == old(self)@.cfs.len()
                    &&& forall|j: int|
                        0 <= j < old(self)@.cfs.len() && j != old(self)@.cf_idx(cf@)
                            ==> final(self)@.cfs[j] == old(self)@.cfs[j]
                    &&& final(self)@.cfs[old(self)@.cf_idx(cf@)].name == cf@
                    &&& final(self)@.cf_content(cf@) == old(self)@.cf_content(cf@).remove(key@)
                },
                Err(e) => {
                    &&& e == Error::EngineError
                    &&& !old(self)@.has_cf(cf@) || old(self)@.next_seqno == u64::MAX
                    &&& final(self)@ == old(self)@
                },
            },
    {
        let idx = match self.find_cf(cf) {
            Some(i) => i,
            None => {
                return Err(Error::EngineError);
            },
        };
        if self.next_seqno == u64::MAX {
            return Err(Error::EngineError);
        }
        let ghost before = self@;
        let ghost before_vec = self.cfs@;
        let seqno = self.next_seqno;
        self.next_seqno = seqno + 1;
        let mut slot = self.cfs.remove(idx);
        let ghost mid_vec = self.cfs@;
        let found = find_entry(&slot.entries, key);
        match found {
            Some(i) => {
                let ghost es_before = entries_view(slot.entries@);
                slot.entries.remove(i);
                proof {
                    assert(entries_view(slot.entries@) =~= es_before.remove(i as int));
                    lemma_entries_map_remove(es_before, i as int);
                    assert(keys_unique(entries_view(slot.entries@))) by {
                        let mid = entries_view(slot.entries@);
                        assert forall|p: int, q: int| 0 <= p < q < mid.len() implies mid[p].key
                            != mid[q].key by {
                            let p0 = if p < i { p } else { p + 1 };
                            let q0 = if q < i { q } else { q + 1 };
                            assert(es_before[p0] == mid[p] && es_before[q0] == mid[q]);
                        }
                    }
                }
            },
            None => {
                proof {
                    lemma_entries_map_domain(entries_view(slot.entries@));
                    assert(!entries_map(entries_view(slot.entries@)).contains_key(key@));
                    assert(entries_map(entries_view(slot.entries@)).remove(key@) =~= entries_map(
                        entries_view(slot.entries@),
                    ));
                }
            },
        }
        let ghost slotval = slot;
        self.cfs.insert(idx, slot);
        proof {
            lemma_cfs_put_back(before_vec, mid_vec, self.cfs@, idx as int, slotval);
            assert(slotval@.name == cf@);
            assert(slotval@.wf());
            lemma_store_update(before, self@, idx as int, cf@);
            assert(self@.cf_content(cf@) == before.cf_content(cf@).remove(key@));
        }
        Ok(())
    }

    /// Reads the value under `key` in the column family named `cf`. Fails
    /// when no such family is open.
    pub fn get(&self, cf: &Vec<u8>, key: &Vec<u8>) -> (r: Result<Option<Vec<u8>>, Error>)
        requires
            self@.wf(),
        ensures
            match r {
                Ok(v) => {
                    &&& self@.has_cf(cf@)
                    &&& (match v {
                        Some(val) => self@.cf_content(cf@).contains_key(key@) && val@
                            == self@.cf_content(cf@)[key@],
                        None => !self@.cf_content(cf@).contains_key(key@),
                    })
                },
                Err(e) => {
                    &&& e == Error::EngineError
                    &&& !self@.has_cf(cf@)
                },
            },
    {
        let idx = match self.find_cf(cf) {
            Some(i) => i,
            None => {
                return Err(Error::EngineError);
            },
        };
        let slot = &self.cfs[idx];
        let found = find_entry(&slot.entries, key);
        match found {
            Some(i) => {
                proof {
                    lemma_entries_map_index(entries_view(slot.entries@), i as int);
                }
                Ok(Some(copy_bytes(&slot.entries[i].value)))
            },
            None => {
                proof {
                    lemma_entries_map_domain(entries_view(slot.entries@));
                }
                Ok(None)
            },
        }
    }
}

/// Taking a family out of position `idx` and putting one back leaves every
/// other position unchanged.
proof fn lemma_cfs_put_back(before: Seq<Cf>, mid: Seq<Cf>, after: Seq<Cf>, idx: int, x: Cf)
    requires
        0 <= idx < before.len(),
        mid == before.remove(idx),
        after == mid.insert(idx, x),
    ensures
        after.len() == before.len(),
        cfs_view(after).len() == before.len(),
        cfs_view(after)[idx] == x@,
        forall|j: int|
            0 <= j < before.len() && j != idx ==> cfs_view(after)[j] == cfs_view(before)[j],
{
    before.remove_ensures(idx);
    mid.insert_ensures(idx, x);
    assert forall|j: int| 0 <= j < before.len() && j != idx implies cfs_view(after)[j] == cfs_view(
        before,
    )[j] by {
        if j < idx {
            assert(after[j] == mid[j]);
            assert(mid[j] == before[j]);
        } else {
            assert(after[j] == mid[j - 1]);
            assert(mid[j - 1] == before[j]);
        }
        assert(cfs_view(after)[j] == after[j]@);
        assert(cfs_view(before)[j] == before[j]@);
    }
    assert(after[idx] == x);
    assert(cfs_view(after)[idx] == after[idx]@);
}

/// After replacing the entries of the family at `idx` (name kept), the store
/// stays well formed, the family's map is the map of its new entries, and
/// every other family is untouched.
proof fn lemma_store_update(before: StoreView, after: StoreView, idx: int, name: Seq<u8>)
    requires
        before.wf(),
        0 <= idx < before.cfs.len(),
        before.cfs[idx].name == name,
        before.cf_idx(name) == idx,
        after.cfs.len() == before.cfs.len(),
        after.cfs[idx].name == name,
        after.cfs[idx].wf(),
        forall|j: int| 0 <= j < before.cfs.len() && j != idx ==> after.cfs[j] == before.cfs[j],
    ensures
        after.wf(),
        after.has_cf(name),
        after.cf_idx(name) == idx,
        after.cf_content(name) == after.cfs[idx].content(),
        before.cf_content(name) == before.cfs[idx].content(),
{
    assert forall|i: int, j: int| 0 <= i < j < after.cfs.len() implies after.cfs[i].name
        != after.cfs[j].name by {
        assert(after.cfs[i].name == before.cfs[i].name);
        assert(after.cfs[j].name == before.cfs[j].name);
    }
    assert forall|i: int| 0 <= i < after.cfs.len() implies (#[trigger] after.cfs[i]).wf() by {
        if i != idx {
            assert(after.cfs[i] == before.cfs[i]);
        }
    }
    lemma_cf_idx(after, idx);
}

} // verus!
