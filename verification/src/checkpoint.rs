//! Checkpoints: materializing a consistent point-in-time copy of a live
//! store, exporting one column family as a bundle of sorted files, and
//! opening a materialized checkpoint as a store of its own.

use vstd::prelude::*;

use crate::bytes::{copy_bytes, lex_le, lex_le_bytes, lemma_lex_refl, lemma_lex_total, lemma_lex_trans};
use crate::codec::{emit_u64, enc_u64};
use crate::fs::{
    all_files_present, bundle_entries, bundle_source_map, lemma_add_dir, Dir, DirContent,
    DirContentView, file_entries, file_idx, file_present, Fs, FsView, SstFile, SstFileView,
    sst_view, dirs_view, DirView,
};
use crate::meta::{ExportImportFilesMetaData, FileMetadata};
use crate::store::{
    copy_cfs, copy_entries, CfView, Entry, Store, StoreView,
};
use crate::Error;

verus! {

/// How much of the write buffer a materialization flushes beyond what the
/// log already covers: nothing.
pub const LOG_SIZE_FOR_FLUSH: u64 = 0;

/// A short-lived checkpoint operation object, bound to one open store for
/// its whole lifetime; the directories it materializes outlive it.
pub struct Checkpoint<'db> {
    db: &'db Store,
}

/// The image a materialization writes: the full state of the store.
pub open spec fn image_of(st: StoreView) -> DirContentView {
    DirContentView::Image { comparator: st.comparator, next_seqno: st.next_seqno, cfs: st.cfs }
}

/// The files an export writes: one sorted file holding the whole column
/// family, or none when the family is empty.
pub open spec fn export_files(cf: CfView) -> Seq<SstFileView> {
    if cf.entries.len() == 0 {
        Seq::empty()
    } else {
        seq![SstFileView { relative_filename: enc_u64(1), entries: cf.entries }]
    }
}

impl<'db> Checkpoint<'db> {
    /// The store this handle is bound to.
    pub closed spec fn store(self) -> Store {
        *self.db
    }

    /// Binds a new checkpoint handle to a live store. The model engine can
    /// always allocate the handle, so this never fails.
    pub fn new(db: &'db Store) -> (r: Result<Checkpoint<'db>, Error>)
        ensures
            match r {
                Ok(cp) => cp.store() == *db,
                Err(_) => false,
            },
    {
        Ok(Checkpoint { db })
    }

    /// Materializes a full, independently openable copy of the store at
    /// `path`, flushing no more of the write buffer than
    /// [`LOG_SIZE_FOR_FLUSH`] asks for. Fails, leaving storage unchanged,
    /// exactly when the directory already exists.
    pub fn create_checkpoint(&self, fs: &mut Fs, path: &Vec<u8>) -> (r: Result<(), Error>)
        requires
            old(fs)@.wf(),
            self.store()@.wf(),
        ensures
            final(fs)@.wf(),
            match r {
                Ok(()) => {
                    &&& !old(fs)@.has_dir(path@)
                    &&& final(fs)@ == old(fs)@.add_dir(path@, image_of(self.store()@))
                },
                Err(e) => {
                    &&& e == Error::PathError
                    &&& old(fs)@.has_dir(path@)
                    &&& final(fs)@ == old(fs)@
                },
            },
    {
        match fs.find_dir(path) {
            Some(_) => Err(Error::PathError),
            None => {
                let ghost before = fs@;
                let dir = Dir {
                    path: copy_bytes(path),
                    content: DirContent::Image {
                        comparator: copy_bytes(&self.db.comparator),
                        next_seqno: self.db.next_seqno,
                        cfs: copy_cfs(&self.db.cfs),
                    },
                };
                proof {
                    assert(dir@ =~= DirView { path: path@, content: image_of(self.store()@) });
                }
                fs.dirs.push(dir);
                proof {
                    assert(dirs_view(fs.dirs@) =~= before.dirs.push(
                        DirView { path: path@, content: image_of(self.store()@) },
                    ));
                    assert(fs@ =~= before.add_dir(path@, image_of(self.store()@)));
                    assert(image_of(self.store()@).wf());
                    lemma_add_dir(before, path@, image_of(self.store()@));
                }
                Ok(())
            },
        }
    }

    /// Exports the column family named `cf` into the fresh directory
    /// `export_dir` and returns the self-describing bundle. Fails, leaving
    /// storage unchanged, when the family is not open (`EngineError`) or the
    /// directory already exists (`PathError`).
    pub fn export_column_family(&self, fs: &mut Fs, cf: &Vec<u8>, export_dir: &Vec<u8>) -> (r:
        Result<ExportImportFilesMetaData, Error>)
        requires
            old(fs)@.wf(),
            self.store()@.wf(),
        ensures
            final(fs)@.wf(),
            match r {
                Ok(md) => {
                    &&& self.store()@.has_cf(cf@)
                    &&& !old(fs)@.has_dir(export_dir@)
                    &&& final(fs)@ == old(fs)@.add_dir(
                        export_dir@,
                        DirContentView::Export {
                            files: export_files(
                                self.store()@.cfs[self.store()@.cf_idx(cf@)],
                            ),
                        },
                    )
                    &&& md@.db_comparator_name == self.store()@.comparator
                    &&& md@.wf()
                    &&& md@.files.len() == export_files(
                        self.store()@.cfs[self.store()@.cf_idx(cf@)],
                    ).len()
                    &&& forall|i: int|
                        0 <= i < md@.files.len() ==> (#[trigger] md@.files[i]).directory
                            == export_dir@ && md@.files[i].column_family_name == cf@
                            && md@.files[i].num_entries == self.store()@.cfs[self.store()@.cf_idx(
                            cf@,
                        )].entries.len()
                    &&& all_files_present(final(fs)@, md@)
                    &&& bundle_source_map(final(fs)@, md@) == self.store()@.cf_content(cf@)
                },
                Err(e) => {
                    &&& final(fs)@ == old(fs)@
                    &&& (e == Error::EngineError || e == Error::PathError)
                    &&& (e == Error::EngineError <==> !self.store()@.has_cf(cf@))
                    &&& (e == Error::PathError ==> self.store()@.has_cf(cf@) && old(fs)@.has_dir(
                        export_dir@,
                    ))
                },
            },
    {
        let idx = match self.db.find_cf(cf) {
            Some(i) => i,
            None => {
                return Err(Error::EngineError);
            },
        };
        match fs.find_dir(export_dir) {
            Some(_) => {
                return Err(Error::PathError);
            },
            None => {},
        }
        let ghost before = fs@;
        let ghost st = self.store()@;
        let ghost cfv = st.cfs[idx as int];
        let slot = &self.db.cfs[idx];
        let entries = copy_entries(&slot.entries);
        let mut files: Vec<SstFile> = Vec::new();
        let mut metas: Vec<FileMetadata> = Vec::new();
        if entries.len() > 0 {
            let fname = sst_file_name();
            let (lo_seq, hi_seq) = seqno_range(&entries);
            let (lo_key, hi_key) = key_range(&entries);
            let num = entries.len() as u64;
            let sst = SstFile { relative_filename: copy_bytes(&fname), entries };
            proof {
                assert(sst@ =~= SstFileView { relative_filename: enc_u64(1), entries: cfv.entries });
            }
            files.push(sst);
            let fm = FileMetadata {
                column_family_name: copy_bytes(cf),
                level: 0,
                file_number: 1,
                relative_filename: copy_bytes(&fname),
                name: fname,
                directory: copy_bytes(export_dir),
                temperature: 0,
                smallest_seqno: lo_seq,
                largest_seqno: hi_seq,
                smallestkey: lo_key,
                largestkey: hi_key,
                num_entries: num,
                num_deletions: 0,
                num_reads_sampled: 0,
                being_compacted: false,
                file_creation_time: 0,
                oldest_ancester_time: 0,
                file_checksum: Vec::new(),
                file_checksum_func_name: Vec::new(),
            };
            proof {
                assert(cfv.entries.len() > 0);
                assert(lex_le(fm@.smallestkey, fm@.largestkey)) by {
                    lemma_lex_trans(fm@.smallestkey, cfv.entries[0].key, fm@.largestkey);
                }
                assert(fm@.wf());
            }
            metas.push(fm);
        }
        let md = ExportImportFilesMetaData {
            db_comparator_name: copy_bytes(&self.db.comparator),
            files: metas,
        };
        let dir = Dir { path: copy_bytes(export_dir), content: DirContent::Export { files } };
        proof {
            assert(dir@ =~= DirView {
                path: export_dir@,
                content: DirContentView::Export { files: export_files(cfv) },
            });
        }
        fs.dirs.push(dir);
        proof {
            let content = DirContentView::Export { files: export_files(cfv) };
            assert(dirs_view(fs.dirs@) =~= before.dirs.push(
                DirView { path: export_dir@, content },
            ));
            assert(fs@ =~= before.add_dir(export_dir@, content));
            assert(content.wf()) by {
                if cfv.entries.len() > 0 {
                    assert(export_files(cfv)[0].entries == cfv.entries);
                }
            }
            lemma_add_dir(before, export_dir@, content);
            lemma_export_bundle(fs@, md@, export_dir@, cfv);
            assert(st.cf_content(cf@) == cfv.content());
        }
        Ok(md)
    }
}

/// The name given to the single file an export writes: the file number in
/// the same fixed-width decimal form the codec uses.
fn sst_file_name() -> (r: Vec<u8>)
    ensures
        r@ == enc_u64(1),
{
    let mut v: Vec<u8> = Vec::new();
    emit_u64(&mut v, 1);
    proof {
        assert(v@ =~= enc_u64(1));
    }
    v
}

/// The bundle an export builds describes exactly the exported family's map,
/// read back from the directory the export wrote.
proof fn lemma_export_bundle(fv: FsView, m: crate::meta::MetaDataView, dir: Seq<u8>, cfv: CfView)
    requires
        fv.wf(),
        fv.has_dir(dir),
        fv.dir_content(dir) == (DirContentView::Export { files: export_files(cfv) }),
        cfv.wf(),
        m.files.len() == (if cfv.entries.len() == 0 { 0int } else { 1int }),
        cfv.entries.len() > 0 ==> m.files[0].directory == dir && m.files[0].relative_filename
            == enc_u64(1),
    ensures
        all_files_present(fv, m),
        bundle_source_map(fv, m) == cfv.content(),
{
    if cfv.entries.len() == 0 {
        assert(bundle_entries(fv, m.files) == Seq::<crate::store::EntryView>::empty());
        assert(cfv.entries =~= Seq::<crate::store::EntryView>::empty());
    } else {
        let fm = m.files[0];
        let files = export_files(cfv);
        assert(files.len() == 1 && files[0].relative_filename == enc_u64(1));
        assert(file_present(fv, fm));
        assert(all_files_present(fv, m)) by {
            assert(forall|i: int| 0 <= i < m.files.len() ==> m.files[i] == fm);
        }
        let fi = file_idx(fv, fm);
        assert(0 <= fi < files.len() && files[fi].relative_filename == fm.relative_filename);
        assert(fi == 0);
        assert(file_entries(fv, fm) == cfv.entries);
        assert(m.files.drop_first() =~= Seq::<crate::meta::FileMetadataView>::empty());
        assert(bundle_entries(fv, m.files) == file_entries(fv, m.files[0]) + bundle_entries(
            fv,
            m.files.drop_first(),
        ));
        assert(bundle_entries(fv, m.files.drop_first()) == Seq::<crate::store::EntryView>::empty());
        assert(cfv.entries + Seq::<crate::store::EntryView>::empty() =~= cfv.entries);
    }
}

/// The smallest and largest write sequence number among `es`.
fn seqno_range(es: &Vec<Entry>) -> (r: (u64, u64))
    requires
        es@.len() > 0,
    ensures
        forall|i: int|
            0 <= i < es@.len() ==> r.0 <= (#[trigger] es@[i])@.seqno && es@[i]@.seqno <= r.1,
        r.0 <= r.1,
{
    let mut lo = es[0].seqno;
    let mut hi = es[0].seqno;
    let mut i: usize = 1;
    while i < es.len()
        invariant
            1 <= i <= es@.len(),
            lo <= hi,
            forall|j: int| 0 <= j < i ==> lo <= (#[trigger] es@[j])@.seqno && es@[j]@.seqno <= hi,
        decreases es@.len() - i,
    {
        let s = es[i].seqno;
        if s < lo {
            lo = s;
        }
        if s > hi {
            hi = s;
        }
        i = i + 1;
    }
    (lo, hi)
}

/// The smallest and largest key among `es` under the lexicographic order.
fn key_range(es: &Vec<Entry>) -> (r: (Vec<u8>, Vec<u8>))
    requires
        es@.len() > 0,
    ensures
        forall|i: int|
            0 <= i < es@.len() ==> lex_le(r.0@, (#[trigger] es@[i])@.key) && lex_le(
                es@[i]@.key,
                r.1@,
            ),
{
    let mut mini: usize = 0;
    let mut maxi: usize = 0;
    let mut i: usize = 1;
    proof {
        lemma_lex_refl(es@[0]@.key);
    }
    while i < es.len()
        invariant
            1 <= i <= es@.len(),
            mini < i,
            maxi < i,
            forall|j: int|
                0 <= j < i ==> lex_le(es@[mini as int]@.key, (#[trigger] es@[j])@.key) && lex_le(
                    es@[j]@.key,
                    es@[maxi as int]@.key,
                ),
        decreases es@.len() - i,
    {
        if lex_le_bytes(&es[i].key, &es[mini].key) {
            proof {
                assert forall|j: int| 0 <= j < i + 1 implies lex_le(
                    es@[i as int]@.key,
                    (#[trigger] es@[j])@.key,
                ) by {
                    if j < i {
                        lemma_lex_trans(es@[i as int]@.key, es@[mini as int]@.key, es@[j]@.key);
                    } else {
                        lemma_lex_refl(es@[i as int]@.key);
                    }
                }
            }
            mini = i;
        } else {
            proof {
                lemma_lex_total(es@[i as int]@.key, es@[mini as int]@.key);
            }
        }
        if lex_le_bytes(&es[maxi].key, &es[i].key) {
            proof {
                assert forall|j: int| 0 <= j < i + 1 implies lex_le(
                    (#[trigger] es@[j])@.key,
                    es@[i as int]@.key,
                ) by {
                    if j < i {
                        lemma_lex_trans(es@[j]@.key, es@[maxi as int]@.key, es@[i as int]@.key);
                    } else {
                        lemma_lex_refl(es@[i as int]@.key);
                    }
                }
            }
            maxi = i;
        } else {
            proof {
                lemma_lex_total(es@[maxi as int]@.key, es@[i as int]@.key);
            }
        }
        i = i + 1;
    }
    (copy_bytes(&es[mini].key), copy_bytes(&es[maxi].key))
}

/// Opens the checkpoint materialized at `path` as an independent store.
/// Fails when no directory of that path exists or it does not hold a store
/// image.
pub fn open_at(fs: &Fs, path: &Vec<u8>) -> (r: Result<Store, Error>)
    requires
        fs@.wf(),
    ensures
        match r {
            Ok(st) => {
                &&& fs@.has_dir(path@)
                &&& fs@.dir_content(path@) == image_of(st@)
                &&& st@.wf()
            },
            Err(e) => {
                &&& e == Error::PathError
                &&& (!fs@.has_dir(path@) || fs@.dir_content(path@) matches DirContentView::Export {
                    ..
                })
            },
        },
{
    let idx = match fs.find_dir(path) {
        Some(i) => i,
        None => {
            return Err(Error::PathError);
        },
    };
    match &fs.dirs[idx].content {
        DirContent::Image { comparator, next_seqno, cfs } => {
            let st = Store {
                comparator: copy_bytes(comparator),
                next_seqno: *next_seqno,
                cfs: copy_cfs(cfs),
            };
            proof {
                assert(fs@.dirs[idx as int].content == fs.dirs@[idx as int].content@);
                assert(image_of(st@) =~= fs@.dir_content(path@));
                assert(st@.wf());
            }
            Ok(st)
        },
        DirContent::Export { .. } => {
            proof {
                assert(fs@.dirs[idx as int].content == fs.dirs@[idx as int].content@);
            }
            Err(Error::PathError)
        },
    }
}

/// An image determines the store state it was taken from: a store opened
/// from a checkpoint directory is, field for field, the store that was
/// materialized there.
pub proof fn lemma_image_of_injective(a: StoreView, b: StoreView)
    requires
        image_of(a) == image_of(b),
    ensures
        a == b,
{
    assert(a =~= b);
}

/// Law: a materialized checkpoint is faithful. The directory a
/// materialization adds holds exactly the store state at the instant of the
/// call, so a store opened from it shows every key written before the call
/// with its value of that instant, and nothing written after.
pub proof fn lemma_checkpoint_faithful(fv: FsView, st: StoreView, p: Seq<u8>)
    requires
        fv.wf(),
        st.wf(),
        !fv.has_dir(p),
    ensures
        fv.add_dir(p, image_of(st)).wf(),
        fv.add_dir(p, image_of(st)).has_dir(p),
        fv.add_dir(p, image_of(st)).dir_content(p) == image_of(st),
{
    assert(image_of(st).wf());
    lemma_add_dir(fv, p, image_of(st));
}

/// Law: checkpoints are independent. Materializing into two different
/// directories, with any writes in between, leaves two directories that each
/// hold exactly the store state of their own materialization instant.
pub proof fn lemma_checkpoints_independent(
    fv: FsView,
    st1: StoreView,
    st2: StoreView,
    p1: Seq<u8>,
    p2: Seq<u8>,
)
    requires
        fv.wf(),
        st1.wf(),
        st2.wf(),
        !fv.has_dir(p1),
        !fv.add_dir(p1, image_of(st1)).has_dir(p2),
        p1 != p2,
    ensures
        fv.add_dir(p1, image_of(st1)).add_dir(p2, image_of(st2)).wf(),
        fv.add_dir(p1, image_of(st1)).add_dir(p2, image_of(st2)).dir_content(p1) == image_of(st1),
        fv.add_dir(p1, image_of(st1)).add_dir(p2, image_of(st2)).dir_content(p2) == image_of(st2),
{
    let fv1 = fv.add_dir(p1, image_of(st1));
    assert(image_of(st1).wf());
    assert(image_of(st2).wf());
    lemma_add_dir(fv, p1, image_of(st1));
    lemma_add_dir(fv1, p2, image_of(st2));
}

} // verus!
