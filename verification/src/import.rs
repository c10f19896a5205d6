//! Importing an export bundle into a store as a brand-new column family: a
//! metadata operation over the already-sorted files, never a rewrite.

use vstd::prelude::*;

use crate::bytes::{bytes_eq, copy_bytes};
use crate::fs::{
    all_files_present, bundle_entries, bundle_source_map, DirContent, DirContentView, file_entries,
    file_idx, file_present, find_sst, Fs, sst_view,
};
use crate::meta::ExportImportFilesMetaData;
use crate::store::{
    entries_map, entries_view, keys_unique, upsert, Cf, CfView, Entry, lemma_cf_idx, Store,
    StoreView,
};
use crate::Error;

verus! {

impl Store {
    /// Registers the files of `bundle` as the initial content of a new
    /// column family named `name`, without rewriting them. Fails, changing
    /// nothing, when the name is taken (`AlreadyExists`), the bundle's
    /// comparator differs from the store's (`ComparatorMismatch`), or a
    /// referenced file is gone (`MissingFile`); no partial family is ever
    /// registered.
    #[verifier::rlimit(30)]
    pub fn create_cf_with_import(
        &mut self,
        name: &Vec<u8>,
        bundle: &ExportImportFilesMetaData,
        fs: &Fs,
    ) -> (r: Result<(), Error>)
        requires
            old(self)@.wf(),
            fs@.wf(),
        ensures
            final(self)@.wf(),
            match r {
                Ok(()) => {
                    &&& !old(self)@.has_cf(name@)
                    &&& old(self)@.comparator == bundle@.db_comparator_name
                    &&& all_files_present(fs@, bundle@)
                    &&& final(self)@.comparator == old(self)@.comparator
                    &&& final(self)@.next_seqno == old(self)@.next_seqno
                    &&& final(self)@.cfs.len() == old(self)@.cfs.len() + 1
                    &&& forall|j: int|
                        0 <= j < old(self)@.cfs.len() ==> final(self)@.cfs[j] == old(self)@.cfs[j]
                    &&& final(self)@.has_cf(name@)
                    &&& final(self)@.cfs[old(self)@.cfs.len() as int].name == name@
                    &&& final(self)@.cf_content(name@) == bundle_source_map(fs@, bundle@)
                },
                Err(e) => {
                    &&& final(self)@ == old(self)@
                    &&& (e == Error::AlreadyExists <==> old(self)@.has_cf(name@))
                    &&& (e == Error::ComparatorMismatch ==> !old(self)@.has_cf(name@) && old(
                        self,
                    )@.comparator != bundle@.db_comparator_name)
                    &&& (e == Error::MissingFile ==> !old(self)@.has_cf(name@) && old(
                        self,
                    )@.comparator == bundle@.db_comparator_name && !all_files_present(
                        fs@,
                        bundle@,
                    ))
                    &&& (e == Error::AlreadyExists || e == Error::ComparatorMismatch || e
                        == Error::MissingFile)
                },
            },
    {
        match self.find_cf(name) {
            Some(_) => {
                return Err(Error::AlreadyExists);
            },
            None => {},
        }
        if !bytes_eq(&self.comparator, &bundle.db_comparator_name) {
            return Err(Error::ComparatorMismatch);
        }
        let ghost bview = bundle@;
        let mut entries: Vec<Entry> = Vec::new();
        let mut i: usize = 0;
        proof {
            assert(bview.files.subrange(0, 0) =~= Seq::<crate::meta::FileMetadataView>::empty());
            assert(entries_view(entries@) =~= Seq::<crate::store::EntryView>::empty());
            assert(entries_map(entries_view(entries@)) =~= entries_map(
                bundle_entries(fs@, bview.files.subrange(0, 0)),
            ));
        }
        while i < bundle.files.len()
            invariant
                fs@.wf(),
                bview == bundle@,
                self@ == old(self)@,
                old(self)@.wf(),
                !old(self)@.has_cf(name@),
                old(self)@.comparator == bundle@.db_comparator_name,
                i <= bview.files.len(),
                bview.files.len() == bundle.files@.len(),
                keys_unique(entries_view(entries@)),
                entries_map(entries_view(entries@)) == entries_map(
                    bundle_entries(fs@, bview.files.subrange(0, i as int)),
                ),
                forall|k: int| 0 <= k < i ==> file_present(fs@, #[trigger] bview.files[k]),
            decreases bundle.files@.len() - i,
        {
            let fm = &bundle.files[i];
            proof {
                assert(fm@ == bview.files[i as int]);
            }
            let di = match fs.find_dir(&fm.directory) {
                Some(d) => d,
                None => {
                    proof {
                        assert(!file_present(fs@, bview.files[i as int]));
                        assert(!all_files_present(fs@, bview)) by {
                            if all_files_present(fs@, bview) {
                                assert(file_present(fs@, bview.files[i as int]));
                            }
                        }
                    }
                    return Err(Error::MissingFile);
                },
            };
            proof {
                assert(fs@.dirs[di as int].content == fs.dirs@[di as int]@.content);
                assert(fs@.dir_idx(fm@.directory) == di);
            }
            match &fs.dirs[di].content {
                DirContent::Image { .. } => {
                    proof {
                        assert(!file_present(fs@, bview.files[i as int]));
                        assert(!all_files_present(fs@, bview)) by {
                            if all_files_present(fs@, bview) {
                                assert(file_present(fs@, bview.files[i as int]));
                            }
                        }
                    }
                    return Err(Error::MissingFile);
                },
                DirContent::Export { files } => {
                    let fi = match find_sst(files, &fm.relative_filename) {
                        Some(f) => f,
                        None => {
                            proof {
                                assert(fs@.dir_content(fm@.directory) == (DirContentView::Export {
                                    files: sst_view(files@),
                                }));
                                assert(!file_present(fs@, bview.files[i as int]));
                                assert(!all_files_present(fs@, bview)) by {
                                    if all_files_present(fs@, bview) {
                                        assert(file_present(fs@, bview.files[i as int]));
                                    }
                                }
                            }
                            return Err(Error::MissingFile);
                        },
                    };
                    let ghost fentries = file_entries(fs@, fm@);
                    proof {
                        assert(fs@.dir_content(fm@.directory) == (DirContentView::Export {
                            files: sst_view(files@),
                        }));
                        assert(file_present(fs@, bview.files[i as int])) by {
                            assert(sst_view(files@)[fi as int].relative_filename
                                == fm@.relative_filename);
                        }
                        let fx = file_idx(fs@, fm@);
                        assert(0 <= fx < sst_view(files@).len() && sst_view(
                            files@,
                        )[fx].relative_filename == fm@.relative_filename);
                        assert(fs@.dir_content(fm@.directory).wf()) by {
                            assert(fs@.dirs[di as int].content.wf());
                        }
                        assert(fx == fi);
                        assert(fentries == sst_view(files@)[fi as int].entries);
                        assert(fentries == entries_view(files@[fi as int].entries@));
                    }
                    let sst = &files[fi];
                    let mut j: usize = 0;
                    proof {
                        assert(fentries.subrange(0, 0) =~= Seq::<crate::store::EntryView>::empty());
                        assert(bundle_entries(fs@, bview.files.subrange(0, i as int))
                            + fentries.subrange(0, 0) =~= bundle_entries(
                            fs@,
                            bview.files.subrange(0, i as int),
                        ));
                    }
                    while j < sst.entries.len()
                        invariant
                            0 <= i < bview.files.len(),
                            j <= sst.entries@.len(),
                            fentries == entries_view(sst.entries@),
                            keys_unique(entries_view(entries@)),
                            entries_map(entries_view(entries@)) == entries_map(
                                bundle_entries(fs@, bview.files.subrange(0, i as int))
                                    + fentries.subrange(0, j as int),
                            ),
                        decreases sst.entries@.len() - j,
                    {
                        let e = &sst.entries[j];
                        upsert(&mut entries, &e.key, &e.value, e.seqno);
                        proof {
                            let xs = bundle_entries(fs@, bview.files.subrange(0, i as int));
                            let prev = xs + fentries.subrange(0, j as int);
                            let next = xs + fentries.subrange(0, j + 1);
                            assert(next =~= prev.push(fentries[j as int]));
                            assert(next.drop_last() =~= prev);
                            assert(entries_map(next) == entries_map(prev).insert(
                                fentries[j as int].key,
                                fentries[j as int].value,
                            ));
                            assert(fentries[j as int] == sst.entries@[j as int]@);
                        }
                        j = j + 1;
                    }
                    proof {
                        assert(fentries.subrange(0, fentries.len() as int) =~= fentries);
                        assert(bview.files.subrange(0, i + 1) =~= bview.files.subrange(
                            0,
                            i as int,
                        ).push(bview.files[i as int]));
                        crate::fs::lemma_bundle_entries_snoc(
                            fs@,
                            bview.files.subrange(0, i as int),
                            bview.files[i as int],
                        );
                        assert(entries_map(entries_view(entries@)) == entries_map(
                            bundle_entries(fs@, bview.files.subrange(0, i + 1)),
                        ));
                    }
                },
            }
            i = i + 1;
        }
        proof {
            assert(bview.files.subrange(0, bview.files.len() as int) =~= bview.files);
        }
        let ghost before = self@;
        let cf = Cf { name: copy_bytes(name), entries };
        let ghost cfv = cf@;
        self.cfs.push(cf);
        proof {
            assert(self@.cfs =~= before.cfs.push(cfv));
            assert forall|p: int, q: int| 0 <= p < q < self@.cfs.len() implies self@.cfs[p].name
                != self@.cfs[q].name by {
                if q < self@.cfs.len() - 1 {
                    assert(before.cfs[p] == self@.cfs[p] && before.cfs[q] == self@.cfs[q]);
                } else {
                    assert(before.cfs[p] == self@.cfs[p]);
                }
            }
            assert forall|p: int| 0 <= p < self@.cfs.len() implies (#[trigger] self@.cfs[p]).wf() by {
                if p < self@.cfs.len() - 1 {
                    assert(before.cfs[p] == self@.cfs[p]);
                }
            }
            lemma_cf_idx(self@, before.cfs.len() as int);
            assert(self@.cf_content(name@) == cfv.content());
        }
        Ok(())
    }
}

/// Law: an export followed by an import into a fresh store reproduces the
/// exact key/value map of the source column family, and leaves every other
/// family of the destination exactly as it was, present or absent. The
/// hypotheses are what `export_column_family` ensures of the bundle it
/// returns and what `create_cf_with_import` ensures of the destination.
pub proof fn lemma_export_import_round_trip(
    fs: crate::fs::FsView,
    m: crate::meta::MetaDataView,
    src: StoreView,
    src_cf: Seq<u8>,
    before: StoreView,
    after: StoreView,
    name: Seq<u8>,
)
    requires
        bundle_source_map(fs, m) == src.cf_content(src_cf),
        before.wf(),
        after.wf(),
        !before.has_cf(name),
        after.cfs.len() == before.cfs.len() + 1,
        forall|j: int| 0 <= j < before.cfs.len() ==> after.cfs[j] == before.cfs[j],
        after.cfs[before.cfs.len() as int].name == name,
        after.cf_content(name) == bundle_source_map(fs, m),
    ensures
        after.has_cf(name),
        after.cf_content(name) == src.cf_content(src_cf),
        forall|n: Seq<u8>| n != name ==> (after.has_cf(n) <==> before.has_cf(n)),
        forall|n: Seq<u8>|
            n != name && before.has_cf(n) ==> after.cf_content(n) == before.cf_content(n),
{
    lemma_import_untouched_siblings(before, after, name);
}

/// After a successful import (the shape `create_cf_with_import` ensures),
/// the new family is open and every other family of the destination is
/// exactly as it was, present or absent.
pub proof fn lemma_import_untouched_siblings(before: StoreView, after: StoreView, name: Seq<u8>)
    requires
        before.wf(),
        after.wf(),
        !before.has_cf(name),
        after.cfs.len() == before.cfs.len() + 1,
        forall|j: int| 0 <= j < before.cfs.len() ==> after.cfs[j] == before.cfs[j],
        after.cfs[before.cfs.len() as int].name == name,
    ensures
        after.has_cf(name),
        after.cf_content(name) == after.cfs[before.cfs.len() as int].content(),
        forall|n: Seq<u8>| n != name ==> (after.has_cf(n) <==> before.has_cf(n)),
        forall|n: Seq<u8>|
            n != name && before.has_cf(n) ==> after.cf_content(n) == before.cf_content(n)
                && after.cf_idx(n) == before.cf_idx(n),
{
    lemma_cf_idx(after, before.cfs.len() as int);
    assert forall|n: Seq<u8>| n != name implies (after.has_cf(n) <==> before.has_cf(n)) by {
        if after.has_cf(n) {
            let i = after.cf_idx(n);
            assert(0 <= i < after.cfs.len() && after.cfs[i].name == n);
            assert(i < before.cfs.len());
            assert(before.cfs[i].name == n);
        }
        if before.has_cf(n) {
            let i = before.cf_idx(n);
            assert(0 <= i < before.cfs.len() && before.cfs[i].name == n);
            assert(after.cfs[i].name == n);
        }
    }
    assert forall|n: Seq<u8>| n != name && before.has_cf(n) implies after.cf_content(n)
        == before.cf_content(n) && after.cf_idx(n) == before.cf_idx(n) by {
        let i = before.cf_idx(n);
        assert(0 <= i < before.cfs.len() && before.cfs[i].name == n);
        assert(after.cfs[i].name == n);
        lemma_cf_idx(after, i);
        crate::store::lemma_cf_idx(before, i);
    }
}

} // verus!
