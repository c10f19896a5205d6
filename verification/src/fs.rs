//! A model of durable storage: named directories, each holding either the
//! image a checkpoint materialized or the sorted files an export produced.

use vstd::prelude::*;

use crate::bytes::bytes_eq;
use crate::meta::{FileMetadataView, MetaDataView};
use crate::store::{entries_map, entries_view, Cf, CfView, cfs_view, EntryView, keys_unique, Entry};

verus! {

/// One immutable sorted file holding the entries of an export.
pub struct SstFile {
    /// File name, unique within its directory.
    pub relative_filename: Vec<u8>,
    /// The sorted entries the file holds.
    pub entries: Vec<Entry>,
}

/// Mathematical value of an [`SstFile`].
#[verifier::ext_equal]
pub ghost struct SstFileView {
    pub relative_filename: Seq<u8>,
    pub entries: Seq<EntryView>,
}

impl View for SstFile {
    type V = SstFileView;

    open spec fn view(&self) -> SstFileView {
        SstFileView {
            relative_filename: self.relative_filename@,
            entries: entries_view(self.entries@),
        }
    }
}

/// The views of a sequence of files.
pub open spec fn sst_view(files: Seq<SstFile>) -> Seq<SstFileView> {
    files.map_values(|f: SstFile| f@)
}

/// What one directory holds.
pub enum DirContent {
    /// A full, independently openable copy of a store.
    Image {
        /// The comparator name of the copied store.
        comparator: Vec<u8>,
        /// The copied store's next sequence number.
        next_seqno: u64,
        /// The copied column families.
        cfs: Vec<Cf>,
    },
    /// The sorted files of one exported column family.
    Export {
        /// The exported files.
        files: Vec<SstFile>,
    },
}

/// Mathematical value of a [`DirContent`].
#[verifier::ext_equal]
pub ghost enum DirContentView {
    Image { comparator: Seq<u8>, next_seqno: u64, cfs: Seq<CfView> },
    Export { files: Seq<SstFileView> },
}

impl View for DirContent {
    type V = DirContentView;

    open spec fn view(&self) -> DirContentView {
        match self {
            DirContent::Image { comparator, next_seqno, cfs } => DirContentView::Image {
                comparator: comparator@,
                next_seqno: *next_seqno,
                cfs: cfs_view(cfs@),
            },
            DirContent::Export { files } => DirContentView::Export { files: sst_view(files@) },
        }
    }
}

impl DirContentView {
    /// What a directory must satisfy: an image is a well-formed store copy,
    /// an export holds files with pairwise distinct names and unique keys.
    pub open spec fn wf(self) -> bool {
        match self {
            DirContentView::Image { cfs, .. } => {
                &&& forall|i: int, j: int| 0 <= i < j < cfs.len() ==> cfs[i].name != cfs[j].name
                &&& forall|i: int| 0 <= i < cfs.len() ==> (#[trigger] cfs[i]).wf()
            },
            DirContentView::Export { files } => {
                &&& forall|i: int, j: int|
                    0 <= i < j < files.len() ==> files[i].relative_filename
                        != files[j].relative_filename
                &&& forall|i: int| 0 <= i < files.len() ==> keys_unique((#[trigger] files[i]).entries)
            },
        }
    }
}

/// One named directory.
pub struct Dir {
    /// The directory's path.
    pub path: Vec<u8>,
    /// What it holds.
    pub content: DirContent,
}

/// Mathematical value of a [`Dir`].
#[verifier::ext_equal]
pub ghost struct DirView {
    pub path: Seq<u8>,
    pub content: DirContentView,
}

impl View for Dir {
    type V = DirView;

    open spec fn view(&self) -> DirView {
        DirView { path: self.path@, content: self.content@ }
    }
}

/// The views of a sequence of directories.
pub open spec fn dirs_view(dirs: Seq<Dir>) -> Seq<DirView> {
    dirs.map_values(|d: Dir| d@)
}

/// Durable storage: a set of named directories.
pub struct Fs {
    /// The directories, with pairwise distinct paths.
    pub dirs: Vec<Dir>,
}

/// Mathematical value of an [`Fs`].
#[verifier::ext_equal]
pub ghost struct FsView {
    pub dirs: Seq<DirView>,
}

impl View for Fs {
    type V = FsView;

    open spec fn view(&self) -> FsView {
        FsView { dirs: dirs_view(self.dirs@) }
    }
}

impl FsView {
    /// Directory paths are unique and every directory is well formed.
    pub open spec fn wf(self) -> bool {
        &&& forall|i: int, j: int| 0 <= i < j < self.dirs.len() ==> self.dirs[i].path != self.dirs[j].path
        &&& forall|i: int| 0 <= i < self.dirs.len() ==> (#[trigger] self.dirs[i]).content.wf()
    }

    /// Whether a directory of that path exists.
    pub open spec fn has_dir(self, path: Seq<u8>) -> bool {
        exists|i: int| 0 <= i < self.dirs.len() && (#[trigger] self.dirs[i]).path == path
    }

    /// The index of the directory of that path.
    pub open spec fn dir_idx(self, path: Seq<u8>) -> int {
        choose|i: int| 0 <= i < self.dirs.len() && (#[trigger] self.dirs[i]).path == path
    }

    /// What the directory of that path holds.
    pub open spec fn dir_content(self, path: Seq<u8>) -> DirContentView {
        self.dirs[self.dir_idx(path)].content
    }

    /// The storage after one more directory.
    pub open spec fn add_dir(self, path: Seq<u8>, content: DirContentView) -> FsView {
        FsView { dirs: self.dirs.push(DirView { path, content }) }
    }
}

/// Under unique paths, the index of a directory's path is its position.
pub proof fn lemma_dir_idx(fv: FsView, i: int)
    requires
        fv.wf(),
        0 <= i < fv.dirs.len(),
    ensures
        fv.has_dir(fv.dirs[i].path),
        fv.dir_idx(fv.dirs[i].path) == i,
{
    let p = fv.dirs[i].path;
    assert(fv.has_dir(p));
    let j = fv.dir_idx(p);
    assert(0 <= j < fv.dirs.len() && fv.dirs[j].path == p);
}

/// Adding a fresh directory keeps storage well formed and leaves every other
/// directory's presence and content unchanged.
pub proof fn lemma_add_dir(fv: FsView, path: Seq<u8>, content: DirContentView)
    requires
        fv.wf(),
        !fv.has_dir(path),
        content.wf(),
    ensures
        fv.add_dir(path, content).wf(),
        fv.add_dir(path, content).has_dir(path),
        fv.add_dir(path, content).dir_idx(path) == fv.dirs.len(),
        fv.add_dir(path, content).dir_content(path) == content,
        forall|p2: Seq<u8>|
            p2 != path ==> (fv.add_dir(path, content).has_dir(p2) <==> fv.has_dir(p2)),
        forall|p2: Seq<u8>|
            p2 != path && fv.has_dir(p2) ==> fv.add_dir(path, content).dir_content(p2)
                == fv.dir_content(p2) && fv.add_dir(path, content).dir_idx(p2) == fv.dir_idx(p2),
{
    let fv2 = fv.add_dir(path, content);
    assert(fv2.dirs[fv.dirs.len() as int].path == path);
    assert forall|i: int, j: int| 0 <= i < j < fv2.dirs.len() implies fv2.dirs[i].path
        != fv2.dirs[j].path by {
        if j < fv2.dirs.len() - 1 {
            assert(fv2.dirs[i] == fv.dirs[i] && fv2.dirs[j] == fv.dirs[j]);
        } else {
            assert(fv2.dirs[i] == fv.dirs[i]);
            assert(fv.has_dir(fv.dirs[i].path));
        }
    }
    assert forall|i: int| 0 <= i < fv2.dirs.len() implies (#[trigger] fv2.dirs[i]).content.wf() by {
        if i < fv2.dirs.len() - 1 {
            assert(fv2.dirs[i] == fv.dirs[i]);
        }
    }
    lemma_dir_idx(fv2, fv.dirs.len() as int);
    assert forall|p2: Seq<u8>| p2 != path implies (fv2.has_dir(p2) <==> fv.has_dir(p2)) by {
        if fv2.has_dir(p2) {
            let i = fv2.dir_idx(p2);
            assert(0 <= i < fv2.dirs.len() && fv2.dirs[i].path == p2);
            assert(i < fv.dirs.len());
            assert(fv.dirs[i].path == p2);
        }
        if fv.has_dir(p2) {
            let i = fv.dir_idx(p2);
            assert(fv2.dirs[i].path == p2);
        }
    }
    assert forall|p2: Seq<u8>| p2 != path && fv.has_dir(p2) implies fv2.dir_content(p2)
        == fv.dir_content(p2) && fv2.dir_idx(p2) == fv.dir_idx(p2) by {
        let i = fv.dir_idx(p2);
        assert(0 <= i < fv.dirs.len() && fv.dirs[i].path == p2);
        assert(fv2.dirs[i] == fv.dirs[i]);
        lemma_dir_idx(fv2, i);
    }
}

/// Whether the file a record points at is still present.
pub open spec fn file_present(fv: FsView, fm: FileMetadataView) -> bool {
    &&& fv.has_dir(fm.directory)
    &&& match fv.dir_content(fm.directory) {
        DirContentView::Export { files } => exists|i: int|
            0 <= i < files.len() && (#[trigger] files[i]).relative_filename
                == fm.relative_filename,
        DirContentView::Image { .. } => false,
    }
}

/// The index of the file a record points at within its directory.
pub open spec fn file_idx(fv: FsView, fm: FileMetadataView) -> int {
    match fv.dir_content(fm.directory) {
        DirContentView::Export { files } => choose|i: int|
            0 <= i < files.len() && (#[trigger] files[i]).relative_filename
                == fm.relative_filename,
        DirContentView::Image { .. } => 0,
    }
}

/// The entries of the file a record points at.
pub open spec fn file_entries(fv: FsView, fm: FileMetadataView) -> Seq<EntryView> {
    match fv.dir_content(fm.directory) {
        DirContentView::Export { files } => files[file_idx(fv, fm)].entries,
        DirContentView::Image { .. } => Seq::empty(),
    }
}

/// Whether every file a bundle references is still present.
pub open spec fn all_files_present(fv: FsView, m: MetaDataView) -> bool {
    forall|i: int| 0 <= i < m.files.len() ==> file_present(fv, #[trigger] m.files[i])
}

/// The entries of every file a list of records points at, in order.
pub open spec fn bundle_entries(fv: FsView, files: Seq<FileMetadataView>) -> Seq<EntryView>
    decreases files.len(),
{
    if files.len() == 0 {
        Seq::empty()
    } else {
        file_entries(fv, files[0]) + bundle_entries(fv, files.drop_first())
    }
}

/// The key/value map a bundle describes, read from storage.
pub open spec fn bundle_source_map(fv: FsView, m: MetaDataView) -> Map<Seq<u8>, Seq<u8>> {
    entries_map(bundle_entries(fv, m.files))
}

/// Listing one more record appends its file's entries.
pub proof fn lemma_bundle_entries_snoc(fv: FsView, files: Seq<FileMetadataView>, x: FileMetadataView)
    ensures
        bundle_entries(fv, files.push(x)) == bundle_entries(fv, files) + file_entries(fv, x),
    decreases files.len(),
{
    if files.len() == 0 {
        assert(files.push(x)[0] == x);
        assert(files.push(x).drop_first() =~= Seq::<FileMetadataView>::empty());
        assert(bundle_entries(fv, files.push(x)) == file_entries(fv, x) + bundle_entries(
            fv,
            Seq::<FileMetadataView>::empty(),
        ));
        assert(bundle_entries(fv, files.push(x)) =~= bundle_entries(fv, files) + file_entries(
            fv,
            x,
        ));
    } else {
        assert(files.push(x)[0] == files[0]);
        assert(files.push(x).drop_first() =~= files.drop_first().push(x));
        lemma_bundle_entries_snoc(fv, files.drop_first(), x);
        assert(bundle_entries(fv, files.push(x)) == file_entries(fv, files[0]) + (bundle_entries(
            fv,
            files.drop_first(),
        ) + file_entries(fv, x)));
        assert(bundle_entries(fv, files.push(x)) =~= bundle_entries(fv, files) + file_entries(
            fv,
            x,
        ));
    }
}

impl Fs {
    /// Empty storage.
    pub fn new() -> (fs: Fs)
        ensures
            fs@.wf(),
            fs@.dirs.len() == 0,
    {
        let fs = Fs { dirs: Vec::new() };
        proof {
            assert(dirs_view(fs.dirs@) =~= Seq::<DirView>::empty());
        }
        fs
    }

    /// The index of the directory named `path`, if it exists.
    pub(crate) fn find_dir(&self, path: &Vec<u8>) -> (r: Option<usize>)
        ensures
            match r {
                Some(i) => {
                    &&& i < self@.dirs.len()
                    &&& self@.dirs[i as int].path == path@
                    &&& self@.has_dir(path@)
                    &&& self@.wf() ==> self@.dir_idx(path@) == i
                },
                None => !self@.has_dir(path@),
            },
    {
        let mut i: usize = 0;
        while i < self.dirs.len()
            invariant
                i <= self@.dirs.len(),
                self@.dirs.len() == self.dirs@.len(),
                forall|p: int| 0 <= p < i ==> (#[trigger] self@.dirs[p]).path != path@,
            decreases self.dirs@.len() - i,
        {
            if bytes_eq(&self.dirs[i].path, path) {
                proof {
                    if self@.wf() {
                        lemma_dir_idx(self@, i as int);
                    }
                }
                return Some(i);
            }
            i = i + 1;
        }
        None
    }
}

/// The index of the file named `name` in `files`, if present.
pub(crate) fn find_sst(files: &Vec<SstFile>, name: &Vec<u8>) -> (r: Option<usize>)
    ensures
        match r {
            Some(i) => i < files@.len() && sst_view(files@)[i as int].relative_filename == name@,
            None => forall|p: int|
                0 <= p < files@.len() ==> (#[trigger] sst_view(files@)[p]).relative_filename
                    != name@,
        },
{
    let mut i: usize = 0;
    while i < files.len()
        invariant
            i <= files@.len(),
            forall|p: int| 0 <= p < i ==> (#[trigger] sst_view(files@)[p]).relative_filename != name@,
        decreases files@.len() - i,
    {
        if bytes_eq(&files[i].relative_filename, name) {
            proof {
                assert(sst_view(files@)[i as int].relative_filename == files@[i as int]@.relative_filename);
            }
            return Some(i);
        }
        i = i + 1;
    }
    None
}

} // verus!
