//! The export bundle: per-file statistics plus the comparator identity of the
//! exported column family. Bundles are produced by the exporter, carried to a
//! destination store, and consumed by the import engine.

use vstd::prelude::*;

use crate::bytes::lex_le;

verus! {

/// Statistics of one immutable sorted file, recorded at export time and never
/// mutated afterwards.
#[derive(Debug, Clone, PartialEq, Eq)]
pub struct FileMetadata {
    /// Name of the column family that owned the file.
    pub column_family_name: Vec<u8>,
    /// Level of the file within the log-structured tree.
    pub level: i32,
    /// Engine-assigned file number, unique within a bundle.
    pub file_number: u64,
    /// File name relative to its directory.
    pub relative_filename: Vec<u8>,
    /// Logical name of the file.
    pub name: Vec<u8>,
    /// Directory the exported file was placed in.
    pub directory: Vec<u8>,
    /// Storage tier the file was kept on.
    pub temperature: u8,
    /// Smallest write sequence number of any entry in the file.
    pub smallest_seqno: u64,
    /// Largest write sequence number of any entry in the file.
    pub largest_seqno: u64,
    /// Smallest key of the file under the comparator.
    pub smallestkey: Vec<u8>,
    /// Largest key of the file under the comparator.
    pub largestkey: Vec<u8>,
    /// Number of entries in the file.
    pub num_entries: u64,
    /// Number of deletion markers in the file.
    pub num_deletions: u64,
    /// Number of reads sampled against the file.
    pub num_reads_sampled: u64,
    /// Whether a compaction involving the file was running at export time.
    pub being_compacted: bool,
    /// Time the file was created.
    pub file_creation_time: u64,
    /// Oldest ancestor time of the file.
    pub oldest_ancester_time: u64,
    /// Checksum of the file, empty when none was recorded.
    pub file_checksum: Vec<u8>,
    /// Name of the checksum function, empty when none was recorded.
    pub file_checksum_func_name: Vec<u8>,
}

/// Mathematical value of a [`FileMetadata`].
#[verifier::ext_equal]
pub ghost struct FileMetadataView {
    pub column_family_name: Seq<u8>,
    pub level: i32,
    pub file_number: u64,
    pub relative_filename: Seq<u8>,
    pub name: Seq<u8>,
    pub directory: Seq<u8>,
    pub temperature: u8,
    pub smallest_seqno: u64,
    pub largest_seqno: u64,
    pub smallestkey: Seq<u8>,
    pub largestkey: Seq<u8>,
    pub num_entries: u64,
    pub num_deletions: u64,
    pub num_reads_sampled: u64,
    pub being_compacted: bool,
    pub file_creation_time: u64,
    pub oldest_ancester_time: u64,
    pub file_checksum: Seq<u8>,
    pub file_checksum_func_name: Seq<u8>,
}

impl View for FileMetadata {
    type V = FileMetadataView;

    open spec fn view(&self) -> FileMetadataView {
        FileMetadataView {
            column_family_name: self.column_family_name@,
            level: self.level,
            file_number: self.file_number,
            relative_filename: self.relative_filename@,
            name: self.name@,
            directory: self.directory@,
            temperature: self.temperature,
            smallest_seqno: self.smallest_seqno,
            largest_seqno: self.largest_seqno,
            smallestkey: self.smallestkey@,
            largestkey: self.largestkey@,
            num_entries: self.num_entries,
            num_deletions: self.num_deletions,
            num_reads_sampled: self.num_reads_sampled,
            being_compacted: self.being_compacted,
            file_creation_time: self.file_creation_time,
            oldest_ancester_time: self.oldest_ancester_time,
            file_checksum: self.file_checksum@,
            file_checksum_func_name: self.file_checksum_func_name@,
        }
    }
}

impl FileMetadataView {
    /// The invariant of one file's statistics: the recorded ranges are ordered.
    pub open spec fn wf(self) -> bool {
        &&& self.smallest_seqno <= self.largest_seqno
        &&& lex_le(self.smallestkey, self.largestkey)
    }
}

/// The self-describing record of one exported column family: the comparator
/// that ordered its keys, and the statistics of every exported file.
#[derive(Debug, Clone, PartialEq, Eq)]
pub struct ExportImportFilesMetaData {
    /// Name of the comparator of the source column family.
    pub db_comparator_name: Vec<u8>,
    /// Statistics of the exported files, in export order.
    pub files: Vec<FileMetadata>,
}

/// Mathematical value of an [`ExportImportFilesMetaData`].
#[verifier::ext_equal]
pub ghost struct MetaDataView {
    pub db_comparator_name: Seq<u8>,
    pub files: Seq<FileMetadataView>,
}

/// The views of a sequence of file records.
pub open spec fn files_view(files: Seq<FileMetadata>) -> Seq<FileMetadataView> {
    files.map_values(|f: FileMetadata| f@)
}

impl View for ExportImportFilesMetaData {
    type V = MetaDataView;

    open spec fn view(&self) -> MetaDataView {
        MetaDataView { db_comparator_name: self.db_comparator_name@, files: files_view(self.files@) }
    }
}

impl MetaDataView {
    /// The invariant of a bundle: every file is well formed and file numbers
    /// identify files uniquely.
    pub open spec fn wf(self) -> bool {
        &&& forall|i: int| 0 <= i < self.files.len() ==> (#[trigger] self.files[i]).wf()
        &&& forall|i: int, j: int|
            0 <= i < j < self.files.len() ==> self.files[i].file_number != self.files[j].file_number
    }
}

} // verus!
