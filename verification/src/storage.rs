//! Rows the document store writes and reads: assets of document versions, their
//! links to nodes, the outcome of refreshing an asset file, an attachment's path.

use vstd::prelude::*;

verus! {

/// An asset to insert (a crop of a page region and the like).
#[derive(Debug)]
pub struct NewAsset<'a> {
    pub document_version_id: i64,
    pub sha256: &'a str,
    pub mime_type: &'a str,
    pub relative_path: &'a str,
    pub width: Option<i64>,
    pub height: Option<i64>,
    pub size_bytes: Option<i64>,
    pub metadata_json: Option<&'a str>,
}

/// A link between a document node and an asset.
#[derive(Debug)]
pub struct NewNodeAsset {
    pub node_id: i64,
    pub asset_id: i64,
}

/// How many rows refreshing an asset file changed: asset rows, and alt-text rows
/// whose fingerprint was moved to the new file (counted apart: no asset row at
/// all hints at a path that moved, while no alt text is normal).
#[derive(Debug, Clone, Copy, PartialEq, Eq, Structural)]
pub struct RefreshedAsset {
    pub assets: u64,
    pub alt_texts: u64,
}

impl RefreshedAsset {
    /// Nothing refreshed.
    pub fn none() -> (r: RefreshedAsset)
        ensures
            r.assets == 0 && r.alt_texts == 0,
    {
        RefreshedAsset { assets: 0, alt_texts: 0 }
    }
}

/// Where an attachment's file is, and its name.
#[derive(Debug)]
pub struct AttachmentWithPath {
    pub file_path: String,
    pub file_name: String,
}

/// Where the extraction of a document version stands.
#[derive(Debug, Clone, Copy, PartialEq, Eq, Structural)]
pub enum ExtractionStatus {
    Pending,
    Completed,
    CompletedWithWarnings,
    /// Replaced by a newer completed version of the same attachment.
    Superseded,
}

impl ExtractionStatus {
    /// The status as stored.
    pub open spec fn text(self) -> Seq<char> {
        match self {
            ExtractionStatus::Pending => "pending"@,
            ExtractionStatus::Completed => "completed"@,
            ExtractionStatus::CompletedWithWarnings => "completed_with_warnings"@,
            ExtractionStatus::Superseded => "superseded"@,
        }
    }

    /// The status's stored text.
    pub fn as_str(self) -> (r: &'static str)
        ensures
            r@ == self.text(),
    {
        match self {
            ExtractionStatus::Pending => "pending",
            ExtractionStatus::Completed => "completed",
            ExtractionStatus::CompletedWithWarnings => "completed_with_warnings",
            ExtractionStatus::Superseded => "superseded",
        }
    }

    /// A version counts as extracted (and is looked up, or superseded by a newer
    /// one) when it completed, with or without warnings.
    pub fn is_completed(self) -> (r: bool)
        ensures
            r == (self == ExtractionStatus::Completed || self == ExtractionStatus::CompletedWithWarnings),
    {
        match self {
            ExtractionStatus::Completed | ExtractionStatus::CompletedWithWarnings => true,
            _ => false,
        }
    }
}

/// A document version to insert: the attachment it was extracted from, the key
/// of its content, the extractor and its configuration, and its status.
#[derive(Debug)]
pub struct NewDocumentVersion<'a> {
    pub attachment_id: i64,
    pub content_key: &'a str,
    pub schema_version: &'a str,
    pub source_sha256: &'a str,
    pub source_mime_type: &'a str,
    pub extractor_name: &'a str,
    pub extractor_version: &'a str,
    pub config_hash: &'a str,
    pub parent_version_id: Option<i64>,
    pub status: ExtractionStatus,
    pub warnings_json: Option<&'a str>,
    pub metadata_json: Option<&'a str>,
}

} // verus!
