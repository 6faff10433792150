//! The retrieval facade over the metadata store: resolving pages and
//! attachments by virtual path.  Reading the files themselves is the
//! caller's work; the facade hands back locations and content types.

use vstd::prelude::*;
use crate::db::{Database, FileRecord, AttachmentRecord, tree_selection};
use crate::text::lex_leq;

verus! {

/// A page's content with its stored metadata.
pub struct PageContent {
    pub content: String,
    pub metadata: String,
}

/// The main interface for resolving pages and attachments.
pub struct Fetch {
    pub db: Database,
}

/// The content type guessed for a path, as `mime_guess` derives it from
/// the extension; the mapping itself is left unspecified.
pub uninterp spec fn mime_of(path: Seq<char>) -> Seq<char>;

/// Relies on `mime_guess::from_path` with its octet-stream fallback: the
/// result depends on the path alone and is never empty.
#[verifier::external_body]
fn guess_content_type(path: &str) -> (r: String)
    ensures
        r@ == mime_of(path@),
        r@.len() > 0,
{
    mime_guess::from_path(path).first_or_octet_stream().to_string()
}

impl Fetch {
    /// Creates a new instance of `Fetch` over the given store.
    pub fn new(db: Database) -> (r: Fetch)
        ensures
            r.db == db,
    {
        Fetch { db }
    }

    /// The current file tree of the store, sorted ascending by virtual
    /// path.
    pub fn get_file_tree(&self) -> (r: Vec<FileRecord>)
        ensures
            r@.len() == self.db.pages().len(),
            forall|a: int, b: int|
                0 <= a < b < r@.len() ==> lex_leq(r@[a].virtual_path@, r@[b].virtual_path@),
            exists|js: Seq<int>| tree_selection(self.db.pages(), js, r@),
    {
        self.db.get_file_tree()
    }

    /// The stored record of the page under `virtual_path`, when one
    /// exists: its physical location and its metadata.
    pub fn resolve_page(&self, virtual_path: &str) -> (r: Option<FileRecord>)
        ensures
            match Database::spec_find_vpath(self.db.pages(), virtual_path@, 0) {
                Some(i) => r matches Some(rec) && (rec.path@ == self.db.pages()[i].path
                    && rec.virtual_path@ == self.db.pages()[i].virtual_path && rec.metadata@
                    == self.db.pages()[i].metadata),
                None => r is None,
            },
    {
        self.db.get_page_by_virtual_path(virtual_path)
    }

    /// The physical location and guessed content type of the attachment
    /// under `virtual_path`, when one exists.
    pub fn attachment_location(&self, virtual_path: &str) -> (r: Option<(String, String)>)
        ensures
            match Database::spec_find_attachment(self.db.attachments(), virtual_path@, 0) {
                Some(i) => r matches Some(p) && (p.0@ == self.db.attachments()[i].path && p.1@
                    == mime_of(self.db.attachments()[i].path) && p.1@.len() > 0),
                None => r is None,
            },
    {
        match self.db.get_attachment_by_virtual_path(virtual_path) {
            Some(rec) => {
                let mime = guess_content_type(rec.path.as_str());
                Some((rec.path, mime))
            },
            None => None,
        }
    }
}

} // verus!
