//! The relational record of scanned documents: a page table keyed by
//! physical path and an attachment table beside it, both with upsert
//! semantics ("last write wins").  This module is the in-memory model of the
//! store; reading and writing its on-disk form is the persistence layer's
//! work.

use vstd::prelude::*;
use crate::text::{lex_leq, sort_keys_lex};

verus! {

/// Mathematical view of one page row.
pub ghost struct PageRow {
    pub vault: Seq<char>,
    pub path: Seq<char>,
    pub virtual_path: Seq<char>,
    pub metadata: Seq<char>,
    pub last_modified: Seq<char>,
    pub created: Seq<char>,
}

/// Mathematical view of one attachment row.
pub ghost struct AttachmentRow {
    pub path: Seq<char>,
    pub virtual_path: Seq<char>,
    pub file_type: Seq<char>,
}

/// One stored page: vault, physical path (the unique key), virtual path,
/// serialized metadata, and timestamps.
pub struct PageRecord {
    pub vault: String,
    pub path: String,
    pub virtual_path: String,
    pub metadata: String,
    pub last_modified: String,
    pub created: String,
}

impl PageRecord {
    /// The row this record stands for.
    pub open spec fn row(&self) -> PageRow {
        PageRow {
            vault: self.vault@,
            path: self.path@,
            virtual_path: self.virtual_path@,
            metadata: self.metadata@,
            last_modified: self.last_modified@,
            created: self.created@,
        }
    }
}

/// One stored attachment: physical path (the unique key), virtual path, and
/// an asset type tag.
pub struct AttachmentRecord {
    pub path: String,
    pub virtual_path: String,
    pub file_type: String,
}

impl AttachmentRecord {
    /// The row this record stands for.
    pub open spec fn row(&self) -> AttachmentRow {
        AttachmentRow {
            path: self.path@,
            virtual_path: self.virtual_path@,
            file_type: self.file_type@,
        }
    }
}

/// A page row projected for callers that read the file tree.
pub struct FileRecord {
    pub path: String,
    pub virtual_path: String,
    pub metadata: String,
}

/// Why a query against the store failed.
#[derive(Debug)]
pub enum DbError {
    /// The query named a column the page table does not have.
    UnknownColumn { column: String },
}

impl DbError {
    /// A human-readable description of the failure.
    pub fn message(&self) -> (r: String)
        ensures
            self matches DbError::UnknownColumn { column } ==> r@ == "unknown column: "@
                + column@,
    {
        match self {
            DbError::UnknownColumn { column } => {
                let mut r = String::from_str("unknown column: ");
                r.append(column.as_str());
                r
            },
        }
    }
}

/// Whether the page table has a column of this name.
pub open spec fn known_column(f: Seq<char>) -> bool {
    ||| f == "vault"@
    ||| f == "path"@
    ||| f == "virtualPath"@
    ||| f == "metadata"@
    ||| f == "last_modified"@
    ||| f == "created"@
}

/// The value a page row holds in the named column.
pub open spec fn spec_column_value(r: PageRow, f: Seq<char>) -> Seq<char> {
    if f == "vault"@ {
        r.vault
    } else if f == "path"@ {
        r.path
    } else if f == "virtualPath"@ {
        r.virtual_path
    } else if f == "metadata"@ {
        r.metadata
    } else if f == "last_modified"@ {
        r.last_modified
    } else {
        r.created
    }
}

/// First row index at or after `from` whose path is `path`.
pub open spec fn spec_find_row(t: Seq<PageRow>, path: Seq<char>, from: int) -> Option<int>
    decreases t.len() - from,
{
    if from < 0 || from >= t.len() {
        None
    } else if t[from].path == path {
        Some(from)
    } else {
        spec_find_row(t, path, from + 1)
    }
}

/// How many rows carry `path`.
pub open spec fn spec_path_count(t: Seq<PageRow>, path: Seq<char>) -> nat
    decreases t.len(),
{
    if t.len() == 0 {
        0
    } else {
        (if t[0].path == path {
            1nat
        } else {
            0nat
        }) + spec_path_count(t.skip(1), path)
    }
}

/// No two rows share a path.
pub open spec fn distinct_paths(t: Seq<PageRow>) -> bool {
    forall|i: int, j: int| 0 <= i < j < t.len() ==> t[i].path != t[j].path
}

/// The table after upserting `r`: a fresh path is appended; an existing path
/// has its virtual path, metadata and timestamps replaced, its vault kept.
pub open spec fn spec_upsert(t: Seq<PageRow>, r: PageRow) -> Seq<PageRow> {
    match spec_find_row(t, r.path, 0) {
        None => t.push(r),
        Some(i) => t.update(
            i,
            PageRow {
                vault: t[i].vault,
                path: r.path,
                virtual_path: r.virtual_path,
                metadata: r.metadata,
                last_modified: r.last_modified,
                created: r.created,
            },
        ),
    }
}

/// A found index lies in range and carries the path; nothing earlier does.
proof fn lemma_find_row_found(t: Seq<PageRow>, path: Seq<char>, from: int)
    requires
        0 <= from,
        spec_find_row(t, path, from) is Some,
    ensures
        ({
            let i = spec_find_row(t, path, from)->Some_0;
            from <= i < t.len() && t[i].path == path && forall|k: int|
                from <= k < i ==> t[k].path != path
        }),
    decreases t.len() - from,
{
    if from < t.len() && t[from].path != path {
        lemma_find_row_found(t, path, from + 1);
    }
}

/// When nothing is found, no row at or after `from` carries the path.
proof fn lemma_find_row_none(t: Seq<PageRow>, path: Seq<char>, from: int)
    requires
        0 <= from,
        spec_find_row(t, path, from) is None,
    ensures
        forall|k: int| from <= k < t.len() ==> t[k].path != path,
    decreases t.len() - from,
{
    if from < t.len() {
        lemma_find_row_none(t, path, from + 1);
    }
}

/// When no row carries the path, its count is zero.
proof fn lemma_count_zero(t: Seq<PageRow>, path: Seq<char>)
    requires
        forall|k: int| 0 <= k < t.len() ==> t[k].path != path,
    ensures
        spec_path_count(t, path) == 0,
    decreases t.len(),
{
    if t.len() > 0 {
        assert(forall|k: int| 0 <= k < t.skip(1).len() ==> #[trigger] t.skip(1)[k] == t[k + 1]);
        lemma_count_zero(t.skip(1), path);
    }
}

/// In a table with distinct paths, a path that some row carries is carried
/// by exactly one row.
pub proof fn lemma_distinct_count_one(t: Seq<PageRow>, path: Seq<char>)
    requires
        distinct_paths(t),
        spec_find_row(t, path, 0) is Some,
    ensures
        spec_path_count(t, path) == 1,
    decreases t.len(),
{
    lemma_find_row_found(t, path, 0);
    let i = spec_find_row(t, path, 0)->Some_0;
    if i == 0 {
        assert(forall|k: int|
            0 <= k < t.skip(1).len() ==> #[trigger] t.skip(1)[k] == t[k + 1]);
        lemma_count_zero(t.skip(1), path);
    } else {
        assert(t[0].path != path);
        assert(forall|k: int|
            0 <= k < t.skip(1).len() ==> #[trigger] t.skip(1)[k] == t[k + 1]);
        assert(t.skip(1)[i - 1].path == path);
        assert(distinct_paths(t.skip(1)));
        assert(spec_find_row(t.skip(1), path, 0) is Some || spec_find_row(
            t.skip(1),
            path,
            0,
        ) is None);
        if spec_find_row(t.skip(1), path, 0) is None {
            lemma_find_row_none(t.skip(1), path, 0);
            assert(false);
        }
        lemma_distinct_count_one(t.skip(1), path);
    }
}

/// Upserting preserves path distinctness.
pub proof fn lemma_upsert_distinct(t: Seq<PageRow>, r: PageRow)
    requires
        distinct_paths(t),
    ensures
        distinct_paths(spec_upsert(t, r)),
{
    match spec_find_row(t, r.path, 0) {
        None => {
            lemma_find_row_none(t, r.path, 0);
            assert(forall|k: int| 0 <= k < t.len() ==> #[trigger] t.push(r)[k] == t[k]);
            assert(t.push(r)[t.len() as int] == r);
        },
        Some(i) => {
            lemma_find_row_found(t, r.path, 0);
            let u = spec_upsert(t, r);
            assert(forall|k: int| 0 <= k < t.len() ==> #[trigger] u[k].path == t[k].path);
        },
    }
}

/// Idempotent upsert: writing two records with the same physical path, in
/// either state of the table, leaves exactly one row with that path, and its
/// virtual path, metadata and timestamps are those of the later write.
pub proof fn lemma_upsert_idempotent(t: Seq<PageRow>, r1: PageRow, r2: PageRow)
    requires
        distinct_paths(t),
        r1.path == r2.path,
    ensures
        ({
            let u = spec_upsert(spec_upsert(t, r1), r2);
            &&& distinct_paths(u)
            &&& spec_path_count(u, r2.path) == 1
            &&& spec_find_row(u, r2.path, 0) matches Some(i) && (u[i].virtual_path
                == r2.virtual_path && u[i].metadata == r2.metadata && u[i].last_modified
                == r2.last_modified && u[i].created == r2.created)
        }),
{
    let t1 = spec_upsert(t, r1);
    lemma_upsert_distinct(t, r1);
    let u = spec_upsert(t1, r2);
    lemma_upsert_distinct(t1, r2);
    match spec_find_row(t, r1.path, 0) {
        None => {
            lemma_find_row_none(t, r1.path, 0);
            assert(t1 == t.push(r1));
            assert(t1[t.len() as int].path == r2.path);
            lemma_find_row_found_exists(t1, r2.path, t.len() as int);
        },
        Some(i) => {
            lemma_find_row_found(t, r1.path, 0);
            assert(t1[i].path == r2.path);
            lemma_find_row_found_exists(t1, r2.path, i);
        },
    }
    lemma_find_row_found(t1, r2.path, 0);
    let j = spec_find_row(t1, r2.path, 0)->Some_0;
    assert(u == t1.update(j, u[j]));
    assert(u[j].path == r2.path);
    lemma_find_row_found_exists(u, r2.path, j);
    lemma_find_row_found(u, r2.path, 0);
    let k = spec_find_row(u, r2.path, 0)->Some_0;
    assert(k == j) by {
        if k < j {
            assert(u[k].path == u[j].path);
        }
    }
    lemma_distinct_count_one(u, r2.path);
}

/// A row carrying the path makes the search succeed.
proof fn lemma_find_row_found_exists(t: Seq<PageRow>, path: Seq<char>, w: int)
    requires
        0 <= w < t.len(),
        t[w].path == path,
    ensures
        spec_find_row(t, path, 0) is Some,
{
    if spec_find_row(t, path, 0) is None {
        lemma_find_row_none(t, path, 0);
        assert(false);
    }
}

/// The database: a page table and an attachment table, each keyed by
/// physical path.
pub struct Database {
    pages: Vec<PageRecord>,
    attachments: Vec<AttachmentRecord>,
}

impl Database {
    /// The page rows, in table order.
    pub closed spec fn pages(&self) -> Seq<PageRow> {
        self.pages@.map_values(|r: PageRecord| r.row())
    }

    /// The attachment rows, in table order.
    pub closed spec fn attachments(&self) -> Seq<AttachmentRow> {
        self.attachments@.map_values(|r: AttachmentRecord| r.row())
    }

    /// Well-formed: paths are unique within each table.
    pub open spec fn wf(&self) -> bool {
        distinct_paths(self.pages()) && (forall|i: int, j: int|
            0 <= i < j < self.attachments().len() ==> self.attachments()[i].path
                != self.attachments()[j].path)
    }

    /// An empty database.
    pub fn new() -> (r: Database)
        ensures
            r.wf(),
            r.pages().len() == 0,
            r.attachments().len() == 0,
    {
        let r = Database { pages: Vec::new(), attachments: Vec::new() };
        proof {
            assert(r.pages() =~= Seq::<PageRow>::empty());
            assert(r.attachments() =~= Seq::<AttachmentRow>::empty());
        }
        r
    }

    /// Finds the page row with `path`, when present.
    fn find_page(&self, path: &str) -> (r: Option<usize>)
        ensures
            match spec_find_row(self.pages(), path@, 0) {
                Some(j) => r matches Some(i) && i == j && i < self.pages().len(),
                None => r is None,
            },
    {
        let key = path.to_owned();
        let mut i: usize = 0;
        while i < self.pages.len()
            invariant
                i <= self.pages.len(),
                key@ == path@,
                spec_find_row(self.pages(), path@, 0) == spec_find_row(
                    self.pages(),
                    path@,
                    i as int,
                ),
            decreases self.pages.len() - i,
        {
            proof {
                assert(self.pages()[i as int] == self.pages@[i as int].row());
            }
            if self.pages[i].path == key {
                return Some(i);
            }
            i = i + 1;
        }
        proof {
            assert(self.pages().len() == self.pages@.len());
        }
        None
    }

    /// Inserts or updates the page stored under `path`: an update replaces
    /// the virtual path, metadata and timestamps and keeps the stored vault.
    pub fn add_page(&mut self, vault: &str, path: &str, virtual_path: &str, metadata: &str, last_modified: &str, created: &str)
        requires
            old(self).wf(),
        ensures
            final(self).wf(),
            final(self).pages() == spec_upsert(
                old(self).pages(),
                PageRow {
                    vault: vault@,
                    path: path@,
                    virtual_path: virtual_path@,
                    metadata: metadata@,
                    last_modified: last_modified@,
                    created: created@,
                },
            ),
            final(self).attachments() == old(self).attachments(),
    {
        let ghost r = PageRow {
            vault: vault@,
            path: path@,
            virtual_path: virtual_path@,
            metadata: metadata@,
            last_modified: last_modified@,
            created: created@,
        };
        proof {
            lemma_upsert_distinct(old(self).pages(), r);
        }
        match self.find_page(path) {
            Some(i) => {
                let kept = self.pages.remove(i);
                let row = PageRecord {
                    vault: kept.vault,
                    path: path.to_owned(),
                    virtual_path: virtual_path.to_owned(),
                    metadata: metadata.to_owned(),
                    last_modified: last_modified.to_owned(),
                    created: created.to_owned(),
                };
                self.pages.insert(i, row);
                proof {
                    lemma_find_row_found(old(self).pages(), path@, 0);
                    assert(self.pages() =~= spec_upsert(old(self).pages(), r));
                    assert(self.attachments() =~= old(self).attachments());
                }
            },
            None => {
                let row = PageRecord {
                    vault: vault.to_owned(),
                    path: path.to_owned(),
                    virtual_path: virtual_path.to_owned(),
                    metadata: metadata.to_owned(),
                    last_modified: last_modified.to_owned(),
                    created: created.to_owned(),
                };
                self.pages.push(row);
                proof {
                    assert(self.pages() =~= spec_upsert(old(self).pages(), r));
                    assert(self.attachments() =~= old(self).attachments());
                }
            },
        }
    }

    /// Finds the attachment row with `path`, when present.
    fn find_attachment(&self, path: &str) -> (r: Option<usize>)
        ensures
            r matches Some(i) ==> i < self.attachments().len() && self.attachments()[
                i as int
            ].path == path@,
            r is None ==> forall|k: int|
                0 <= k < self.attachments().len() ==> self.attachments()[k].path != path@,
    {
        let key = path.to_owned();
        let mut i: usize = 0;
        while i < self.attachments.len()
            invariant
                i <= self.attachments.len(),
                key@ == path@,
                forall|k: int| 0 <= k < i ==> self.attachments()[k].path != path@,
            decreases self.attachments.len() - i,
        {
            proof {
                assert(self.attachments()[i as int] == self.attachments@[i as int].row());
            }
            if self.attachments[i].path == key {
                return Some(i);
            }
            i = i + 1;
        }
        proof {
            assert(self.attachments().len() == self.attachments@.len());
        }
        None
    }

    /// Inserts or updates the attachment stored under `path`: an update
    /// replaces the virtual path and type tag.
    pub fn add_attachment(&mut self, local_path: &str, virtual_path: &str, file_type: &str)
        requires
            old(self).wf(),
        ensures
            final(self).wf(),
            final(self).pages() == old(self).pages(),
            ({
                let r = AttachmentRow {
                    path: local_path@,
                    virtual_path: virtual_path@,
                    file_type: file_type@,
                };
                ||| final(self).attachments() == old(self).attachments().push(r)
                ||| exists|i: int|
                    0 <= i < old(self).attachments().len() && old(self).attachments()[i].path
                        == local_path@ && final(self).attachments() == old(
                        self,
                    ).attachments().update(i, r)
            }),
    {
        let row = AttachmentRecord {
            path: local_path.to_owned(),
            virtual_path: virtual_path.to_owned(),
            file_type: file_type.to_owned(),
        };
        match self.find_attachment(local_path) {
            Some(i) => {
                self.attachments.remove(i);
                self.attachments.insert(i, row);
                proof {
                    let r = AttachmentRow {
                        path: local_path@,
                        virtual_path: virtual_path@,
                        file_type: file_type@,
                    };
                    assert(self.attachments() =~= old(self).attachments().update(i as int, r));
                    assert(self.pages() =~= old(self).pages());
                }
            },
            None => {
                self.attachments.push(row);
                proof {
                    let r = AttachmentRow {
                        path: local_path@,
                        virtual_path: virtual_path@,
                        file_type: file_type@,
                    };
                    assert(self.attachments() =~= old(self).attachments().push(r));
                    assert(self.pages() =~= old(self).pages());
                }
            },
        }
    }

    /// The current file tree: one `FileRecord` for every page row, sorted
    /// ascending by virtual path in the binary collation.
    pub fn get_file_tree(&self) -> (r: Vec<FileRecord>)
        ensures
            r@.len() == self.pages().len(),
            forall|a: int, b: int|
                0 <= a < b < r@.len() ==> lex_leq(r@[a].virtual_path@, r@[b].virtual_path@),
            exists|js: Seq<int>| tree_selection(self.pages(), js, r@),
    {
        let mut keys: Vec<String> = Vec::new();
        let mut i: usize = 0;
        while i < self.pages.len()
            invariant
                i <= self.pages.len(),
                keys@.len() == i,
                forall|k: int|
                    0 <= k < i ==> (#[trigger] keys@[k])@ == self.pages()[k].virtual_path,
            decreases self.pages.len() - i,
        {
            proof {
                assert(self.pages()[i as int] == self.pages@[i as int].row());
            }
            let key = self.pages[i].virtual_path.clone();
            keys.push(key);
            i = i + 1;
        }
        proof {
            assert(self.pages().len() == self.pages@.len());
        }
        let order = sort_keys_lex(&keys);
        let mut r: Vec<FileRecord> = Vec::new();
        let mut w: usize = 0;
        while w < order.len()
            invariant
                w <= order@.len(),
                order@.len() == keys@.len() == self.pages().len(),
                r@.len() == w,
                forall|a: int| 0 <= a < order@.len() ==> (#[trigger] order@[a]) < keys@.len(),
                forall|k: int|
                    0 <= k < keys@.len() ==> (#[trigger] keys@[k])@ == self.pages()[
                        k
                    ].virtual_path,
                forall|a: int|
                    0 <= a < w ==> ((#[trigger] r@[a]).path@ == self.pages()[
                        order@[a] as int
                    ].path && r@[a].virtual_path@ == self.pages()[order@[a] as int].virtual_path
                        && r@[a].metadata@ == self.pages()[order@[a] as int].metadata),
            decreases order@.len() - w,
        {
            let j = order[w];
            proof {
                assert(self.pages()[j as int] == self.pages@[j as int].row());
            }
            let rec = FileRecord {
                path: self.pages[j].path.clone(),
                virtual_path: self.pages[j].virtual_path.clone(),
                metadata: self.pages[j].metadata.clone(),
            };
            r.push(rec);
            w = w + 1;
        }
        proof {
            let js = Seq::new(order@.len() as nat, |a: int| order@[a] as int);
            assert forall|a: int, b: int| 0 <= a < b < js.len() implies js[a] != js[b] by {
                assert(order@[a] != order@[b]);
            }
            assert(tree_selection(self.pages(), js, r@));
            assert forall|a: int, b: int|
                0 <= a < b < r@.len() implies lex_leq(
                r@[a].virtual_path@,
                r@[b].virtual_path@,
            ) by {
                assert(lex_leq(keys@[order@[a] as int]@, keys@[order@[b] as int]@));
            }
        }
        r
    }

    /// Every page row in full, in table order: the accessor the
    /// persistence layer uses to write complete columns.
    pub fn all_pages(&self) -> (r: Vec<PageRecord>)
        ensures
            r@.len() == self.pages().len(),
            forall|i: int| 0 <= i < r@.len() ==> (#[trigger] r@[i]).row() == self.pages()[i],
    {
        let mut r: Vec<PageRecord> = Vec::new();
        let mut i: usize = 0;
        while i < self.pages.len()
            invariant
                i <= self.pages.len(),
                r@.len() == i,
                forall|k: int| 0 <= k < i ==> (#[trigger] r@[k]).row() == self.pages()[k],
            decreases self.pages.len() - i,
        {
            proof {
                assert(self.pages()[i as int] == self.pages@[i as int].row());
            }
            let rec = PageRecord {
                vault: self.pages[i].vault.clone(),
                path: self.pages[i].path.clone(),
                virtual_path: self.pages[i].virtual_path.clone(),
                metadata: self.pages[i].metadata.clone(),
                last_modified: self.pages[i].last_modified.clone(),
                created: self.pages[i].created.clone(),
            };
            r.push(rec);
            i = i + 1;
        }
        proof {
            assert(self.pages().len() == self.pages@.len());
        }
        r
    }

    /// First row index at or after `from` whose virtual path is `vp`.
    pub open spec fn spec_find_vpath(t: Seq<PageRow>, vp: Seq<char>, from: int) -> Option<int>
        decreases t.len() - from,
    {
        if from < 0 || from >= t.len() {
            None
        } else if t[from].virtual_path == vp {
            Some(from)
        } else {
            Self::spec_find_vpath(t, vp, from + 1)
        }
    }

    /// The first page stored under virtual path `virtual_path`, when one
    /// exists.
    pub fn get_page_by_virtual_path(&self, virtual_path: &str) -> (r: Option<FileRecord>)
        ensures
            match Self::spec_find_vpath(self.pages(), virtual_path@, 0) {
                Some(i) => r matches Some(rec) && (rec.path@ == self.pages()[i].path
                    && rec.virtual_path@ == self.pages()[i].virtual_path && rec.metadata@
                    == self.pages()[i].metadata),
                None => r is None,
            },
    {
        let key = virtual_path.to_owned();
        let mut i: usize = 0;
        while i < self.pages.len()
            invariant
                i <= self.pages.len(),
                key@ == virtual_path@,
                Self::spec_find_vpath(self.pages(), virtual_path@, 0) == Self::spec_find_vpath(
                    self.pages(),
                    virtual_path@,
                    i as int,
                ),
            decreases self.pages.len() - i,
        {
            proof {
                assert(self.pages()[i as int] == self.pages@[i as int].row());
            }
            if self.pages[i].virtual_path == key {
                return Some(
                    FileRecord {
                        path: self.pages[i].path.clone(),
                        virtual_path: self.pages[i].virtual_path.clone(),
                        metadata: self.pages[i].metadata.clone(),
                    },
                );
            }
            i = i + 1;
        }
        proof {
            assert(self.pages().len() == self.pages@.len());
        }
        None
    }

    /// Reads the named columns of every page row: one list of column/value
    /// pairs per row, in table order; a column the table does not have
    /// fails the whole query.
    pub fn query_by_fields(&self, fields: &Vec<String>) -> (r: Result<
        Vec<Vec<(String, String)>>,
        DbError,
    >)
        ensures
            r is Ok == (forall|k: int|
                0 <= k < fields@.len() ==> known_column((#[trigger] fields@[k])@)),
            r matches Ok(rows) ==> rows@.len() == self.pages().len() && (forall|j: int, k: int|
                0 <= j < rows@.len() && 0 <= k < fields@.len() ==> (#[trigger] rows@[j]@[k]).0@
                    == fields@[k]@ && rows@[j]@[k].1@ == spec_column_value(
                    self.pages()[j],
                    fields@[k]@,
                ) && rows@[j]@.len() == fields@.len()),
            r matches Err(e) ==> e matches DbError::UnknownColumn { column } && !known_column(
                column@,
            ),
    {
        let c_vault = String::from_str("vault");
        let c_path = String::from_str("path");
        let c_vpath = String::from_str("virtualPath");
        let c_meta = String::from_str("metadata");
        let c_mod = String::from_str("last_modified");
        let c_created = String::from_str("created");
        let mut k: usize = 0;
        while k < fields.len()
            invariant
                k <= fields.len(),
                c_vault@ == "vault"@ && c_path@ == "path"@ && c_vpath@ == "virtualPath"@
                    && c_meta@ == "metadata"@ && c_mod@ == "last_modified"@ && c_created@
                    == "created"@,
                forall|m: int| 0 <= m < k ==> known_column((#[trigger] fields@[m])@),
            decreases fields.len() - k,
        {
            let ok = fields[k] == c_vault || fields[k] == c_path || fields[k] == c_vpath
                || fields[k] == c_meta || fields[k] == c_mod || fields[k] == c_created;
            if !ok {
                proof {
                    assert(!known_column(fields@[k as int]@));
                }
                return Err(DbError::UnknownColumn { column: fields[k].clone() });
            }
            k = k + 1;
        }
        let mut rows: Vec<Vec<(String, String)>> = Vec::new();
        let mut j: usize = 0;
        while j < self.pages.len()
            invariant
                j <= self.pages.len(),
                rows@.len() == j,
                c_vault@ == "vault"@ && c_path@ == "path"@ && c_vpath@ == "virtualPath"@
                    && c_meta@ == "metadata"@ && c_mod@ == "last_modified"@ && c_created@
                    == "created"@,
                forall|m: int| 0 <= m < fields@.len() ==> known_column((#[trigger] fields@[m])@),
                forall|j2: int, k2: int|
                    0 <= j2 < rows@.len() && 0 <= k2 < fields@.len() ==> (
                    #[trigger] rows@[j2]@[k2]).0@ == fields@[k2]@ && rows@[j2]@[k2].1@
                        == spec_column_value(self.pages()[j2], fields@[k2]@) && rows@[j2]@.len()
                        == fields@.len(),
            decreases self.pages.len() - j,
        {
            proof {
                assert(self.pages()[j as int] == self.pages@[j as int].row());
            }
            let mut row: Vec<(String, String)> = Vec::new();
            let mut k2: usize = 0;
            while k2 < fields.len()
                invariant
                    k2 <= fields.len(),
                    j < self.pages.len(),
                    self.pages()[j as int] == self.pages@[j as int].row(),
                    row@.len() == k2,
                    c_vault@ == "vault"@ && c_path@ == "path"@ && c_vpath@ == "virtualPath"@
                        && c_meta@ == "metadata"@ && c_mod@ == "last_modified"@ && c_created@
                        == "created"@,
                    forall|m: int|
                        0 <= m < fields@.len() ==> known_column((#[trigger] fields@[m])@),
                    forall|m: int|
                        0 <= m < k2 ==> (#[trigger] row@[m]).0@ == fields@[m]@ && row@[m].1@
                            == spec_column_value(self.pages()[j as int], fields@[m]@),
                decreases fields.len() - k2,
            {
                let value: String = if fields[k2] == c_vault {
                    self.pages[j].vault.clone()
                } else if fields[k2] == c_path {
                    self.pages[j].path.clone()
                } else if fields[k2] == c_vpath {
                    self.pages[j].virtual_path.clone()
                } else if fields[k2] == c_meta {
                    self.pages[j].metadata.clone()
                } else if fields[k2] == c_mod {
                    self.pages[j].last_modified.clone()
                } else {
                    proof {
                        assert(known_column(fields@[k2 as int]@));
                        assert(fields@[k2 as int]@ == "created"@);
                    }
                    self.pages[j].created.clone()
                };
                row.push((fields[k2].clone(), value));
                k2 = k2 + 1;
            }
            rows.push(row);
            j = j + 1;
        }
        proof {
            assert(self.pages().len() == self.pages@.len());
        }
        Ok(rows)
    }

    /// First attachment index at or after `from` whose virtual path is
    /// `vp`.
    pub open spec fn spec_find_attachment(t: Seq<AttachmentRow>, vp: Seq<char>, from: int) -> Option<
        int,
    >
        decreases t.len() - from,
    {
        if from < 0 || from >= t.len() {
            None
        } else if t[from].virtual_path == vp {
            Some(from)
        } else {
            Self::spec_find_attachment(t, vp, from + 1)
        }
    }

    /// The first attachment stored under virtual path `virtual_path`, when
    /// one exists.
    pub fn get_attachment_by_virtual_path(&self, virtual_path: &str) -> (r: Option<
        AttachmentRecord,
    >)
        ensures
            match Self::spec_find_attachment(self.attachments(), virtual_path@, 0) {
                Some(i) => r matches Some(rec) && rec.row() == self.attachments()[i],
                None => r is None,
            },
    {
        let key = virtual_path.to_owned();
        let mut i: usize = 0;
        while i < self.attachments.len()
            invariant
                i <= self.attachments.len(),
                key@ == virtual_path@,
                Self::spec_find_attachment(self.attachments(), virtual_path@, 0)
                    == Self::spec_find_attachment(self.attachments(), virtual_path@, i as int),
            decreases self.attachments.len() - i,
        {
            proof {
                assert(self.attachments()[i as int] == self.attachments@[i as int].row());
            }
            if self.attachments[i].virtual_path == key {
                return Some(
                    AttachmentRecord {
                        path: self.attachments[i].path.clone(),
                        virtual_path: self.attachments[i].virtual_path.clone(),
                        file_type: self.attachments[i].file_type.clone(),
                    },
                );
            }
            i = i + 1;
        }
        proof {
            assert(self.attachments().len() == self.attachments@.len());
        }
        None
    }

    /// How many pages the given vault holds.
    pub fn count_pages(&self, vault: &str) -> (c: usize)
        ensures
            c == self.pages().filter(|r: PageRow| r.vault == vault@).len(),
    {
        let key = vault.to_owned();
        let mut c: usize = 0;
        let mut i: usize = 0;
        proof {
            reveal(Seq::filter);
            assert(self.pages().take(0) =~= Seq::<PageRow>::empty());
        }
        while i < self.pages.len()
            invariant
                i <= self.pages.len(),
                key@ == vault@,
                c <= i,
                c == self.pages().take(i as int).filter(|r: PageRow| r.vault == vault@).len(),
            decreases self.pages.len() - i,
        {
            let ghost pre = self.pages().take(i as int);
            let ghost post = self.pages().take(i as int + 1);
            proof {
                reveal(Seq::filter);
                assert(post.drop_last() =~= pre);
                assert(post.last() == self.pages()[i as int]);
                assert(self.pages()[i as int] == self.pages@[i as int].row());
            }
            if self.pages[i].vault == key {
                c = c + 1;
            }
            i = i + 1;
        }
        proof {
            assert(self.pages().len() == self.pages@.len());
            assert(self.pages().take(self.pages@.len() as int) =~= self.pages());
        }
        c
    }

    /// The physical paths of every page in the given vault, in table order.
    pub fn list_files(&self, vault: &str) -> (r: Vec<String>)
        ensures
            r.deep_view() == self.pages().filter(|p: PageRow| p.vault == vault@).map_values(
                |p: PageRow| p.path,
            ),
    {
        let key = vault.to_owned();
        let mut r: Vec<String> = Vec::new();
        let mut i: usize = 0;
        proof {
            reveal(Seq::filter);
            assert(self.pages().take(0) =~= Seq::<PageRow>::empty());
            assert(r.deep_view() =~= self.pages().take(0).filter(
                |p: PageRow| p.vault == vault@,
            ).map_values(|p: PageRow| p.path));
        }
        while i < self.pages.len()
            invariant
                i <= self.pages.len(),
                key@ == vault@,
                r.deep_view() == self.pages().take(i as int).filter(
                    |p: PageRow| p.vault == vault@,
                ).map_values(|p: PageRow| p.path),
            decreases self.pages.len() - i,
        {
            let ghost pre = self.pages().take(i as int);
            let ghost post = self.pages().take(i as int + 1);
            let ghost rdv = r.deep_view();
            proof {
                reveal(Seq::filter);
                assert(post.drop_last() =~= pre);
                assert(post.last() == self.pages()[i as int]);
                assert(self.pages()[i as int] == self.pages@[i as int].row());
            }
            if self.pages[i].vault == key {
                let p = self.pages[i].path.clone();
                r.push(p);
                proof {
                    assert(r.deep_view() =~= rdv.push(self.pages()[i as int].path));
                    assert(r.deep_view() =~= post.filter(
                        |p: PageRow| p.vault == vault@,
                    ).map_values(|p: PageRow| p.path));
                }
            } else {
                proof {
                    assert(r.deep_view() =~= post.filter(
                        |p: PageRow| p.vault == vault@,
                    ).map_values(|p: PageRow| p.path));
                }
            }
            i = i + 1;
        }
        proof {
            assert(self.pages().len() == self.pages@.len());
            assert(self.pages().take(self.pages@.len() as int) =~= self.pages());
        }
        r
    }

    /// Removes every page whose physical path is not among `existing`: the
    /// stale-cleanup pass for files that left the disk.
    pub fn cleanup_stale_records(&mut self, existing: &Vec<String>)
        requires
            old(self).wf(),
        ensures
            final(self).wf(),
            final(self).pages() == old(self).pages().filter(
                |p: PageRow| existing.deep_view().contains(p.path),
            ),
            final(self).attachments() == old(self).attachments(),
    {
        let ghost keep = |p: PageRow| existing.deep_view().contains(p.path);
        let mut kept: Vec<PageRecord> = Vec::new();
        let mut i: usize = 0;
        proof {
            reveal(Seq::filter);
            assert(old(self).pages().take(0) =~= Seq::<PageRow>::empty());
            assert(kept@.map_values(|r: PageRecord| r.row()) =~= old(self).pages().take(
                0,
            ).filter(keep));
        }
        while i < self.pages.len()
            invariant
                i <= self.pages.len(),
                self == old(self),
                keep == (|p: PageRow| existing.deep_view().contains(p.path)),
                kept@.map_values(|r: PageRecord| r.row()) == old(self).pages().take(
                    i as int,
                ).filter(keep),
            decreases self.pages.len() - i,
        {
            let ghost pre = old(self).pages().take(i as int);
            let ghost post = old(self).pages().take(i as int + 1);
            let ghost kv = kept@.map_values(|r: PageRecord| r.row());
            proof {
                reveal(Seq::filter);
                assert(post.drop_last() =~= pre);
                assert(post.last() == old(self).pages()[i as int]);
                assert(self.pages()[i as int] == self.pages@[i as int].row());
            }
            let mut present = false;
            let mut k: usize = 0;
            while k < existing.len()
                invariant
                    k <= existing.len(),
                    i < self.pages.len(),
                    present ==> existing.deep_view().contains(self.pages@[i as int].row().path),
                    !present ==> forall|m: int|
                        0 <= m < k ==> existing.deep_view()[m] != self.pages@[
                            i as int
                        ].row().path,
                decreases existing.len() - k,
            {
                proof {
                    assert(existing.deep_view()[k as int] == existing@[k as int]@);
                }
                if existing[k] == self.pages[i].path {
                    present = true;
                    proof {
                        assert(existing.deep_view()[k as int] == self.pages@[
                            i as int
                        ].row().path);
                    }
                    k = existing.len();
                } else {
                    k = k + 1;
                }
            }
            if present {
                let row = PageRecord {
                    vault: self.pages[i].vault.clone(),
                    path: self.pages[i].path.clone(),
                    virtual_path: self.pages[i].virtual_path.clone(),
                    metadata: self.pages[i].metadata.clone(),
                    last_modified: self.pages[i].last_modified.clone(),
                    created: self.pages[i].created.clone(),
                };
                proof {
                    assert(row.row() == old(self).pages()[i as int]);
                }
                kept.push(row);
                proof {
                    assert(kept@.map_values(|r: PageRecord| r.row()) =~= kv.push(
                        old(self).pages()[i as int],
                    ));
                    assert(kept@.map_values(|r: PageRecord| r.row()) =~= post.filter(keep));
                }
            } else {
                proof {
                    assert(existing.deep_view().len() == existing@.len());
                    assert(!existing.deep_view().contains(old(self).pages()[i as int].path));
                    assert(kept@.map_values(|r: PageRecord| r.row()) =~= post.filter(keep));
                }
            }
            i = i + 1;
        }
        proof {
            assert(old(self).pages().take(old(self).pages@.len() as int) =~= old(self).pages());
            assert(self.pages().len() == self.pages@.len());
        }
        self.pages = kept;
        proof {
            lemma_filter_distinct(old(self).pages(), keep);
            assert(self.attachments() =~= old(self).attachments());
        }
    }
}

/// `js` selects `rs` from the page rows: one distinct row index per
/// record, fields carried over unchanged.  With as many indices as rows,
/// this makes `rs` a permutation of the projected table.
pub open spec fn tree_selection(t: Seq<PageRow>, js: Seq<int>, rs: Seq<FileRecord>) -> bool {
    &&& js.len() == rs.len() == t.len()
    &&& forall|a: int| 0 <= a < js.len() ==> 0 <= #[trigger] js[a] < t.len()
    &&& forall|a: int, b: int| 0 <= a < b < js.len() ==> js[a] != js[b]
    &&& forall|a: int|
        0 <= a < rs.len() ==> ((#[trigger] rs[a]).path@ == t[js[a]].path && rs[a].virtual_path@
            == t[js[a]].virtual_path && rs[a].metadata@ == t[js[a]].metadata)
}

/// Every element of a filtered table is an element of the table.
proof fn lemma_filter_elems(s: Seq<PageRow>, p: spec_fn(PageRow) -> bool)
    ensures
        forall|i: int| 0 <= i < s.filter(p).len() ==> s.contains(#[trigger] s.filter(p)[i]),
    decreases s.len(),
{
    reveal(Seq::filter);
    if s.len() > 0 {
        let d = s.drop_last();
        lemma_filter_elems(d, p);
        assert forall|i: int|
            0 <= i < s.filter(p).len() implies s.contains(#[trigger] s.filter(p)[i]) by {
            if i < d.filter(p).len() {
                assert(d.filter(p)[i] == s.filter(p)[i]);
                let w = choose|w: int| 0 <= w < d.len() && d[w] == d.filter(p)[i];
                assert(s[w] == s.filter(p)[i]);
            } else {
                assert(s.filter(p)[i] == s.last());
                assert(s[s.len() - 1] == s.last());
            }
        }
    }
}

/// Filtering a table with distinct paths keeps the paths distinct.
proof fn lemma_filter_distinct(s: Seq<PageRow>, p: spec_fn(PageRow) -> bool)
    requires
        distinct_paths(s),
    ensures
        distinct_paths(s.filter(p)),
    decreases s.len(),
{
    reveal(Seq::filter);
    if s.len() > 0 {
        let d = s.drop_last();
        assert(distinct_paths(d));
        lemma_filter_distinct(d, p);
        lemma_filter_elems(d, p);
        let f = s.filter(p);
        assert forall|i: int, j: int|
            0 <= i < j < f.len() implies f[i].path != f[j].path by {
            if j < d.filter(p).len() {
                assert(d.filter(p)[i] == f[i]);
                assert(d.filter(p)[j] == f[j]);
            } else {
                assert(f[j] == s.last());
                assert(d.filter(p)[i] == f[i]);
                let w = choose|w: int| 0 <= w < d.len() && d[w] == f[i];
                assert(s[w] == f[i]);
                assert(s[w].path != s[s.len() - 1].path);
            }
        }
    }
}

} // verus!
