//! The flat record ledger used by the embedding pipeline: rows keyed by
//! physical path (`lpath`) with a surrogate identifier, inserted once and
//! patched field by field.  Opening and migrating its on-disk form is the
//! persistence layer's work.

use vstd::prelude::*;

verus! {

/// Mathematical view of one ledger row.
pub ghost struct RecRow {
    pub id: u64,
    pub lpath: Seq<char>,
    pub title: Seq<char>,
    pub timestamp: Seq<char>,
    pub vpath: Seq<char>,
    pub project: Option<Seq<char>>,
}

/// A record to be stored in the ledger.
pub struct Record {
    pub lpath: String,
    pub title: String,
    pub timestamp: String,
    pub vpath: String,
    pub project: Option<String>,
}

impl Record {
    /// The row this record stands for, under the given identifier.
    pub open spec fn row(&self, id: u64) -> RecRow {
        RecRow {
            id,
            lpath: self.lpath@,
            title: self.title@,
            timestamp: self.timestamp@,
            vpath: self.vpath@,
            project: match self.project {
                Some(p) => Some(p@),
                None => None,
            },
        }
    }
}

/// Returned status for adding a record.
#[derive(Debug, PartialEq, Eq, Structural)]
pub enum AddRecordStatus {
    Inserted,
    AlreadyExists,
}

/// Identifies a record by its surrogate identifier or its physical path.
pub enum RecordIdentifier {
    Id(u64),
    Lpath(String),
}

/// Optional updates to a record: only the present fields change.
pub struct RecordUpdate {
    pub lpath: Option<String>,
    pub title: Option<String>,
    pub timestamp: Option<String>,
    pub vpath: Option<String>,
    pub project: Option<String>,
}

/// A row after applying an update: present fields replaced, absent fields
/// kept.
pub open spec fn spec_apply_update(r: RecRow, u: RecordUpdate) -> RecRow {
    RecRow {
        id: r.id,
        lpath: match u.lpath {
            Some(x) => x@,
            None => r.lpath,
        },
        title: match u.title {
            Some(x) => x@,
            None => r.title,
        },
        timestamp: match u.timestamp {
            Some(x) => x@,
            None => r.timestamp,
        },
        vpath: match u.vpath {
            Some(x) => x@,
            None => r.vpath,
        },
        project: match u.project {
            Some(x) => Some(x@),
            None => r.project,
        },
    }
}

/// Whether a row is the one an identifier names.
pub open spec fn spec_identified(r: RecRow, ident: RecordIdentifier) -> bool {
    match ident {
        RecordIdentifier::Id(i) => r.id == i,
        RecordIdentifier::Lpath(l) => r.lpath == l@,
    }
}

/// First row index at or after `from` that the identifier names.
pub open spec fn spec_find_ident(t: Seq<RecRow>, ident: RecordIdentifier, from: int) -> Option<
    int,
>
    decreases t.len() - from,
{
    if from < 0 || from >= t.len() {
        None
    } else if spec_identified(t[from], ident) {
        Some(from)
    } else {
        spec_find_ident(t, ident, from + 1)
    }
}

/// First row index at or after `from` whose physical path is `lpath`.
pub open spec fn spec_find_lpath(t: Seq<RecRow>, lpath: Seq<char>, from: int) -> Option<int>
    decreases t.len() - from,
{
    if from < 0 || from >= t.len() {
        None
    } else if t[from].lpath == lpath {
        Some(from)
    } else {
        spec_find_lpath(t, lpath, from + 1)
    }
}

/// One stored row: the record plus its surrogate identifier.
struct StoredRecord {
    id: u64,
    lpath: String,
    title: String,
    timestamp: String,
    vpath: String,
    project: Option<String>,
}

impl StoredRecord {
    /// The row this entry stands for.
    spec fn row_of(&self) -> RecRow {
        RecRow {
            id: self.id,
            lpath: self.lpath@,
            title: self.title@,
            timestamp: self.timestamp@,
            vpath: self.vpath@,
            project: match self.project {
                Some(p) => Some(p@),
                None => None,
            },
        }
    }
}

/// The ledger: rows keyed by physical path, identifiers assigned in
/// insertion order.
pub struct RecordStore {
    rows: Vec<StoredRecord>,
    next_id: u64,
}

impl RecordStore {
    /// The stored rows, in table order.
    pub closed spec fn rows(&self) -> Seq<RecRow> {
        self.rows@.map_values(|r: StoredRecord| r.row_of())
    }

    /// The identifier the next insertion receives.
    pub closed spec fn next_id(&self) -> u64 {
        self.next_id
    }

    /// Well-formed: physical paths unique, identifiers unique and below
    /// the next one.
    pub open spec fn wf(&self) -> bool {
        &&& forall|i: int, j: int|
            0 <= i < j < self.rows().len() ==> self.rows()[i].lpath != self.rows()[j].lpath
        &&& forall|i: int, j: int|
            0 <= i < j < self.rows().len() ==> self.rows()[i].id != self.rows()[j].id
        &&& forall|i: int| 0 <= i < self.rows().len() ==> (#[trigger] self.rows()[i]).id < self.next_id()
    }

    /// An empty ledger.
    pub fn new() -> (r: RecordStore)
        ensures
            r.wf(),
            r.rows().len() == 0,
            r.next_id() == 0,
    {
        let r = RecordStore { rows: Vec::new(), next_id: 0 };
        proof {
            assert(r.rows() =~= Seq::<RecRow>::empty());
        }
        r
    }

    /// Finds the row holding `lpath`, when present.
    fn find_lpath(&self, lpath: &str) -> (r: Option<usize>)
        ensures
            match spec_find_lpath(self.rows(), lpath@, 0) {
                Some(j) => r matches Some(i) && i == j && i < self.rows().len(),
                None => r is None,
            },
    {
        let key = lpath.to_owned();
        let mut i: usize = 0;
        while i < self.rows.len()
            invariant
                i <= self.rows.len(),
                key@ == lpath@,
                spec_find_lpath(self.rows(), lpath@, 0) == spec_find_lpath(
                    self.rows(),
                    lpath@,
                    i as int,
                ),
            decreases self.rows.len() - i,
        {
            proof {
                assert(self.rows()[i as int] == self.rows@[i as int].row_of());
            }
            if self.rows[i].lpath == key {
                return Some(i);
            }
            i = i + 1;
        }
        proof {
            assert(self.rows().len() == self.rows@.len());
        }
        None
    }

    /// Whether a record with this physical path is stored.
    pub fn record_exists(&self, lpath: &str) -> (r: bool)
        ensures
            r == (spec_find_lpath(self.rows(), lpath@, 0) is Some),
    {
        self.find_lpath(lpath).is_some()
    }

    /// Inserts a new record, or reports that its physical path is already
    /// taken and leaves the ledger unchanged.
    pub fn add_record(&mut self, record: &Record) -> (r: AddRecordStatus)
        requires
            old(self).wf(),
            old(self).next_id() < u64::MAX,
        ensures
            final(self).wf(),
            match spec_find_lpath(old(self).rows(), record.lpath@, 0) {
                Some(_) => r == AddRecordStatus::AlreadyExists && (final(self).rows() == old(
                    self,
                ).rows() && final(self).next_id() == old(self).next_id()),
                None => r == AddRecordStatus::Inserted && final(self).rows() == old(
                    self,
                ).rows().push(record.row(old(self).next_id())) && final(self).next_id() == old(
                    self,
                ).next_id() + 1,
            },
    {
        match self.find_lpath(record.lpath.as_str()) {
            Some(_) => AddRecordStatus::AlreadyExists,
            None => {
                proof {
                    lemma_find_lpath_none(old(self).rows(), record.lpath@, 0);
                }
                let entry = StoredRecord {
                    id: self.next_id,
                    lpath: record.lpath.clone(),
                    title: record.title.clone(),
                    timestamp: record.timestamp.clone(),
                    vpath: record.vpath.clone(),
                    project: match &record.project {
                        Some(p) => Some(p.clone()),
                        None => None,
                    },
                };
                proof {
                    assert(entry.row_of() == record.row(old(self).next_id()));
                }
                self.rows.push(entry);
                self.next_id = self.next_id + 1;
                proof {
                    assert(self.rows() =~= old(self).rows().push(
                        record.row(old(self).next_id()),
                    ));
                }
                AddRecordStatus::Inserted
            },
        }
    }

    /// Finds the row an identifier names, when present.
    fn find_ident(&self, identifier: &RecordIdentifier) -> (r: Option<usize>)
        ensures
            match spec_find_ident(self.rows(), *identifier, 0) {
                Some(j) => r matches Some(i) && i == j && i < self.rows().len(),
                None => r is None,
            },
    {
        let mut i: usize = 0;
        while i < self.rows.len()
            invariant
                i <= self.rows.len(),
                spec_find_ident(self.rows(), *identifier, 0) == spec_find_ident(
                    self.rows(),
                    *identifier,
                    i as int,
                ),
            decreases self.rows.len() - i,
        {
            proof {
                assert(self.rows()[i as int] == self.rows@[i as int].row_of());
            }
            let hit = match identifier {
                RecordIdentifier::Id(id) => self.rows[i].id == *id,
                RecordIdentifier::Lpath(l) => self.rows[i].lpath == *l,
            };
            if hit {
                return Some(i);
            }
            i = i + 1;
        }
        proof {
            assert(self.rows().len() == self.rows@.len());
        }
        None
    }

    /// Patches the record an identifier names: only the fields present in
    /// the update change; naming no stored record changes nothing.
    pub fn update_record(&mut self, identifier: RecordIdentifier, update: RecordUpdate)
        requires
            old(self).wf(),
        ensures
            update.lpath is None ==> final(self).wf(),
            final(self).next_id() == old(self).next_id(),
            match spec_find_ident(old(self).rows(), identifier, 0) {
                None => final(self).rows() == old(self).rows(),
                Some(i) => final(self).rows() == old(self).rows().update(
                    i,
                    spec_apply_update(old(self).rows()[i], update),
                ),
            },
    {
        let idx = match self.find_ident(&identifier) {
            Some(i) => i,
            None => {
                return ;
            },
        };
        let kept = self.rows.remove(idx);
        let entry = StoredRecord {
            id: kept.id,
            lpath: match &update.lpath {
                Some(x) => x.clone(),
                None => kept.lpath,
            },
            title: match &update.title {
                Some(x) => x.clone(),
                None => kept.title,
            },
            timestamp: match &update.timestamp {
                Some(x) => x.clone(),
                None => kept.timestamp,
            },
            vpath: match &update.vpath {
                Some(x) => x.clone(),
                None => kept.vpath,
            },
            project: match &update.project {
                Some(x) => Some(x.clone()),
                None => kept.project,
            },
        };
        self.rows.insert(idx, entry);
        proof {
            assert(self.rows() =~= old(self).rows().update(
                idx as int,
                spec_apply_update(old(self).rows()[idx as int], update),
            ));
        }
    }

    /// Deletes the record an identifier names; naming no stored record
    /// changes nothing.
    pub fn delete_record(&mut self, identifier: RecordIdentifier)
        requires
            old(self).wf(),
        ensures
            final(self).wf(),
            final(self).next_id() == old(self).next_id(),
            match spec_find_ident(old(self).rows(), identifier, 0) {
                None => final(self).rows() == old(self).rows(),
                Some(i) => final(self).rows() == old(self).rows().remove(i),
            },
    {
        match self.find_ident(&identifier) {
            Some(i) => {
                self.rows.remove(i);
                proof {
                    assert(self.rows() =~= old(self).rows().remove(i as int));
                }
            },
            None => {},
        }
    }

    /// The first physical path stored under `vpath`.
    pub fn get_lpath(&self, vpath: &str) -> (r: Option<String>)
        ensures
            match Self::spec_find_vpath(self.rows(), vpath@, 0) {
                Some(i) => r matches Some(l) && l@ == self.rows()[i].lpath,
                None => r is None,
            },
    {
        let key = vpath.to_owned();
        let mut i: usize = 0;
        while i < self.rows.len()
            invariant
                i <= self.rows.len(),
                key@ == vpath@,
                Self::spec_find_vpath(self.rows(), vpath@, 0) == Self::spec_find_vpath(
                    self.rows(),
                    vpath@,
                    i as int,
                ),
            decreases self.rows.len() - i,
        {
            proof {
                assert(self.rows()[i as int] == self.rows@[i as int].row_of());
            }
            if self.rows[i].vpath == key {
                return Some(self.rows[i].lpath.clone());
            }
            i = i + 1;
        }
        proof {
            assert(self.rows().len() == self.rows@.len());
        }
        None
    }

    /// First row index at or after `from` whose virtual path is `vpath`.
    pub open spec fn spec_find_vpath(t: Seq<RecRow>, vpath: Seq<char>, from: int) -> Option<int>
        decreases t.len() - from,
    {
        if from < 0 || from >= t.len() {
            None
        } else if t[from].vpath == vpath {
            Some(from)
        } else {
            Self::spec_find_vpath(t, vpath, from + 1)
        }
    }

    /// Reads the named columns of every ledger row: one list of
    /// column/value pairs per row, in table order; a column the ledger
    /// does not have fails the whole query.
    pub fn get_records_by_column(&self, columns: &Vec<String>) -> (r: Result<
        Vec<Vec<(String, Option<String>)>>,
        String,
    >)
        ensures
            r is Ok == (forall|k: int|
                0 <= k < columns@.len() ==> known_ledger_column((#[trigger] columns@[k])@)),
            r matches Ok(rows) ==> rows@.len() == self.rows().len() && (forall|j: int, k: int|
                0 <= j < rows@.len() && 0 <= k < columns@.len() ==> (#[trigger] rows@[j]@[k]).0@
                    == columns@[k]@ && (match spec_ledger_value(self.rows()[j], columns@[k]@) {
                    Some(v) => rows@[j]@[k].1 matches Some(s) && s@ == v,
                    None => rows@[j]@[k].1 is None,
                }) && rows@[j]@.len() == columns@.len()),
            r matches Err(m) ==> exists|k: int|
                0 <= k < columns@.len() && !known_ledger_column((#[trigger] columns@[k])@)
                    && m@ == "Invalid column: "@ + columns@[k]@,
    {
        let c_id = String::from_str("id");
        let c_lpath = String::from_str("lpath");
        let c_title = String::from_str("title");
        let c_ts = String::from_str("timestamp");
        let c_vpath = String::from_str("vpath");
        let c_project = String::from_str("project");
        let mut k: usize = 0;
        while k < columns.len()
            invariant
                k <= columns.len(),
                c_id@ == "id"@ && c_lpath@ == "lpath"@ && c_title@ == "title"@ && c_ts@
                    == "timestamp"@ && c_vpath@ == "vpath"@ && c_project@ == "project"@,
                forall|m: int| 0 <= m < k ==> known_ledger_column((#[trigger] columns@[m])@),
            decreases columns.len() - k,
        {
            let ok = columns[k] == c_id || columns[k] == c_lpath || columns[k] == c_title
                || columns[k] == c_ts || columns[k] == c_vpath || columns[k] == c_project;
            if !ok {
                proof {
                    assert(!known_ledger_column(columns@[k as int]@));
                }
                let mut msg = String::from_str("Invalid column: ");
                msg.append(columns[k].as_str());
                return Err(msg);
            }
            k = k + 1;
        }
        let mut rows: Vec<Vec<(String, Option<String>)>> = Vec::new();
        let mut j: usize = 0;
        while j < self.rows.len()
            invariant
                j <= self.rows.len(),
                rows@.len() == j,
                c_id@ == "id"@ && c_lpath@ == "lpath"@ && c_title@ == "title"@ && c_ts@
                    == "timestamp"@ && c_vpath@ == "vpath"@ && c_project@ == "project"@,
                forall|m: int|
                    0 <= m < columns@.len() ==> known_ledger_column((#[trigger] columns@[m])@),
                forall|j2: int, k2: int|
                    0 <= j2 < rows@.len() && 0 <= k2 < columns@.len() ==> (
                    #[trigger] rows@[j2]@[k2]).0@ == columns@[k2]@ && (match spec_ledger_value(
                        self.rows()[j2],
                        columns@[k2]@,
                    ) {
                        Some(v) => rows@[j2]@[k2].1 matches Some(s) && s@ == v,
                        None => rows@[j2]@[k2].1 is None,
                    }) && rows@[j2]@.len() == columns@.len(),
            decreases self.rows.len() - j,
        {
            proof {
                assert(self.rows()[j as int] == self.rows@[j as int].row_of());
            }
            let mut row: Vec<(String, Option<String>)> = Vec::new();
            let mut k2: usize = 0;
            while k2 < columns.len()
                invariant
                    k2 <= columns.len(),
                    j < self.rows.len(),
                    self.rows()[j as int] == self.rows@[j as int].row_of(),
                    row@.len() == k2,
                    c_id@ == "id"@ && c_lpath@ == "lpath"@ && c_title@ == "title"@ && c_ts@
                        == "timestamp"@ && c_vpath@ == "vpath"@ && c_project@ == "project"@,
                    forall|m: int|
                        0 <= m < columns@.len() ==> known_ledger_column(
                            (#[trigger] columns@[m])@,
                        ),
                    forall|m: int|
                        0 <= m < k2 ==> (#[trigger] row@[m]).0@ == columns@[m]@ && (
                        match spec_ledger_value(self.rows()[j as int], columns@[m]@) {
                            Some(v) => row@[m].1 matches Some(s) && s@ == v,
                            None => row@[m].1 is None,
                        }),
                decreases columns.len() - k2,
            {
                let value: Option<String> = if columns[k2] == c_id {
                    Some(crate::text::u64_to_string(self.rows[j].id))
                } else if columns[k2] == c_lpath {
                    Some(self.rows[j].lpath.clone())
                } else if columns[k2] == c_title {
                    Some(self.rows[j].title.clone())
                } else if columns[k2] == c_ts {
                    Some(self.rows[j].timestamp.clone())
                } else if columns[k2] == c_vpath {
                    Some(self.rows[j].vpath.clone())
                } else {
                    proof {
                        assert(known_ledger_column(columns@[k2 as int]@));
                        assert(columns@[k2 as int]@ == "project"@);
                    }
                    match &self.rows[j].project {
                        Some(p) => Some(p.clone()),
                        None => None,
                    }
                };
                row.push((columns[k2].clone(), value));
                k2 = k2 + 1;
            }
            rows.push(row);
            j = j + 1;
        }
        proof {
            assert(self.rows().len() == self.rows@.len());
        }
        Ok(rows)
    }

    /// The stored paths of every row: the physical and/or virtual path,
    /// per the two flags, row by row.
    pub fn get_all_paths(&self, include_lpath: bool, include_vpath: bool) -> (r: Vec<String>)
        ensures
            r.deep_view() == spec_all_paths(self.rows(), include_lpath, include_vpath),
    {
        let mut r: Vec<String> = Vec::new();
        let mut i: usize = 0;
        proof {
            assert(self.rows().take(0) =~= Seq::<RecRow>::empty());
            assert(r.deep_view() =~= spec_all_paths(
                self.rows().take(0),
                include_lpath,
                include_vpath,
            ));
        }
        while i < self.rows.len()
            invariant
                i <= self.rows.len(),
                r.deep_view() == spec_all_paths(
                    self.rows().take(i as int),
                    include_lpath,
                    include_vpath,
                ),
            decreases self.rows.len() - i,
        {
            let ghost pre = self.rows().take(i as int);
            let ghost post = self.rows().take(i as int + 1);
            proof {
                assert(post.drop_last() =~= pre);
                assert(post.last() == self.rows()[i as int]);
                assert(self.rows()[i as int] == self.rows@[i as int].row_of());
            }
            if include_lpath {
                let ghost dv = r.deep_view();
                let l = self.rows[i].lpath.clone();
                r.push(l);
                proof {
                    assert(r.deep_view() =~= dv.push(self.rows()[i as int].lpath));
                }
            }
            if include_vpath {
                let ghost dv = r.deep_view();
                let v = self.rows[i].vpath.clone();
                r.push(v);
                proof {
                    assert(r.deep_view() =~= dv.push(self.rows()[i as int].vpath));
                }
            }
            proof {
                if include_lpath && include_vpath {
                    assert(r.deep_view() =~= spec_all_paths(pre, true, true) + seq![
                        post.last().lpath,
                        post.last().vpath,
                    ]);
                } else if include_lpath {
                    assert(r.deep_view() =~= spec_all_paths(pre, true, false) + seq![
                        post.last().lpath,
                    ]);
                } else if include_vpath {
                    assert(r.deep_view() =~= spec_all_paths(pre, false, true) + seq![
                        post.last().vpath,
                    ]);
                } else {
                    assert(r.deep_view() =~= spec_all_paths(pre, false, false));
                }
                assert(r.deep_view() =~= spec_all_paths(post, include_lpath, include_vpath));
            }
            i = i + 1;
        }
        proof {
            assert(self.rows().take(self.rows@.len() as int) =~= self.rows());
            assert(self.rows().len() == self.rows@.len());
        }
        r
    }
}

/// Whether the ledger has a column of this name.
pub open spec fn known_ledger_column(f: Seq<char>) -> bool {
    ||| f == "id"@
    ||| f == "lpath"@
    ||| f == "title"@
    ||| f == "timestamp"@
    ||| f == "vpath"@
    ||| f == "project"@
}

/// The value a ledger row holds in the named column; the identifier is
/// rendered in decimal, and only the project may be absent.
pub open spec fn spec_ledger_value(r: RecRow, f: Seq<char>) -> Option<Seq<char>> {
    if f == "id"@ {
        Some(crate::text::spec_decimal(r.id as nat))
    } else if f == "lpath"@ {
        Some(r.lpath)
    } else if f == "title"@ {
        Some(r.title)
    } else if f == "timestamp"@ {
        Some(r.timestamp)
    } else if f == "vpath"@ {
        Some(r.vpath)
    } else {
        r.project
    }
}

/// The paths listed for a table: the physical and/or virtual path of every
/// row, in table order.
pub open spec fn spec_all_paths(t: Seq<RecRow>, l: bool, v: bool) -> Seq<Seq<char>>
    decreases t.len(),
{
    if t.len() == 0 {
        Seq::empty()
    } else {
        spec_all_paths(t.drop_last(), l, v) + (if l {
            seq![t.last().lpath]
        } else {
            Seq::empty()
        }) + (if v {
            seq![t.last().vpath]
        } else {
            Seq::empty()
        })
    }
}

/// When nothing is found, no row at or after `from` carries the path.
proof fn lemma_find_lpath_none(t: Seq<RecRow>, lpath: Seq<char>, from: int)
    requires
        0 <= from,
        spec_find_lpath(t, lpath, from) is None,
    ensures
        forall|k: int| from <= k < t.len() ==> t[k].lpath != lpath,
    decreases t.len() - from,
{
    if from < t.len() {
        lemma_find_lpath_none(t, lpath, from + 1);
    }
}

} // verus!
