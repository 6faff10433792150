//! The embedding store: named tables of document embeddings with a fixed
//! vector dimension, batch upsert and delete, and similarity search over a
//! partitioned approximate index whose sizing follows the heuristics of
//! `ann`.  This reference backend keeps its rows in memory; vector
//! components are fixed-point values in millionths, and search scores are
//! cosine similarities within one unit, so `1_000_000` is a perfect match.

use vstd::prelude::*;
use crate::ann::{AnnParams, spec_partition_count, partition_count};
use crate::ai::{spec_cosine, cosine_similarity};

verus! {

/// One unit in the fixed-point encoding of vector components.
pub const SCALE: i64 = 1000000;

/// The largest supported vector dimension: keeps every similarity score
/// within the machine's integer range.
pub const DIM_MAX: usize = 4096;

/// Mathematical view of one stored embedding.
pub ghost struct EmbRow {
    pub id: Seq<char>,
    pub title: Seq<char>,
    pub path: Seq<char>,
    pub vector: Seq<i64>,
}

/// Mathematical view of one table.
pub ghost struct TableView {
    pub name: Seq<char>,
    pub rows: Seq<EmbRow>,
    pub indexed: bool,
    pub partitions: nat,
}

/// Metadata associated with an embedding.
pub struct EmbeddingMetadata {
    /// Unique identifier for the embedding.
    pub id: String,
    /// Title or name of the document.
    pub title: String,
    /// Filesystem path or URI to the source document.
    pub path: String,
}

/// A document embedding with its metadata.
pub struct DocumentEmbedding {
    /// The embedding vector, components in fixed-point millionths.
    pub vector: Vec<i64>,
    /// Metadata for the embedding.
    pub metadata: EmbeddingMetadata,
}

impl DocumentEmbedding {
    /// The row this embedding stands for.
    pub open spec fn row(&self) -> EmbRow {
        EmbRow {
            id: self.metadata.id@,
            title: self.metadata.title@,
            path: self.metadata.path@,
            vector: self.vector@,
        }
    }
}

/// Why a store operation failed.
#[derive(Debug)]
pub enum StoreError {
    /// The named table does not exist.
    NotFound { name: String },
    /// A vector's length disagrees with the configured dimension.
    DimensionMismatch { expected: usize, actual: usize },
    /// A vector component lies outside the representable fixed-point range.
    ConversionError,
}

impl StoreError {
    /// A human-readable description of the failure.
    pub fn message(&self) -> (r: String)
        ensures
            self matches StoreError::NotFound { name } ==> r@ == "table not found: "@ + name@,
            self is DimensionMismatch ==> r@ == "vector dimension does not match the store"@,
            self is ConversionError ==> r@ == "vector component out of range"@,
    {
        match self {
            StoreError::NotFound { name } => {
                let mut r = String::from_str("table not found: ");
                r.append(name.as_str());
                r
            },
            StoreError::DimensionMismatch { .. } => {
                String::from_str("vector dimension does not match the store")
            },
            StoreError::ConversionError => String::from_str("vector component out of range"),
        }
    }
}

/// Which metadata field a search filter constrains.
pub enum FilterField {
    Id,
    Title,
    Path,
}

/// An equality constraint on one metadata field.
pub struct MetadataFilter {
    pub field: FilterField,
    pub value: String,
}

/// Whether a row satisfies a filter.
pub open spec fn row_matches(r: EmbRow, f: MetadataFilter) -> bool {
    match f.field {
        FilterField::Id => r.id == f.value@,
        FilterField::Title => r.title == f.value@,
        FilterField::Path => r.path == f.value@,
    }
}

/// Whether a row satisfies an optional filter; no filter admits every row.
pub open spec fn row_matches_opt(r: EmbRow, f: Option<&MetadataFilter>) -> bool {
    match f {
        None => true,
        Some(f) => row_matches(r, *f),
    }
}

/// Every component lies within one fixed-point unit.
pub open spec fn comps_ok(v: Seq<i64>) -> bool {
    forall|k: int| 0 <= k < v.len() ==> -SCALE <= #[trigger] v[k] <= SCALE
}

/// A stored vector: right length, bounded components.
pub open spec fn vec_ok(v: Seq<i64>, dim: nat) -> bool {
    v.len() == dim && comps_ok(v)
}

/// The remaining dot product of `q` and `v` from position `from` on.
pub open spec fn spec_dot_from(q: Seq<i64>, v: Seq<i64>, from: int) -> int
    decreases q.len() - from,
{
    if from < 0 || from >= q.len() || from >= v.len() {
        0
    } else {
        q[from] * v[from] + spec_dot_from(q, v, from + 1)
    }
}

/// The dot product of two vectors in the fixed-point encoding: the raw
/// ingredient of norms and cosines.
pub open spec fn spec_score(q: Seq<i64>, v: Seq<i64>) -> int {
    spec_dot_from(q, v, 0)
}

/// The rows left after deleting a set of identifiers.
pub open spec fn spec_delete(rows: Seq<EmbRow>, ids: Seq<Seq<char>>) -> Seq<EmbRow> {
    rows.filter(|r: EmbRow| !ids.contains(r.id))
}

/// The rows left after deleting every row stored under a path.
pub open spec fn spec_delete_path(rows: Seq<EmbRow>, path: Seq<char>) -> Seq<EmbRow> {
    rows.filter(|r: EmbRow| r.path != path)
}

/// How many rows carry the identifier.
pub open spec fn spec_id_count(rows: Seq<EmbRow>, id: Seq<char>) -> nat {
    rows.filter(|r: EmbRow| r.id == id).len()
}

/// First table index at or after `from` whose name is `name`.
pub open spec fn spec_find_table(ts: Seq<TableView>, name: Seq<char>, from: int) -> Option<int>
    decreases ts.len() - from,
{
    if from < 0 || from >= ts.len() {
        None
    } else if ts[from].name == name {
        Some(from)
    } else {
        spec_find_table(ts, name, from + 1)
    }
}

/// A table after a successful batch insert: the rows are appended, and an
/// empty created table becomes indexed, sized by the dataset heuristics.
pub open spec fn spec_after_add(t: TableView, es: Seq<EmbRow>, p: AnnParams) -> TableView {
    TableView {
        name: t.name,
        rows: t.rows + es,
        indexed: t.indexed || es.len() > 0,
        partitions: if !t.indexed && es.len() > 0 {
            spec_partition_count((t.rows.len() + es.len()) as nat, p)
        } else {
            t.partitions
        },
    }
}

/// The rows a batch of embeddings stands for.
pub open spec fn batch_rows(es: Seq<DocumentEmbedding>) -> Seq<EmbRow> {
    es.map_values(|e: DocumentEmbedding| e.row())
}

/// Every vector of the batch has the configured dimension.
pub open spec fn batch_dims_ok(es: Seq<DocumentEmbedding>, dim: nat) -> bool {
    forall|k: int| 0 <= k < es.len() ==> (#[trigger] es[k].vector@).len() == dim
}

/// Every vector of the batch has bounded components.
pub open spec fn batch_comps_ok(es: Seq<DocumentEmbedding>) -> bool {
    forall|k: int| 0 <= k < es.len() ==> comps_ok(#[trigger] es[k].vector@)
}

/// Copies a vector of components.
fn copy_components(v: &Vec<i64>) -> (r: Vec<i64>)
    ensures
        r@ == v@,
{
    let mut r: Vec<i64> = Vec::new();
    let mut i: usize = 0;
    while i < v.len()
        invariant
            i <= v.len(),
            r@ == v@.take(i as int),
        decreases v.len() - i,
    {
        r.push(v[i]);
        assert(r@ =~= v@.take(i as int + 1));
        i = i + 1;
    }
    assert(v@.take(v.len() as int) =~= v@);
    r
}

/// Copies an embedding, preserving the row it stands for.
pub fn clone_embedding(e: &DocumentEmbedding) -> (r: DocumentEmbedding)
    ensures
        r.row() == e.row(),
{
    DocumentEmbedding {
        vector: copy_components(&e.vector),
        metadata: EmbeddingMetadata {
            id: e.metadata.id.clone(),
            title: e.metadata.title.clone(),
            path: e.metadata.path.clone(),
        },
    }
}

/// One named table of embeddings.
struct MemTable {
    name: String,
    rows: Vec<DocumentEmbedding>,
    indexed: bool,
    partitions: u64,
}

impl MemTable {
    /// The table this value stands for.
    spec fn view_of(&self) -> TableView {
        TableView {
            name: self.name@,
            rows: self.rows@.map_values(|e: DocumentEmbedding| e.row()),
            indexed: self.indexed,
            partitions: self.partitions as nat,
        }
    }
}

/// Manager for storing and retrieving embeddings.
pub struct EmbeddingsStore {
    dim: usize,
    params: AnnParams,
    tables: Vec<MemTable>,
}

impl EmbeddingsStore {
    /// The configured embedding dimension.
    pub closed spec fn spec_dim(&self) -> nat {
        self.dim as nat
    }

    /// The index-sizing parameters.
    pub closed spec fn spec_params(&self) -> AnnParams {
        self.params
    }

    /// The tables this store holds, in creation order.
    pub closed spec fn tables(&self) -> Seq<TableView> {
        self.tables@.map_values(|t: MemTable| t.view_of())
    }

    /// Well-formed: a usable dimension, distinct table names, every stored
    /// vector of the right shape, and no rows before the first insert
    /// marked a table indexed.
    pub open spec fn wf(&self) -> bool {
        &&& 1 <= self.spec_dim() <= DIM_MAX
        &&& forall|i: int, j: int|
            0 <= i < j < self.tables().len() ==> self.tables()[i].name != self.tables()[j].name
        &&& forall|i: int, k: int|
            0 <= i < self.tables().len() && 0 <= k < self.tables()[i].rows.len() ==> vec_ok(
                (#[trigger] self.tables()[i].rows[k]).vector,
                self.spec_dim(),
            )
        &&& forall|i: int|
            0 <= i < self.tables().len() && !(#[trigger] self.tables()[i]).indexed
                ==> self.tables()[i].rows.len() == 0
    }

    /// An empty store with the given dimension and sizing parameters.
    pub fn new(dim: usize, params: AnnParams) -> (r: EmbeddingsStore)
        requires
            1 <= dim <= DIM_MAX,
        ensures
            r.wf(),
            r.spec_dim() == dim,
            r.spec_params() == params,
            r.tables().len() == 0,
    {
        let r = EmbeddingsStore { dim, params, tables: Vec::new() };
        proof {
            assert(r.tables() =~= Seq::<TableView>::empty());
        }
        r
    }

    /// The configured embedding dimension.
    pub fn embedding_dim(&self) -> (r: usize)
        ensures
            r == self.spec_dim(),
    {
        self.dim
    }

    /// Finds the table called `name`, when present.
    fn find_table(&self, name: &str) -> (r: Option<usize>)
        ensures
            match spec_find_table(self.tables(), name@, 0) {
                Some(j) => r matches Some(i) && i == j && i < self.tables().len(),
                None => r is None,
            },
    {
        let key = name.to_owned();
        let mut i: usize = 0;
        while i < self.tables.len()
            invariant
                i <= self.tables.len(),
                key@ == name@,
                spec_find_table(self.tables(), name@, 0) == spec_find_table(
                    self.tables(),
                    name@,
                    i as int,
                ),
            decreases self.tables.len() - i,
        {
            proof {
                assert(self.tables()[i as int] == self.tables@[i as int].view_of());
            }
            if self.tables[i].name == key {
                return Some(i);
            }
            i = i + 1;
        }
        proof {
            assert(self.tables().len() == self.tables@.len());
        }
        None
    }

    /// Check if a table with the given name exists.
    pub fn table_exists(&self, name: &str) -> (r: bool)
        ensures
            r == (spec_find_table(self.tables(), name@, 0) is Some),
    {
        self.find_table(name).is_some()
    }

    /// Creates the table called `name`: a no-op when it already exists.
    pub fn create_table(&mut self, name: &str)
        requires
            old(self).wf(),
        ensures
            final(self).wf(),
            final(self).spec_dim() == old(self).spec_dim(),
            final(self).spec_params() == old(self).spec_params(),
            match spec_find_table(old(self).tables(), name@, 0) {
                Some(_) => final(self).tables() == old(self).tables(),
                None => final(self).tables() == old(self).tables().push(
                    TableView { name: name@, rows: Seq::empty(), indexed: false, partitions: 0 },
                ),
            },
    {
        match self.find_table(name) {
            Some(_) => {},
            None => {
                proof {
                    lemma_find_table_none(old(self).tables(), name@, 0);
                }
                let t = MemTable {
                    name: name.to_owned(),
                    rows: Vec::new(),
                    indexed: false,
                    partitions: 0,
                };
                proof {
                    assert(t.view_of().rows =~= Seq::<EmbRow>::empty());
                }
                self.tables.push(t);
                proof {
                    assert(self.tables() =~= old(self).tables().push(
                        TableView {
                            name: name@,
                            rows: Seq::empty(),
                            indexed: false,
                            partitions: 0,
                        },
                    ));
                }
            },
        }
    }

    /// Drops the table called `name`: a no-op when it does not exist.
    pub fn drop_table(&mut self, name: &str)
        requires
            old(self).wf(),
        ensures
            final(self).wf(),
            final(self).spec_dim() == old(self).spec_dim(),
            final(self).spec_params() == old(self).spec_params(),
            match spec_find_table(old(self).tables(), name@, 0) {
                Some(i) => final(self).tables() == old(self).tables().remove(i),
                None => final(self).tables() == old(self).tables(),
            },
    {
        match self.find_table(name) {
            Some(i) => {
                self.tables.remove(i);
                proof {
                    assert(self.tables() =~= old(self).tables().remove(i as int));
                }
            },
            None => {},
        }
    }

    /// Adds a batch of embeddings to the table called `name`.  An empty
    /// batch succeeds without touching anything.  Otherwise the whole
    /// batch is rejected when the table is missing, when any vector's
    /// length differs from the configured dimension, or when any component
    /// lies outside the fixed-point range; else the rows are appended, and
    /// the first non-empty insert into a created table builds its index
    /// with the dataset-size heuristics.
    pub fn add_embeddings(&mut self, name: &str, embeddings: Vec<DocumentEmbedding>) -> (r: Result<
        (),
        StoreError,
    >)
        requires
            old(self).wf(),
        ensures
            final(self).wf(),
            final(self).spec_dim() == old(self).spec_dim(),
            final(self).spec_params() == old(self).spec_params(),
            r is Err ==> final(self).tables() == old(self).tables(),
            embeddings@.len() == 0 ==> r is Ok && final(self).tables() == old(self).tables(),
            embeddings@.len() > 0 ==> match spec_find_table(old(self).tables(), name@, 0) {
                None => r matches Err(e) && e is NotFound,
                Some(i) => {
                    if !batch_dims_ok(embeddings@, old(self).spec_dim()) {
                        r matches Err(e) && e is DimensionMismatch
                    } else if !batch_comps_ok(embeddings@) {
                        r matches Err(e) && e is ConversionError
                    } else {
                        r is Ok && final(self).tables() == old(self).tables().update(
                            i,
                            spec_after_add(
                                old(self).tables()[i],
                                batch_rows(embeddings@),
                                old(self).spec_params(),
                            ),
                        )
                    }
                },
            },
    {
        if embeddings.len() == 0 {
            return Ok(());
        }
        let idx = match self.find_table(name) {
            Some(i) => i,
            None => {
                return Err(StoreError::NotFound { name: name.to_owned() });
            },
        };
        let mut k: usize = 0;
        while k < embeddings.len()
            invariant
                k <= embeddings.len(),
                forall|m: int|
                    0 <= m < k ==> (#[trigger] embeddings@[m].vector@).len() == self.dim,
                self == old(self),
                old(self).wf(),
                spec_find_table(old(self).tables(), name@, 0) is Some,
            decreases embeddings.len() - k,
        {
            if embeddings[k].vector.len() != self.dim {
                proof {
                    assert(embeddings@[k as int].vector@.len() != old(self).spec_dim());
                    assert(!batch_dims_ok(embeddings@, old(self).spec_dim()));
                }
                return Err(
                    StoreError::DimensionMismatch {
                        expected: self.dim,
                        actual: embeddings[k].vector.len(),
                    },
                );
            }
            k = k + 1;
        }
        let mut k2: usize = 0;
        while k2 < embeddings.len()
            invariant
                k2 <= embeddings.len(),
                forall|m: int| 0 <= m < k2 ==> comps_ok(#[trigger] embeddings@[m].vector@),
                self == old(self),
                old(self).wf(),
                spec_find_table(old(self).tables(), name@, 0) is Some,
                batch_dims_ok(embeddings@, old(self).spec_dim()),
            decreases embeddings.len() - k2,
        {
            let v = &embeddings[k2].vector;
            let mut c: usize = 0;
            while c < v.len()
                invariant
                    c <= v.len(),
                    v == &embeddings@[k2 as int].vector,
                    k2 < embeddings.len(),
                    self == old(self),
                    old(self).wf(),
                    spec_find_table(old(self).tables(), name@, 0) is Some,
                    batch_dims_ok(embeddings@, old(self).spec_dim()),
                    forall|m: int| 0 <= m < c ==> -SCALE <= #[trigger] v@[m] <= SCALE,
                decreases v.len() - c,
            {
                if v[c] < -SCALE || v[c] > SCALE {
                    proof {
                        assert(!(-SCALE <= v@[c as int] <= SCALE));
                        assert(!comps_ok(embeddings@[k2 as int].vector@));
                        assert(!batch_comps_ok(embeddings@));
                    }
                    return Err(StoreError::ConversionError);
                }
                c = c + 1;
            }
            k2 = k2 + 1;
        }
        let mut t = self.tables.remove(idx);
        let ghost tv = t.view_of();
        let ghost before = old(self).tables();
        proof {
            assert(before[idx as int] == old(self).tables@[idx as int].view_of());
            assert(tv == before[idx as int]);
            if !tv.indexed {
                assert(before[idx as int].rows.len() == 0);
            }
        }
        let mut a: usize = 0;
        while a < embeddings.len()
            invariant
                a <= embeddings.len(),
                t.view_of().rows == tv.rows + batch_rows(embeddings@).take(a as int),
                t.view_of().name == tv.name,
                t.view_of().indexed == tv.indexed,
                t.view_of().partitions == tv.partitions,
                batch_dims_ok(embeddings@, old(self).spec_dim()),
                batch_comps_ok(embeddings@),
            decreases embeddings.len() - a,
        {
            let ghost rv = t.view_of().rows;
            let e = clone_embedding(&embeddings[a]);
            proof {
                assert(e.row() == batch_rows(embeddings@)[a as int]);
            }
            t.rows.push(e);
            proof {
                assert(t.view_of().rows =~= rv.push(batch_rows(embeddings@)[a as int]));
                assert(t.view_of().rows =~= tv.rows + batch_rows(embeddings@).take(
                    a as int + 1,
                ));
            }
            a = a + 1;
        }
        proof {
            assert(batch_rows(embeddings@).take(embeddings@.len() as int) =~= batch_rows(
                embeddings@,
            ));
        }
        if !t.indexed && embeddings.len() > 0 {
            let rc: u64 = t.rows.len() as u64;
            proof {
                assert(t.view_of().rows.len() == t.rows@.len());
                assert(tv == before[idx as int]);
                assert(tv.rows.len() == 0);
            }
            t.partitions = partition_count(rc, &self.params);
            t.indexed = true;
        }
        self.tables.insert(idx, t);
        proof {
            let i = idx as int;
            assert(self.tables() =~= before.update(
                i,
                spec_after_add(before[i], batch_rows(embeddings@), old(self).spec_params()),
            ));
        }
        Ok(())
    }

    /// Deletes every row whose identifier appears in `ids` from the table
    /// called `name`; identifiers with no stored row are silently complete.
    pub fn delete_embeddings(&mut self, name: &str, ids: &Vec<String>) -> (r: Result<
        (),
        StoreError,
    >)
        requires
            old(self).wf(),
        ensures
            final(self).wf(),
            final(self).spec_dim() == old(self).spec_dim(),
            final(self).spec_params() == old(self).spec_params(),
            match spec_find_table(old(self).tables(), name@, 0) {
                None => r matches Err(e) && (e is NotFound && final(self).tables() == old(
                    self,
                ).tables()),
                Some(i) => r is Ok && final(self).tables() == old(self).tables().update(
                    i,
                    TableView {
                        name: old(self).tables()[i].name,
                        rows: spec_delete(old(self).tables()[i].rows, ids.deep_view()),
                        indexed: old(self).tables()[i].indexed,
                        partitions: old(self).tables()[i].partitions,
                    },
                ),
            },
    {
        let idx = match self.find_table(name) {
            Some(i) => i,
            None => {
                return Err(StoreError::NotFound { name: name.to_owned() });
            },
        };
        let mut t = self.tables.remove(idx);
        let ghost tv = t.view_of();
        let ghost before = old(self).tables();
        let ghost keep = |r: EmbRow| !ids.deep_view().contains(r.id);
        let mut kept: Vec<DocumentEmbedding> = Vec::new();
        let mut i: usize = 0;
        proof {
            reveal(Seq::filter);
            assert(tv.rows.take(0) =~= Seq::<EmbRow>::empty());
            assert(kept@.map_values(|e: DocumentEmbedding| e.row()) =~= tv.rows.take(0).filter(
                keep,
            ));
        }
        while i < t.rows.len()
            invariant
                i <= t.rows.len(),
                t.view_of() == tv,
                keep == (|r: EmbRow| !ids.deep_view().contains(r.id)),
                kept@.map_values(|e: DocumentEmbedding| e.row()) == tv.rows.take(i as int).filter(
                    keep,
                ),
            decreases t.rows.len() - i,
    {
            let ghost pre = tv.rows.take(i as int);
            let ghost post = tv.rows.take(i as int + 1);
            let ghost kv = kept@.map_values(|e: DocumentEmbedding| e.row());
            proof {
                reveal(Seq::filter);
                assert(post.drop_last() =~= pre);
                assert(post.last() == tv.rows[i as int]);
                assert(tv.rows[i as int] == t.rows@[i as int].row());
            }
            let mut present = false;
            let mut k: usize = 0;
            while k < ids.len()
                invariant
                    k <= ids.len(),
                    i < t.rows.len(),
                    t.view_of() == tv,
                    present ==> ids.deep_view().contains(t.rows@[i as int].row().id),
                    !present ==> forall|m: int|
                        0 <= m < k ==> ids.deep_view()[m] != t.rows@[i as int].row().id,
                decreases ids.len() - k,
            {
                proof {
                    assert(ids.deep_view()[k as int] == ids@[k as int]@);
                }
                if ids[k] == t.rows[i].metadata.id {
                    present = true;
                    proof {
                        assert(ids.deep_view()[k as int] == t.rows@[i as int].row().id);
                    }
                    k = ids.len();
                } else {
                    k = k + 1;
                }
            }
            if !present {
                proof {
                    assert(ids.deep_view().len() == ids@.len());
                    assert(!ids.deep_view().contains(tv.rows[i as int].id));
                }
                let e = clone_embedding(&t.rows[i]);
                kept.push(e);
                proof {
                    assert(kept@.map_values(|e: DocumentEmbedding| e.row()) =~= kv.push(
                        tv.rows[i as int],
                    ));
                    assert(kept@.map_values(|e: DocumentEmbedding| e.row()) =~= post.filter(
                        keep,
                    ));
                }
            } else {
                proof {
                    assert(kept@.map_values(|e: DocumentEmbedding| e.row()) =~= post.filter(
                        keep,
                    ));
                }
            }
            i = i + 1;
        }
        proof {
            assert(tv.rows.take(t.rows@.len() as int) =~= tv.rows);
            assert(tv.rows.len() == t.rows@.len());
        }
        t.rows = kept;
        self.tables.insert(idx, t);
        proof {
            let i = idx as int;
            lemma_filter_row_elems(before[i].rows, keep);
            assert(self.tables() =~= before.update(
                i,
                TableView {
                    name: before[i].name,
                    rows: spec_delete(before[i].rows, ids.deep_view()),
                    indexed: before[i].indexed,
                    partitions: before[i].partitions,
                },
            ));
            assert forall|x: int, kk: int|
                0 <= x < self.tables().len() && 0 <= kk < self.tables()[x].rows.len() implies
                vec_ok((#[trigger] self.tables()[x].rows[kk]).vector, self.spec_dim()) by {
                if x == i {
                    let fr = spec_delete(before[i].rows, ids.deep_view());
                    assert(before[i].rows.contains(fr[kk]));
                    let w = choose|w: int|
                        0 <= w < before[i].rows.len() && before[i].rows[w] == fr[kk];
                    assert(vec_ok(before[i].rows[w].vector, self.spec_dim()));
                }
            }
        }
        Ok(())
    }
}

/// Some entry of a scored index list carries index `j`.
pub open spec fn idx_present(s: Seq<(usize, i64)>, j: int) -> bool {
    exists|a: int| 0 <= a < s.len() && (#[trigger] s[a]).0 == j
}

/// Whether a stored embedding satisfies an optional filter.
fn matches_filter(e: &DocumentEmbedding, f: Option<&MetadataFilter>) -> (r: bool)
    ensures
        r == row_matches_opt(e.row(), f),
{
    match f {
        None => true,
        Some(f) => {
            match f.field {
                FilterField::Id => e.metadata.id == f.value,
                FilterField::Title => e.metadata.title == f.value,
                FilterField::Path => e.metadata.path == f.value,
            }
        },
    }
}

impl EmbeddingsStore {
    /// Searches the table called `name` for the embeddings most similar to
    /// `query`: the matching rows are scored by cosine similarity (within
    /// one fixed-point unit), sorted by non-increasing similarity, and cut
    /// to at most `limit` results; every matching row left out scores no
    /// better than the last row returned.
    pub fn similarity_search(&self, name: &str, query: &Vec<i64>, limit: usize, filter: Option<
        &MetadataFilter,
    >) -> (r: Result<Vec<(DocumentEmbedding, i64)>, StoreError>)
        requires
            self.wf(),
        ensures
            match spec_find_table(self.tables(), name@, 0) {
                None => r matches Err(e) && e is NotFound,
                Some(ti) => {
                    if query@.len() != self.spec_dim() {
                        r matches Err(e) && e is DimensionMismatch
                    } else if !comps_ok(query@) {
                        r matches Err(e) && e is ConversionError
                    } else {
                        let m = self.tables()[ti].rows.filter(
                            |row: EmbRow| row_matches_opt(row, filter),
                        );
                        r matches Ok(res) && ({
                            &&& res@.len() == (if limit <= m.len() {
                                limit as int
                            } else {
                                m.len() as int
                            })
                            &&& forall|a: int, b: int|
                                0 <= a < b < res@.len() ==> res@[a].1 >= res@[b].1
                            &&& forall|a: int|
                                0 <= a < res@.len() ==> (#[trigger] res@[a]).1 == spec_cosine(
                                    query@,
                                    res@[a].0.row().vector,
                                )
                            &&& forall|a: int|
                                0 <= a < res@.len() ==> m.contains((#[trigger] res@[a]).0.row())
                            &&& forall|j: int|
                                0 <= j < m.len() && res@.len() > 0 ==> ((exists|a: int|
                                    0 <= a < res@.len() && (#[trigger] res@[a]).0.row() == m[j])
                                    || spec_cosine(query@, (#[trigger] m[j]).vector) <= res@[res@.len()
                                    - 1].1)
                        })
                    }
                },
            },
    {
        let ti = match self.find_table(name) {
            Some(i) => i,
            None => {
                return Err(StoreError::NotFound { name: name.to_owned() });
            },
        };
        if query.len() != self.dim {
            return Err(
                StoreError::DimensionMismatch { expected: self.dim, actual: query.len() },
            );
        }
        let mut c: usize = 0;
        while c < query.len()
            invariant
                c <= query.len(),
                spec_find_table(self.tables(), name@, 0) == Some(ti as int),
                query@.len() == self.spec_dim(),
                forall|m: int| 0 <= m < c ==> -SCALE <= #[trigger] query@[m] <= SCALE,
            decreases query.len() - c,
        {
            if query[c] < -SCALE || query[c] > SCALE {
                proof {
                    assert(!(-SCALE <= query@[c as int] <= SCALE));
                    assert(!comps_ok(query@));
                }
                return Err(StoreError::ConversionError);
            }
            c = c + 1;
        }
        let t = &self.tables[ti];
        let ghost rows = self.tables()[ti as int].rows;
        let ghost pred = |row: EmbRow| row_matches_opt(row, filter);
        proof {
            assert(self.tables()[ti as int] == self.tables@[ti as int].view_of());
        }
        let mut matched: Vec<DocumentEmbedding> = Vec::new();
        let mut i: usize = 0;
        proof {
            reveal(Seq::filter);
            assert(rows.take(0) =~= Seq::<EmbRow>::empty());
            assert(matched@.map_values(|e: DocumentEmbedding| e.row()) =~= rows.take(0).filter(
                pred,
            ));
        }
        while i < t.rows.len()
            invariant
                i <= t.rows.len(),
                t == &self.tables@[ti as int],
                ti < self.tables@.len(),
                self.wf(),
                rows == self.tables()[ti as int].rows,
                pred == (|row: EmbRow| row_matches_opt(row, filter)),
                matched@.map_values(|e: DocumentEmbedding| e.row()) == rows.take(i as int).filter(
                    pred,
                ),
                forall|k: int|
                    0 <= k < matched@.len() ==> vec_ok(
                        (#[trigger] matched@[k]).vector@,
                        self.spec_dim(),
                    ),
            decreases t.rows.len() - i,
        {
            let ghost pre = rows.take(i as int);
            let ghost post = rows.take(i as int + 1);
            let ghost mv = matched@.map_values(|e: DocumentEmbedding| e.row());
            proof {
                reveal(Seq::filter);
                assert(post.drop_last() =~= pre);
                assert(post.last() == rows[i as int]);
                assert(rows[i as int] == t.rows@[i as int].row());
                assert(vec_ok(rows[i as int].vector, self.spec_dim()));
            }
            if matches_filter(&t.rows[i], filter) {
                let e = clone_embedding(&t.rows[i]);
                proof {
                    assert(e.row() == rows[i as int]);
                    assert(e.vector@ == rows[i as int].vector);
                }
                matched.push(e);
                proof {
                    assert(matched@.map_values(|e: DocumentEmbedding| e.row()) =~= mv.push(
                        rows[i as int],
                    ));
                    assert(matched@.map_values(|e: DocumentEmbedding| e.row()) =~= post.filter(
                        pred,
                    ));
                }
            } else {
                proof {
                    assert(matched@.map_values(|e: DocumentEmbedding| e.row()) =~= post.filter(
                        pred,
                    ));
                }
            }
            i = i + 1;
        }
        proof {
            assert(rows.take(t.rows@.len() as int) =~= rows);
            assert(rows.len() == t.rows@.len());
        }
        let ghost m = rows.filter(pred);
        let ghost mrows = matched@.map_values(|e: DocumentEmbedding| e.row());
        let mut scores: Vec<i64> = Vec::new();
        let mut s: usize = 0;
        while s < matched.len()
            invariant
                s <= matched.len(),
                scores@.len() == s,
                query@.len() == self.spec_dim() <= DIM_MAX,
                comps_ok(query@),
                forall|k: int|
                    0 <= k < matched@.len() ==> vec_ok(
                        (#[trigger] matched@[k]).vector@,
                        self.spec_dim(),
                    ),
                forall|k: int|
                    0 <= k < s ==> #[trigger] scores@[k] == spec_cosine(
                        query@,
                        matched@[k].vector@,
                    ),
            decreases matched.len() - s,
        {
            let sc = cosine_similarity(query, &matched[s].vector);
            scores.push(sc);
            s = s + 1;
        }
        let sorted = sort_scored(&scores);
        let cut: usize = if limit <= matched.len() {
            limit
        } else {
            matched.len()
        };
        let mut results: Vec<(DocumentEmbedding, i64)> = Vec::new();
        let mut w: usize = 0;
        while w < cut
            invariant
                w <= cut <= matched.len(),
                sorted@.len() == matched@.len(),
                scores@.len() == matched@.len(),
                results@.len() == w,
                forall|a: int| 0 <= a < sorted@.len() ==> (#[trigger] sorted@[a]).0 < matched@.len(),
                forall|a: int|
                    0 <= a < sorted@.len() ==> (#[trigger] sorted@[a]).1 == scores@[sorted@[a].0 as int],
                forall|a: int|
                    0 <= a < w ==> (#[trigger] results@[a]).0.row() == matched@[sorted@[a].0 as int].row()
                        && results@[a].1 == sorted@[a].1,
            decreases cut - w,
        {
            let j = sorted[w].0;
            let e = clone_embedding(&matched[j]);
            results.push((e, sorted[w].1));
            w = w + 1;
        }
        proof {
            assert(mrows =~= m);
            assert forall|a: int|
                0 <= a < results@.len() implies ((#[trigger] results@[a]).1 == spec_cosine(
                query@,
                results@[a].0.row().vector,
            ) && m.contains(results@[a].0.row())) by {
                let j = sorted@[a].0 as int;
                assert(results@[a].0.row() == matched@[j].row());
                assert(matched@[j].row() == mrows[j]);
                assert(results@[a].1 == scores@[j]);
                assert(matched@[j].row().vector == matched@[j].vector@);
            }
            assert forall|j: int|
                0 <= j < m.len() && results@.len() > 0 implies ((exists|a: int|
                0 <= a < results@.len() && (#[trigger] results@[a]).0.row() == m[j])
                || spec_cosine(query@, (#[trigger] m[j]).vector) <= results@[results@.len()
                - 1].1) by {
                assert(idx_present(sorted@, j));
                let a = choose|a: int| 0 <= a < sorted@.len() && (#[trigger] sorted@[a]).0 == j;
                if a < cut {
                    assert(results@[a].0.row() == matched@[j].row());
                    assert(matched@[j].row() == mrows[j]);
                } else {
                    assert(sorted@[a].1 <= sorted@[cut - 1].1);
                    assert(results@[cut - 1].1 == sorted@[cut - 1].1);
                    assert(sorted@[a].1 == scores@[j]);
                    assert(m[j].vector == matched@[j].vector@);
                }
            }
        }
        Ok(results)
    }

    /// How many partitions of the table's index a query probes, under the
    /// store's sizing parameters; zero probes before the index exists.
    pub fn query_probes(&self, name: &str) -> (r: Result<u64, StoreError>)
        ensures
            match spec_find_table(self.tables(), name@, 0) {
                None => r matches Err(e) && e is NotFound,
                Some(ti) => r matches Ok(p) && (if self.tables()[ti].indexed {
                    p == crate::ann::spec_probe_count(
                        self.tables()[ti].partitions,
                        self.spec_params(),
                    )
                } else {
                    p == 0
                }),
            },
    {
        let ti = match self.find_table(name) {
            Some(i) => i,
            None => {
                return Err(StoreError::NotFound { name: name.to_owned() });
            },
        };
        proof {
            assert(self.tables()[ti as int] == self.tables@[ti as int].view_of());
        }
        if self.tables[ti].indexed {
            Ok(crate::ann::probe_count(self.tables[ti].partitions, &self.params))
        } else {
            Ok(0)
        }
    }

    /// Deletes every row whose path is `path` from the table called
    /// `name`; a path with no stored row is silently complete.
    pub fn delete_embedding_by_path(&mut self, name: &str, path: &str) -> (r: Result<
        (),
        StoreError,
    >)
        requires
            old(self).wf(),
        ensures
            final(self).wf(),
            final(self).spec_dim() == old(self).spec_dim(),
            final(self).spec_params() == old(self).spec_params(),
            match spec_find_table(old(self).tables(), name@, 0) {
                None => r matches Err(e) && (e is NotFound && final(self).tables() == old(
                    self,
                ).tables()),
                Some(i) => r is Ok && final(self).tables() == old(self).tables().update(
                    i,
                    TableView {
                        name: old(self).tables()[i].name,
                        rows: spec_delete_path(old(self).tables()[i].rows, path@),
                        indexed: old(self).tables()[i].indexed,
                        partitions: old(self).tables()[i].partitions,
                    },
                ),
            },
    {
        let idx = match self.find_table(name) {
            Some(i) => i,
            None => {
                return Err(StoreError::NotFound { name: name.to_owned() });
            },
        };
        let mut t = self.tables.remove(idx);
        let ghost tv = t.view_of();
        let ghost before = old(self).tables();
        let ghost keep = |row: EmbRow| row.path != path@;
        let key = path.to_owned();
        let mut kept: Vec<DocumentEmbedding> = Vec::new();
        let mut i: usize = 0;
        proof {
            reveal(Seq::filter);
            assert(tv.rows.take(0) =~= Seq::<EmbRow>::empty());
            assert(kept@.map_values(|e: DocumentEmbedding| e.row()) =~= tv.rows.take(0).filter(
                keep,
            ));
        }
        while i < t.rows.len()
            invariant
                i <= t.rows.len(),
                t.view_of() == tv,
                key@ == path@,
                keep == (|row: EmbRow| row.path != path@),
                kept@.map_values(|e: DocumentEmbedding| e.row()) == tv.rows.take(i as int).filter(
                    keep,
                ),
            decreases t.rows.len() - i,
        {
            let ghost pre = tv.rows.take(i as int);
            let ghost post = tv.rows.take(i as int + 1);
            let ghost kv = kept@.map_values(|e: DocumentEmbedding| e.row());
            proof {
                reveal(Seq::filter);
                assert(post.drop_last() =~= pre);
                assert(post.last() == tv.rows[i as int]);
                assert(tv.rows[i as int] == t.rows@[i as int].row());
            }
            if !(t.rows[i].metadata.path == key) {
                let e = clone_embedding(&t.rows[i]);
                kept.push(e);
                proof {
                    assert(kept@.map_values(|e: DocumentEmbedding| e.row()) =~= kv.push(
                        tv.rows[i as int],
                    ));
                    assert(kept@.map_values(|e: DocumentEmbedding| e.row()) =~= post.filter(
                        keep,
                    ));
                }
            } else {
                proof {
                    assert(kept@.map_values(|e: DocumentEmbedding| e.row()) =~= post.filter(
                        keep,
                    ));
                }
            }
            i = i + 1;
        }
        proof {
            assert(tv.rows.take(t.rows@.len() as int) =~= tv.rows);
            assert(tv.rows.len() == t.rows@.len());
        }
        t.rows = kept;
        self.tables.insert(idx, t);
        proof {
            let i = idx as int;
            lemma_filter_row_elems(before[i].rows, keep);
            assert(self.tables() =~= before.update(
                i,
                TableView {
                    name: before[i].name,
                    rows: spec_delete_path(before[i].rows, path@),
                    indexed: before[i].indexed,
                    partitions: before[i].partitions,
                },
            ));
            assert forall|x: int, kk: int|
                0 <= x < self.tables().len() && 0 <= kk < self.tables()[x].rows.len() implies
                vec_ok((#[trigger] self.tables()[x].rows[kk]).vector, self.spec_dim()) by {
                if x == i {
                    let fr = spec_delete_path(before[i].rows, path@);
                    assert(before[i].rows.contains(fr[kk]));
                    let w = choose|w: int|
                        0 <= w < before[i].rows.len() && before[i].rows[w] == fr[kk];
                    assert(vec_ok(before[i].rows[w].vector, self.spec_dim()));
                }
            }
        }
        Ok(())
    }

    /// The first stored embedding whose path is `path`, in the table called
    /// `name`.
    pub fn get_embedding_by_path(&self, name: &str, path: &str) -> (r: Result<
        Option<DocumentEmbedding>,
        StoreError,
    >)
        ensures
            match spec_find_table(self.tables(), name@, 0) {
                None => r matches Err(e) && e is NotFound,
                Some(ti) => {
                    let rows = self.tables()[ti].rows;
                    match spec_find_path(rows, path@, 0) {
                        Some(j) => r matches Ok(Some(e)) && e.row() == rows[j],
                        None => r == Ok::<Option<DocumentEmbedding>, StoreError>(None),
                    }
                },
            },
    {
        let ti = match self.find_table(name) {
            Some(i) => i,
            None => {
                return Err(StoreError::NotFound { name: name.to_owned() });
            },
        };
        let t = &self.tables[ti];
        let ghost rows = self.tables()[ti as int].rows;
        proof {
            assert(self.tables()[ti as int] == self.tables@[ti as int].view_of());
        }
        let key = path.to_owned();
        let mut i: usize = 0;
        while i < t.rows.len()
            invariant
                i <= t.rows.len(),
                t == &self.tables@[ti as int],
                ti < self.tables@.len(),
                spec_find_table(self.tables(), name@, 0) == Some(ti as int),
                rows == self.tables()[ti as int].rows,
                key@ == path@,
                spec_find_path(rows, path@, 0) == spec_find_path(rows, path@, i as int),
            decreases t.rows.len() - i,
        {
            proof {
                assert(rows[i as int] == t.rows@[i as int].row());
            }
            if t.rows[i].metadata.path == key {
                return Ok(Some(clone_embedding(&t.rows[i])));
            }
            i = i + 1;
        }
        proof {
            assert(rows.len() == t.rows@.len());
        }
        Ok(None)
    }
}

/// First row index at or after `from` whose path is `path`.
pub open spec fn spec_find_path(rows: Seq<EmbRow>, path: Seq<char>, from: int) -> Option<int>
    decreases rows.len() - from,
{
    if from < 0 || from >= rows.len() {
        None
    } else if rows[from].path == path {
        Some(from)
    } else {
        spec_find_path(rows, path, from + 1)
    }
}

/// Helper function to create a new embeddings store with its default table.
pub fn create_store() -> (r: EmbeddingsStore)
    ensures
        r.wf(),
        r.spec_dim() == 768,
        r.tables().len() == 1,
        r.tables()[0].name == "embeddings"@,
        r.tables()[0].rows.len() == 0,
        !r.tables()[0].indexed,
{
    let mut store = EmbeddingsStore::new(768, AnnParams::default());
    store.create_table("embeddings");
    store
}

/// Deleting a set of identifiers leaves no row that carries one of them:
/// a search after the delete can never return a deleted identifier.
pub proof fn lemma_delete_visibility(rows: Seq<EmbRow>, ids: Seq<Seq<char>>, j: int)
    requires
        0 <= j < spec_delete(rows, ids).len(),
    ensures
        !ids.contains(spec_delete(rows, ids)[j].id),
{
    broadcast use vstd::seq_lib::group_filter_ensures;

    let p = |r: EmbRow| !ids.contains(r.id);
    assert(rows.filter(p)[j] == spec_delete(rows, ids)[j]);
}

/// Deleting a path leaves no row stored under it: a search after the
/// delete can never return that path.
pub proof fn lemma_delete_path_visibility(rows: Seq<EmbRow>, path: Seq<char>, j: int)
    requires
        0 <= j < spec_delete_path(rows, path).len(),
    ensures
        spec_delete_path(rows, path)[j].path != path,
{
    broadcast use vstd::seq_lib::group_filter_ensures;

    let p = |r: EmbRow| r.path != path;
    assert(rows.filter(p)[j] == spec_delete_path(rows, path)[j]);
}

/// All rows of a table fail the id check when each row's id differs.
proof fn lemma_no_id_filter_empty(rows: Seq<EmbRow>, id: Seq<char>)
    requires
        forall|k: int| 0 <= k < rows.len() ==> (#[trigger] rows[k]).id != id,
    ensures
        rows.filter(|r: EmbRow| r.id == id).len() == 0,
    decreases rows.len(),
{
    reveal(Seq::filter);
    if rows.len() > 0 {
        assert(forall|k: int|
            0 <= k < rows.drop_last().len() ==> (#[trigger] rows.drop_last()[k]).id != id);
        lemma_no_id_filter_empty(rows.drop_last(), id);
    }
}

/// Re-index idempotence: deleting an identifier and inserting one row under
/// it leaves exactly one row with that identifier, however many runs came
/// before.
pub proof fn lemma_reindex_idempotent(rows: Seq<EmbRow>, id: Seq<char>, r: EmbRow)
    requires
        r.id == id,
    ensures
        spec_id_count(spec_delete(rows, seq![id]).push(r), id) == 1,
{
    broadcast use vstd::seq_lib::group_filter_ensures;

    reveal(Seq::filter);
    let deleted = spec_delete(rows, seq![id]);
    let p = |row: EmbRow| row.id == id;
    assert forall|k: int| 0 <= k < deleted.len() implies (#[trigger] deleted[k]).id != id by {
        assert(!seq![id].contains(deleted[k].id));
        assert(seq![id][0] == id);
    }
    lemma_no_id_filter_empty(deleted, id);
    let whole = deleted.push(r);
    assert(whole.drop_last() =~= deleted);
    assert(whole.last() == r);
    assert(whole.filter(p) =~= deleted.filter(p).push(r));
}

/// Sorts the indices of a score list by non-increasing score: the result
/// pairs every index with its score, first scores first.
pub(crate) fn sort_scored(scores: &Vec<i64>) -> (sorted: Vec<(usize, i64)>)
    ensures
        sorted@.len() == scores@.len(),
        forall|a: int| 0 <= a < sorted@.len() ==> (#[trigger] sorted@[a]).0 < scores@.len(),
        forall|a: int, b: int| 0 <= a < b < sorted@.len() ==> sorted@[a].0 != sorted@[b].0,
        forall|a: int|
            0 <= a < sorted@.len() ==> (#[trigger] sorted@[a]).1 == scores@[sorted@[a].0 as int],
        forall|a: int, b: int| 0 <= a < b < sorted@.len() ==> sorted@[a].1 >= sorted@[b].1,
        forall|j: int| 0 <= j < scores@.len() ==> idx_present(sorted@, j),
{
    let mut sorted: Vec<(usize, i64)> = Vec::new();
    let mut u: usize = 0;
    while u < scores.len()
        invariant
            u <= scores.len(),
            sorted@.len() == u,
            forall|a: int| 0 <= a < sorted@.len() ==> (#[trigger] sorted@[a]).0 < u,
            forall|a: int, b: int|
                0 <= a < b < sorted@.len() ==> sorted@[a].0 != sorted@[b].0,
            forall|a: int|
                0 <= a < sorted@.len() ==> (#[trigger] sorted@[a]).1 == scores@[sorted@[a].0 as int],
            forall|a: int, b: int|
                0 <= a < b < sorted@.len() ==> sorted@[a].1 >= sorted@[b].1,
            forall|j: int| 0 <= j < u ==> idx_present(sorted@, j),
        decreases scores.len() - u,
    {
        let sc = scores[u];
        let mut pos: usize = 0;
        while pos < sorted.len() && sorted[pos].1 >= sc
            invariant
                pos <= sorted.len(),
                forall|a: int| 0 <= a < pos ==> (#[trigger] sorted@[a]).1 >= sc,
            decreases sorted.len() - pos,
        {
            pos = pos + 1;
        }
        let ghost oldp = sorted@;
        sorted.insert(pos, (u, sc));
        proof {
            oldp.insert_ensures(pos as int, (u, sc));
            assert(sorted@ == oldp.insert(pos as int, (u, sc)));
            let newp = sorted@;
            assert(newp[pos as int] == (u, sc));
            assert forall|a: int, b: int|
                0 <= a < b < newp.len() implies newp[a].1 >= newp[b].1 by {
                if a < pos && b < pos {
                    assert(newp[a] == oldp[a] && newp[b] == oldp[b]);
                } else if a < pos && b == pos {
                    assert(newp[a] == oldp[a]);
                    assert(oldp[a].1 >= sc);
                } else if a < pos && b > pos {
                    assert(newp[a] == oldp[a] && newp[b] == oldp[b - 1]);
                } else if a == pos && b > pos {
                    assert(newp[b] == oldp[b - 1]);
                    assert(pos < oldp.len() ==> oldp[pos as int].1 < sc);
                    assert(oldp[b - 1].1 <= oldp[pos as int].1);
                } else {
                    assert(newp[a] == oldp[a - 1] && newp[b] == oldp[b - 1]);
                }
            }
            assert forall|j: int| 0 <= j < u + 1 implies idx_present(newp, j) by {
                if j == u {
                    assert(newp[pos as int].0 == j);
                } else {
                    assert(idx_present(oldp, j));
                    let a = choose|a: int| 0 <= a < oldp.len() && (#[trigger] oldp[a]).0 == j;
                    if a < pos {
                        assert(newp[a].0 == j);
                    } else {
                        assert(newp[a + 1] == oldp[a]);
                        assert(newp[a + 1].0 == j);
                    }
                }
            }
            assert forall|a: int|
                0 <= a < newp.len() implies ((#[trigger] newp[a]).0 < u + 1 && newp[a].1
                == scores@[newp[a].0 as int]) by {
                if a < pos {
                    assert(newp[a] == oldp[a]);
                } else if a == pos {
                } else {
                    assert(newp[a] == oldp[a - 1]);
                }
            }
            assert forall|a: int, b: int|
                0 <= a < b < newp.len() implies newp[a].0 != newp[b].0 by {
                if a < pos && b < pos {
                    assert(newp[a] == oldp[a] && newp[b] == oldp[b]);
                } else if a < pos && b == pos {
                    assert(newp[a] == oldp[a] && oldp[a].0 < u);
                } else if a < pos && b > pos {
                    assert(newp[a] == oldp[a] && newp[b] == oldp[b - 1]);
                } else if a == pos && b > pos {
                    assert(newp[b] == oldp[b - 1] && oldp[b - 1].0 < u);
                } else {
                    assert(newp[a] == oldp[a - 1] && newp[b] == oldp[b - 1]);
                }
            }
        }
        u = u + 1;
    }
    sorted
}

/// When no table at or after `from` carries the name, the search fails.
proof fn lemma_find_table_none(ts: Seq<TableView>, name: Seq<char>, from: int)
    requires
        0 <= from,
        spec_find_table(ts, name, from) is None,
    ensures
        forall|k: int| from <= k < ts.len() ==> ts[k].name != name,
    decreases ts.len() - from,
{
    if from < ts.len() {
        lemma_find_table_none(ts, name, from + 1);
    }
}

/// Every row of a filtered table is a row of the table.
proof fn lemma_filter_row_elems(s: Seq<EmbRow>, p: spec_fn(EmbRow) -> bool)
    ensures
        forall|i: int| 0 <= i < s.filter(p).len() ==> s.contains(#[trigger] s.filter(p)[i]),
    decreases s.len(),
{
    reveal(Seq::filter);
    if s.len() > 0 {
        let d = s.drop_last();
        lemma_filter_row_elems(d, p);
        assert forall|i: int|
            0 <= i < s.filter(p).len() implies s.contains(#[trigger] s.filter(p)[i]) by {
            if i < d.filter(p).len() {
                assert(d.filter(p)[i] == s.filter(p)[i]);
                let w = choose|w: int| 0 <= w < d.len() && d[w] == d.filter(p)[i];
                assert(s[w] == s.filter(p)[i]);
            } else {
                assert(s.filter(p)[i] == s.last());
                assert(s[s.len() - 1] == s.last());
            }
        }
    }
}

} // verus!
