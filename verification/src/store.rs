use vstd::prelude::*;
use crate::key::{
    KEY_SEPARATOR, key_of, has_separator, make_chunk_key, lemma_key_of_has_separator,
    is_seq_prefix, doc_prefix, key_matches_doc, split_key_spec, lemma_key_of_split,
};
use crate::order::str_eq;
use crate::rank::ScoredHit;

verus! {

/// One stored chunk: its namespace, its composed chunk key, the bit
/// patterns of the embedding's IEEE-754 single-precision components, and
/// the caller's opaque metadata.
pub struct StoreEntry {
    pub namespace: String,
    pub key: String,
    pub vector: Vec<u32>,
    pub meta: serde_json::Value,
}

/// The abstract contents of a store: the latched dimensionality and a map
/// from (namespace, chunk key) to (embedding bits, metadata).
pub ghost struct StoreView {
    pub dims: Option<usize>,
    pub records: Map<(Seq<char>, Seq<char>), (Seq<u32>, serde_json::Value)>,
}

/// The map a sequence of entries stands for; later entries win, though a
/// well-formed store never holds two entries under one (namespace, key).
pub open spec fn entries_map(s: Seq<StoreEntry>) -> Map<
    (Seq<char>, Seq<char>),
    (Seq<u32>, serde_json::Value),
>
    decreases s.len(),
{
    if s.len() == 0 {
        Map::empty()
    } else {
        entries_map(s.drop_last()).insert(
            (s.last().namespace@, s.last().key@),
            (s.last().vector@, s.last().meta),
        )
    }
}

/// No two entries share a (namespace, key) pair.
pub open spec fn entries_distinct(s: Seq<StoreEntry>) -> bool {
    forall|i: int, j: int|
        0 <= i < j < s.len() ==> !(s[i].namespace@ == s[j].namespace@ && s[i].key@ == s[j].key@)
}

/// Every entry a well-formed store holds.
pub open spec fn entry_well_formed(e: StoreEntry, dims: Option<usize>) -> bool {
    &&& has_separator(e.key@)
    &&& dims.is_some()
    &&& e.vector@.len() == dims.unwrap()
}

/// In-memory vector store for embeddings. All vectors in the store have the
/// same number of components, latched by the first insertion and reset when
/// the store becomes empty. Records are organized by namespace and chunk
/// key and support document-level deletion.
pub struct VectorStore {
    dims: Option<usize>,
    entries: Vec<StoreEntry>,
}

impl View for VectorStore {
    type V = StoreView;

    closed spec fn view(&self) -> StoreView {
        StoreView { dims: self.dims, records: entries_map(self.entries@) }
    }
}

impl Default for VectorStore {
    /// The empty store: no records, no dimensionality latched.
    fn default() -> (store: VectorStore)
        ensures
            store.wf(),
            store@.dims.is_none(),
            store@.records == Map::<(Seq<char>, Seq<char>), (Seq<u32>, serde_json::Value)>::empty(),
    {
        VectorStore::new()
    }
}

/// The store's failure values.
#[derive(Debug, Clone, Copy, PartialEq, Eq, Structural)]
pub enum VectorStoreError {
    /// An insert carried a vector whose length differs from the store's
    /// latched dimensionality.
    DimensionalityMismatch { expected: usize, actual: usize },
}

proof fn lemma_entries_map_index(s: Seq<StoreEntry>, i: int)
    requires
        entries_distinct(s),
        0 <= i < s.len(),
    ensures
        entries_map(s).contains_key((s[i].namespace@, s[i].key@)),
        entries_map(s)[(s[i].namespace@, s[i].key@)] == (s[i].vector@, s[i].meta),
    decreases s.len(),
{
    if i == s.len() - 1 {
    } else {
        assert(entries_distinct(s.drop_last()));
        lemma_entries_map_index(s.drop_last(), i);
        assert(!(s[i].namespace@ == s.last().namespace@ && s[i].key@ == s.last().key@));
    }
}

proof fn lemma_entries_map_domain(s: Seq<StoreEntry>, p: (Seq<char>, Seq<char>))
    requires
        entries_map(s).contains_key(p),
    ensures
        exists|i: int| 0 <= i < s.len() && (s[i].namespace@, s[i].key@) == p,
    decreases s.len(),
{
    if s.len() > 0 {
        if p == (s.last().namespace@, s.last().key@) {
            assert((s[s.len() - 1].namespace@, s[s.len() - 1].key@) == p);
        } else {
            lemma_entries_map_domain(s.drop_last(), p);
            let i = choose|i: int|
                0 <= i < s.drop_last().len() && (s.drop_last()[i].namespace@, s.drop_last()[i].key@)
                    == p;
            assert((s[i].namespace@, s[i].key@) == p);
        }
    }
}

proof fn lemma_entries_map_len(s: Seq<StoreEntry>)
    requires
        entries_distinct(s),
    ensures
        entries_map(s).dom().finite(),
        entries_map(s).dom().len() == s.len(),
    decreases s.len(),
{
    if s.len() == 0 {
    } else {
        assert(entries_distinct(s.drop_last()));
        lemma_entries_map_len(s.drop_last());
        let p = (s.last().namespace@, s.last().key@);
        if entries_map(s.drop_last()).contains_key(p) {
            lemma_entries_map_domain(s.drop_last(), p);
            let i = choose|i: int|
                0 <= i < s.drop_last().len() && (s.drop_last()[i].namespace@, s.drop_last()[i].key@)
                    == p;
            assert(!(s[i].namespace@ == s.last().namespace@ && s[i].key@ == s.last().key@));
            assert(false);
        }
    }
}

proof fn lemma_entries_map_remove(s: Seq<StoreEntry>, i: int)
    requires
        entries_distinct(s),
        0 <= i < s.len(),
    ensures
        entries_map(s.remove(i)) == entries_map(s).remove((s[i].namespace@, s[i].key@)),
    decreases s.len(),
{
    let p = (s[i].namespace@, s[i].key@);
    if i == s.len() - 1 {
        assert(s.remove(i) =~= s.drop_last());
        if entries_map(s.drop_last()).contains_key(p) {
            lemma_entries_map_domain(s.drop_last(), p);
            assert(false);
        }
        assert(entries_map(s).remove(p) =~= entries_map(s.drop_last()));
    } else {
        assert(entries_distinct(s.drop_last()));
        lemma_entries_map_remove(s.drop_last(), i);
        assert(s.remove(i).drop_last() =~= s.drop_last().remove(i));
        assert(s.remove(i).last() == s.last());
        let q = (s.last().namespace@, s.last().key@);
        assert(p != q);
        assert(entries_map(s.remove(i)) == entries_map(s.drop_last().remove(i)).insert(
            q,
            (s.last().vector@, s.last().meta),
        ));
        assert(entries_map(s).remove(p) =~= entries_map(s.drop_last()).remove(p).insert(
            q,
            (s.last().vector@, s.last().meta),
        ));
    }
}

impl VectorStore {
    /// All the store's internal obligations: entries are keyed uniquely,
    /// every key contains the separator, every vector has the latched
    /// length, and the dimensionality is latched exactly while the store is
    /// nonempty.
    pub closed spec fn wf(&self) -> bool {
        &&& entries_distinct(self.entries@)
        &&& forall|i: int|
            0 <= i < self.entries@.len() ==> entry_well_formed(
                #[trigger] self.entries@[i],
                self.dims,
            )
        &&& self.dims.is_none() <==> self.entries@.len() == 0
    }

    /// Well-formedness seen through the view: the dimensionality is latched
    /// exactly while records exist, and every record's vector has the
    /// latched length.
    pub proof fn lemma_wf_view(&self)
        requires
            self.wf(),
        ensures
            self@.records.dom().finite(),
            self@.dims.is_none() <==> self@.records.len() == 0,
            forall|p: (Seq<char>, Seq<char>)|
                self@.records.contains_key(p) ==> (#[trigger] self@.records[p]).0.len()
                    == self@.dims.unwrap() && has_separator(p.1),
    {
        lemma_entries_map_len(self.entries@);
        assert forall|p: (Seq<char>, Seq<char>)| self@.records.contains_key(p) implies (
        #[trigger] self@.records[p]).0.len() == self@.dims.unwrap() && has_separator(p.1) by {
            lemma_entries_map_domain(self.entries@, p);
            let i = choose|i: int|
                0 <= i < self.entries@.len() && (self.entries@[i].namespace@,
                self.entries@[i].key@) == p;
            lemma_entries_map_index(self.entries@, i);
        }
    }

    /// Create a new empty vector store.
    pub fn new() -> (store: VectorStore)
        ensures
            store.wf(),
            store@.dims.is_none(),
            store@.records == Map::<(Seq<char>, Seq<char>), (Seq<u32>, serde_json::Value)>::empty(),
    {
        VectorStore { dims: None, entries: Vec::new() }
    }

    /// The latched dimensionality, or `None` while the store is empty.
    pub fn dims(&self) -> (d: Option<usize>)
        ensures
            d == self@.dims,
    {
        self.dims
    }

    /// How many chunk records the store holds, over all namespaces.
    pub fn len(&self) -> (n: usize)
        requires
            self.wf(),
        ensures
            n == self@.records.len(),
    {
        proof {
            lemma_entries_map_len(self.entries@);
        }
        self.entries.len()
    }

    /// Whether the store holds no records at all.
    pub fn is_empty(&self) -> (b: bool)
        requires
            self.wf(),
        ensures
            b == (self@.records.len() == 0),
    {
        proof {
            lemma_entries_map_len(self.entries@);
        }
        self.entries.is_empty()
    }

    /// Insert or overwrite the record of one chunk of a document.
    ///
    /// The first insertion latches the dimensionality all later insertions
    /// must match; one whose vector has a different length fails and leaves
    /// the store unchanged. The vector is stored as given: callers that owe
    /// their callers unit-length embeddings normalize before inserting.
    #[verifier::loop_isolation(false)]
    pub fn upsert(
        &mut self,
        namespace: &str,
        doc_id: &str,
        chunk_id: &str,
        vector: Vec<u32>,
        meta: serde_json::Value,
    ) -> (r: Result<(), VectorStoreError>)
        requires
            old(self).wf(),
        ensures
            final(self).wf(),
            r is Err <==> old(self)@.dims.is_some() && old(self)@.dims.unwrap() != vector@.len(),
            match r {
                Ok(()) => {
                    &&& final(self)@.records == old(self)@.records.insert(
                        (namespace@, key_of(doc_id@, chunk_id@)),
                        (vector@, meta),
                    )
                    &&& final(self)@.dims.is_some()
                    &&& final(self)@.dims.unwrap() == vector@.len()
                    &&& old(self)@.dims.is_some() ==> final(self)@.dims == old(self)@.dims
                },
                Err(e) => {
                    &&& *final(self) == *old(self)
                    &&& e == (VectorStoreError::DimensionalityMismatch {
                        expected: old(self)@.dims.unwrap(),
                        actual: vector@.len() as usize,
                    })
                },
            },
    {
        match self.dims {
            Some(expected) => {
                if expected != vector.len() {
                    return Err(
                        VectorStoreError::DimensionalityMismatch {
                            expected,
                            actual: vector.len(),
                        },
                    );
                }
            },
            None => {
                self.dims = Some(vector.len());
            },
        }
        let ghost pre = self.entries@;
        let key = make_chunk_key(doc_id, chunk_id);
        proof {
            lemma_key_of_has_separator(doc_id@, chunk_id@);
        }
        let mut i: usize = 0;
        let n = self.entries.len();
        while i < n
            invariant
                i <= n,
                self.entries@ == pre,
                self.dims.is_some(),
                self.dims.unwrap() == vector@.len(),
                old(self)@.dims.is_some() ==> self.dims == old(self).dims,
                forall|j: int|
                    0 <= j < i ==> !((#[trigger] self.entries@[j]).namespace@ == namespace@
                        && self.entries@[j].key@ == key@),
            decreases n - i,
        {
            let e = &self.entries[i];
            if str_eq(e.namespace.as_str(), namespace) && str_eq(e.key.as_str(), key.as_str()) {
                proof {
                    lemma_entries_map_remove(self.entries@, i as int);
                }
                let ghost removed = self.entries@.remove(i as int);
                let _old_entry = self.entries.remove(i);
                let entry = StoreEntry {
                    namespace: namespace.to_owned(),
                    key,
                    vector,
                    meta,
                };
                self.entries.push(entry);
                proof {
                    let p = (namespace@, key_of(doc_id@, chunk_id@));
                    assert(self.entries@.drop_last() =~= removed);
                    assert(entries_map(self.entries@) =~= entries_map(pre).insert(
                        p,
                        (vector@, meta),
                    ));
                    assert forall|a: int, b: int|
                        0 <= a < b < self.entries@.len() implies !((
                    #[trigger] self.entries@[a]).namespace@ == (
                    #[trigger] self.entries@[b]).namespace@ && self.entries@[a].key@
                        == self.entries@[b].key@) by {
                        if b < self.entries@.len() - 1 {
                            let a0 = if a < i { a } else { a + 1 };
                            let b0 = if b < i { b } else { b + 1 };
                            assert(pre[a0] == self.entries@[a]);
                            assert(pre[b0] == self.entries@[b]);
                        } else {
                            let a0 = if a < i { a } else { a + 1 };
                            assert(pre[a0] == self.entries@[a]);
                            assert(!(pre[a0].namespace@ == pre[i as int].namespace@ && pre[a0].key@
                                == pre[i as int].key@));
                        }
                    }
                }
                return Ok(());
            }
            i = i + 1;
        }
        let entry = StoreEntry {
            namespace: namespace.to_owned(),
            key,
            vector,
            meta,
        };
        self.entries.push(entry);
        proof {
            assert(self.entries@.drop_last() =~= pre);
            assert(entries_map(self.entries@) =~= entries_map(pre).insert(
                (namespace@, key_of(doc_id@, chunk_id@)),
                (vector@, meta),
            ));
        }
        Ok(())
    }

    /// Delete every chunk of a document within a namespace: exactly the
    /// records whose key starts with the document id followed by the
    /// separator. If this leaves the whole store empty, the dimensionality
    /// latch is reset.
    #[verifier::loop_isolation(false)]
    pub fn delete_doc(&mut self, namespace: &str, doc_id: &str)
        requires
            old(self).wf(),
        ensures
            final(self).wf(),
            final(self)@.records == old(self)@.records.remove_keys(
                deleted_keys(namespace@, doc_id@),
            ),
            final(self)@.records.len() == 0 ==> final(self)@.dims.is_none(),
            final(self)@.records.len() != 0 ==> final(self)@.dims == old(self)@.dims,
    {
        let ghost orig = self.entries@;
        let ghost dk = deleted_keys(namespace@, doc_id@);
        let mut kept: Vec<StoreEntry> = Vec::new();
        let ghost mut processed: int = 0;
        proof {
            assert(orig.take(0) =~= Seq::<StoreEntry>::empty());
            assert(kept@ + self.entries@ =~= orig);
        }
        while self.entries.len() > 0
            invariant
                0 <= processed <= orig.len(),
                self.entries@ =~= orig.skip(processed),
                self.dims == old(self).dims,
                entries_distinct(kept@ + self.entries@),
                entries_map(kept@) == entries_map(orig.take(processed)).remove_keys(dk),
                forall|j: int|
                    0 <= j < kept@.len() ==> entry_well_formed(
                        #[trigger] kept@[j],
                        old(self).dims,
                    ),
                forall|j: int|
                    0 <= j < kept@.len() ==> !dk.contains(
                        ((#[trigger] kept@[j]).namespace@, kept@[j].key@),
                    ),
            decreases self.entries@.len(),
        {
            let ghost c0 = kept@ + self.entries@;
            let ghost kept_pre = kept@;
            let e = self.entries.remove(0);
            let ghost p = (e.namespace@, e.key@);
            proof {
                assert(e == orig[processed]) by {
                    assert(orig.skip(processed)[0] == orig[processed]);
                }
                assert(orig.take(processed + 1).drop_last() =~= orig.take(processed));
                assert(entries_map(orig.take(processed + 1)) == entries_map(
                    orig.take(processed),
                ).insert(p, (e.vector@, e.meta)));
                assert(self.entries@ =~= orig.skip(processed + 1)) by {
                    assert(orig.skip(processed).drop_first() =~= orig.skip(processed + 1));
                }
            }
            let matched = str_eq(e.namespace.as_str(), namespace) && key_matches_doc(
                e.key.as_str(),
                doc_id,
            );
            proof {
                assert(matched == dk.contains(p));
            }
            if !matched {
                kept.push(e);
                proof {
                    assert(kept@.drop_last() =~= kept_pre);
                    assert(entries_map(kept@) == entries_map(kept_pre).insert(
                        p,
                        (e.vector@, e.meta),
                    ));
                    assert(entries_map(kept@) =~= entries_map(orig.take(processed + 1)).remove_keys(
                        dk,
                    ));
                    assert(kept@ + self.entries@ =~= c0);
                    assert(entry_well_formed(e, old(self).dims));
                }
            } else {
                proof {
                    assert(entries_map(kept@) =~= entries_map(orig.take(processed + 1)).remove_keys(
                        dk,
                    ));
                    let c1 = kept@ + self.entries@;
                    assert forall|a: int, b: int|
                        0 <= a < b < c1.len() implies !((#[trigger] c1[a]).namespace@ == (
                    #[trigger] c1[b]).namespace@ && c1[a].key@ == c1[b].key@) by {
                        let a0 = if a < kept_pre.len() {
                            a
                        } else {
                            a + 1
                        };
                        let b0 = if b < kept_pre.len() {
                            b
                        } else {
                            b + 1
                        };
                        assert(c1[a] == c0[a0]);
                        assert(c1[b] == c0[b0]);
                    }
                }
            }
            proof {
                processed = processed + 1;
            }
        }
        proof {
            assert(orig.take(processed) =~= orig);
            assert(kept@ + self.entries@ =~= kept@);
        }
        self.entries = kept;
        if self.entries.is_empty() {
            self.dims = None;
        }
        proof {
            lemma_entries_map_len(self.entries@);
        }
    }

    /// The candidates a search over a namespace scores: every record of
    /// that namespace, under its composed chunk key. Returns `None` when no
    /// dimensionality is latched yet or the query's length differs from it;
    /// the search then owes an empty result and no error.
    pub fn search_candidates(&self, namespace: &str, query_len: usize) -> (r: Option<
        Vec<SearchCandidate>,
    >)
        requires
            self.wf(),
        ensures
            r.is_none() <==> (self@.dims.is_none() || self@.dims.unwrap() != query_len),
            match r {
                None => true,
                Some(cands) => {
                    &&& forall|i: int|
                        0 <= i < cands@.len() ==> self@.records.contains_key(
                            (namespace@, (#[trigger] cands@[i]).key@),
                        ) && self@.records[(namespace@, cands@[i].key@)].0 == cands@[i].vector@
                    &&& forall|i: int, j: int|
                        0 <= i < j < cands@.len() ==> (#[trigger] cands@[i]).key@ != (
                        #[trigger] cands@[j]).key@
                    &&& forall|k: Seq<char>|
                        self@.records.contains_key((namespace@, k)) ==> exists|i: int|
                            0 <= i < cands@.len() && (#[trigger] cands@[i]).key@ == k
                    &&& forall|i: int|
                        0 <= i < cands@.len() ==> (#[trigger] cands@[i]).vector@.len() == query_len
                            && has_separator(cands@[i].key@)
                },
            },
    {
        match self.dims {
            None => {
                return None;
            },
            Some(d) => {
                if d != query_len {
                    return None;
                }
            },
        }
        Some(self.all_in_namespace(namespace))
    }

    /// Every record of one namespace, under its composed chunk key.
    #[verifier::loop_isolation(false)]
    #[verifier::rlimit(40)]
    pub fn all_in_namespace(&self, namespace: &str) -> (cands: Vec<SearchCandidate>)
        requires
            self.wf(),
        ensures
            forall|i: int|
                0 <= i < cands@.len() ==> self@.records.contains_key(
                    (namespace@, (#[trigger] cands@[i]).key@),
                ) && self@.records[(namespace@, cands@[i].key@)].0 == cands@[i].vector@,
            forall|i: int, j: int|
                0 <= i < j < cands@.len() ==> (#[trigger] cands@[i]).key@ != (
                #[trigger] cands@[j]).key@,
            forall|k: Seq<char>|
                self@.records.contains_key((namespace@, k)) ==> exists|i: int|
                    0 <= i < cands@.len() && (#[trigger] cands@[i]).key@ == k,
            cands@.len() > 0 ==> self@.dims.is_some(),
            forall|i: int|
                0 <= i < cands@.len() ==> (#[trigger] cands@[i]).vector@.len()
                    == self@.dims.unwrap() && has_separator(cands@[i].key@),
    {
        let n = self.entries.len();
        let mut cands: Vec<SearchCandidate> = Vec::new();
        let mut i: usize = 0;
        #[verifier::rlimit(30)]
        while i < n
            invariant
                i <= n,
                forall|c: int|
                    0 <= c < cands@.len() ==> exists|j: int|
                        0 <= j < i && (#[trigger] cands@[c]).key@ == self.entries@[j].key@
                            && cands@[c].vector@ == self.entries@[j].vector@
                            && self.entries@[j].namespace@ == namespace@,
                forall|j: int|
                    0 <= j < i && (#[trigger] self.entries@[j]).namespace@ == namespace@
                        ==> exists|c: int|
                        0 <= c < cands@.len() && (#[trigger] cands@[c]).key@
                            == self.entries@[j].key@,
                forall|c1: int, c2: int|
                    0 <= c1 < c2 < cands@.len() ==> (#[trigger] cands@[c1]).key@ != (
                    #[trigger] cands@[c2]).key@,
            decreases n - i,
        {
            let e = &self.entries[i];
            let ghost cands_pre = cands@;
            if str_eq(e.namespace.as_str(), namespace) {
                let cand = SearchCandidate { key: e.key.clone(), vector: copy_bits(&e.vector) };
                proof {
                    assert forall|c: int| 0 <= c < cands@.len() implies (
                    #[trigger] cands@[c]).key@ != e.key@ by {
                        let j = choose|j: int|
                            0 <= j < i && cands@[c].key@ == self.entries@[j].key@ && cands@[c].vector@
                                == self.entries@[j].vector@ && self.entries@[j].namespace@
                                == namespace@;
                        assert(!(self.entries@[j].namespace@ == self.entries@[i as int].namespace@
                            && self.entries@[j].key@ == self.entries@[i as int].key@));
                    }
                }
                cands.push(cand);
                proof {
                    assert(cands@[cands@.len() - 1].key@ == self.entries@[i as int].key@);
                    assert forall|j: int|
                        0 <= j < i + 1 && (#[trigger] self.entries@[j]).namespace@
                            == namespace@ implies exists|c: int|
                        0 <= c < cands@.len() && (#[trigger] cands@[c]).key@
                            == self.entries@[j].key@ by {
                        if j < i {
                            let c = choose|c: int|
                                0 <= c < cands_pre.len() && (#[trigger] cands_pre[c]).key@
                                    == self.entries@[j].key@;
                            assert(cands@[c].key@ == self.entries@[j].key@);
                        } else {
                            assert(cands@[cands@.len() - 1].key@ == self.entries@[j].key@);
                        }
                    }
                }
            }
            i = i + 1;
        }
        proof {
            lemma_candidates_member(self.entries@, cands@, namespace@);
            lemma_candidates_well_formed(self.entries@, cands@, namespace@, self.dims);
            lemma_candidates_cover(self.entries@, cands@, namespace@);
        }
        cands
    }

    /// Replace every chunk of a document by the staged chunks, atomically
    /// from the caller's point of view: all chunk lengths are validated
    /// against the latched dimensionality before anything is mutated, so a
    /// failed call leaves the store untouched. On success the document's
    /// old chunks are deleted and the staged ones inserted in order.
    #[verifier::loop_isolation(false)]
    pub fn replace_document(
        &mut self,
        namespace: &str,
        doc_id: &str,
        chunks: Vec<StagedChunk>,
    ) -> (r: Result<(), VectorStoreError>)
        requires
            old(self).wf(),
        ensures
            final(self).wf(),
            r is Err <==> !staged_ok(old(self)@.dims, chunks@),
            match r {
                Ok(()) => {
                    &&& final(self)@.records == insert_chunks(
                        old(self)@.records.remove_keys(deleted_keys(namespace@, doc_id@)),
                        namespace@,
                        doc_id@,
                        chunks@,
                    )
                    &&& chunks@.len() > 0 ==> final(self)@.dims.is_some()
                        && final(self)@.dims.unwrap() == staged_expected(old(self)@.dims, chunks@)
                    &&& (chunks@.len() == 0 && final(self)@.records.len() == 0)
                        ==> final(self)@.dims.is_none()
                    &&& (chunks@.len() == 0 && final(self)@.records.len() != 0)
                        ==> final(self)@.dims == old(self)@.dims
                },
                Err(e) => {
                    &&& *final(self) == *old(self)
                    &&& exists|i: int|
                        0 <= i < chunks@.len() && (#[trigger] chunks@[i]).vector@.len()
                            != staged_expected(old(self)@.dims, chunks@)
                    &&& e == (VectorStoreError::DimensionalityMismatch {
                        expected: staged_expected(old(self)@.dims, chunks@) as usize,
                        actual: chunks@[first_bad_chunk(old(self)@.dims, chunks@)].vector@.len()
                            as usize,
                    })
                },
            },
    {
        let ghost dims0 = self.dims;
        let ghost orig_chunks = chunks@;
        let mut expected: Option<usize> = self.dims;
        let n = chunks.len();
        let mut i: usize = 0;
        while i < n
            invariant
                i <= n,
                n == chunks@.len(),
                *self == *old(self),
                dims0.is_some() ==> expected == dims0,
                dims0.is_none() && i == 0 ==> expected.is_none(),
                dims0.is_none() && i > 0 ==> expected.is_some() && expected.unwrap()
                    == chunks@[0].vector@.len(),
                forall|j: int|
                    0 <= j < i ==> (#[trigger] chunks@[j]).vector@.len() == staged_expected(
                        dims0,
                        chunks@,
                    ),
            decreases n - i,
        {
            let len = chunks[i].vector.len();
            match expected {
                Some(d) => {
                    if d != len {
                        proof {
                            let bad = first_bad_chunk(dims0, chunks@);
                            assert(0 <= i < chunks@.len() && chunks@[i as int].vector@.len()
                                != staged_expected(dims0, chunks@) && forall|j: int|
                                0 <= j < i ==> (#[trigger] chunks@[j]).vector@.len()
                                    == staged_expected(dims0, chunks@));
                            assert(bad == i);
                        }
                        return Err(VectorStoreError::DimensionalityMismatch { expected: d, actual: len });
                    }
                    proof {
                        assert(len == chunks@[i as int].vector@.len());
                        assert(chunks@[i as int].vector@.len() == staged_expected(dims0, chunks@));
                    }
                },
                None => {
                    expected = Some(len);
                    proof {
                        assert(i == 0);
                        assert(chunks@[0].vector@.len() == staged_expected(dims0, chunks@));
                    }
                },
            }
            i = i + 1;
        }
        let ghost target = staged_expected(dims0, chunks@);
        self.delete_doc(namespace, doc_id);
        let ghost deleted = self@.records;
        let mut staged = chunks;
        let ghost mut processed: int = 0;
        proof {
            assert(orig_chunks.take(0) =~= Seq::<StagedChunk>::empty());
        }
        while staged.len() > 0
            invariant
                0 <= processed <= orig_chunks.len(),
                staged@ =~= orig_chunks.skip(processed),
                self.wf(),
                self@.records == insert_chunks(deleted, namespace@, doc_id@, orig_chunks.take(processed)),
                self@.dims.is_none() || self@.dims.unwrap() == target,
                processed > 0 ==> self@.dims.is_some(),
                processed == 0 ==> ((self@.records.len() == 0 ==> self@.dims.is_none()) && (
                self@.records.len() != 0 ==> self@.dims == dims0)),
            decreases staged@.len(),
        {
            let c = staged.remove(0);
            proof {
                assert(c == orig_chunks[processed]) by {
                    assert(orig_chunks.skip(processed)[0] == orig_chunks[processed]);
                }
                assert(staged@ =~= orig_chunks.skip(processed + 1)) by {
                    assert(orig_chunks.skip(processed).drop_first() =~= orig_chunks.skip(
                        processed + 1,
                    ));
                }
                assert(orig_chunks.take(processed + 1).drop_last() =~= orig_chunks.take(processed));
            }
            let r = self.upsert(namespace, doc_id, c.chunk_id.as_str(), c.vector, c.meta);
            match r {
                Ok(()) => {},
                Err(_) => {
                    proof {
                        assert(false);
                    }
                },
            }
            proof {
                processed = processed + 1;
            }
        }
        proof {
            assert(orig_chunks.take(processed) =~= orig_chunks);
        }
        Ok(())
    }

    /// A copy of every record the store holds, one entry per chunk, for
    /// the persistence codec to turn into rows.
    #[verifier::loop_isolation(false)]
    pub fn snapshot_entries(&self) -> (r: Vec<StoreEntry>)
        requires
            self.wf(),
        ensures
            entries_distinct(r@),
            forall|i: int|
                0 <= i < r@.len() ==> self@.records.contains_key(
                    ((#[trigger] r@[i]).namespace@, r@[i].key@),
                ) && self@.records[(r@[i].namespace@, r@[i].key@)] == (r@[i].vector@, r@[i].meta),
            forall|p: (Seq<char>, Seq<char>)|
                self@.records.contains_key(p) ==> exists|i: int|
                    0 <= i < r@.len() && ((#[trigger] r@[i]).namespace@, r@[i].key@) == p,
            forall|i: int| 0 <= i < r@.len() ==> entry_well_formed(#[trigger] r@[i], self@.dims),
    {
        let n = self.entries.len();
        let mut r: Vec<StoreEntry> = Vec::new();
        let mut i: usize = 0;
        while i < n
            invariant
                i <= n,
                r@.len() == i,
                forall|c: int|
                    0 <= c < i ==> (#[trigger] r@[c]).namespace@ == self.entries@[c].namespace@
                        && r@[c].key@ == self.entries@[c].key@ && r@[c].vector@
                        == self.entries@[c].vector@ && r@[c].meta == self.entries@[c].meta,
            decreases n - i,
        {
            let e = &self.entries[i];
            let copy = StoreEntry {
                namespace: e.namespace.clone(),
                key: e.key.clone(),
                vector: copy_bits(&e.vector),
                meta: e.meta.clone(),
            };
            r.push(copy);
            i = i + 1;
        }
        proof {
            assert forall|c: int| 0 <= c < r@.len() implies self@.records.contains_key(
                ((#[trigger] r@[c]).namespace@, r@[c].key@),
            ) && self@.records[(r@[c].namespace@, r@[c].key@)] == (r@[c].vector@, r@[c].meta) by {
                lemma_entries_map_index(self.entries@, c);
            }
            assert forall|p: (Seq<char>, Seq<char>)|
                self@.records.contains_key(p) implies exists|i0: int|
                0 <= i0 < r@.len() && ((#[trigger] r@[i0]).namespace@, r@[i0].key@) == p by {
                lemma_entries_map_domain(self.entries@, p);
                let j = choose|j: int|
                    0 <= j < self.entries@.len() && (self.entries@[j].namespace@,
                    self.entries@[j].key@) == p;
                assert((r@[j].namespace@, r@[j].key@) == p);
            }
        }
        r
    }

    /// The stored metadata of one chunk, if present.
    #[verifier::loop_isolation(false)]
    pub fn chunk_meta(&self, namespace: &str, doc_id: &str, chunk_id: &str) -> (r: Option<
        &serde_json::Value,
    >)
        requires
            self.wf(),
        ensures
            match r {
                Some(m) => self@.records.contains_key((namespace@, key_of(doc_id@, chunk_id@)))
                    && *m == self@.records[(namespace@, key_of(doc_id@, chunk_id@))].1,
                None => !self@.records.contains_key((namespace@, key_of(doc_id@, chunk_id@))),
            },
    {
        let key = make_chunk_key(doc_id, chunk_id);
        let n = self.entries.len();
        let mut i: usize = 0;
        while i < n
            invariant
                i <= n,
                n == self.entries@.len(),
                self.wf(),
                forall|j: int|
                    0 <= j < i ==> !((#[trigger] self.entries@[j]).namespace@ == namespace@
                        && self.entries@[j].key@ == key@),
            decreases n - i,
        {
            let e = &self.entries[i];
            if str_eq(e.namespace.as_str(), namespace) && str_eq(e.key.as_str(), key.as_str()) {
                proof {
                    lemma_entries_map_index(self.entries@, i as int);
                }
                return Some(&self.entries[i].meta);
            }
            i = i + 1;
        }
        proof {
            if self@.records.contains_key((namespace@, key_of(doc_id@, chunk_id@))) {
                lemma_entries_map_domain(self.entries@, (namespace@, key_of(doc_id@, chunk_id@)));
            }
        }
        None
    }
}

/// One chunk staged for `replace_document`: its chunk id, the bit patterns
/// of its embedding's components, and its metadata.
pub struct StagedChunk {
    pub chunk_id: String,
    pub vector: Vec<u32>,
    pub meta: serde_json::Value,
}

/// The vector length every staged chunk must have: the latched
/// dimensionality if one is set, else the first staged chunk's length.
pub open spec fn staged_expected(dims0: Option<usize>, chunks: Seq<StagedChunk>) -> nat {
    if dims0.is_some() {
        dims0.unwrap() as nat
    } else if chunks.len() > 0 {
        chunks[0].vector@.len()
    } else {
        0
    }
}

/// Whether every staged chunk has the expected vector length.
pub open spec fn staged_ok(dims0: Option<usize>, chunks: Seq<StagedChunk>) -> bool {
    forall|i: int|
        0 <= i < chunks.len() ==> (#[trigger] chunks[i]).vector@.len() == staged_expected(
            dims0,
            chunks,
        )
}

/// The first staged chunk whose vector length is wrong; meaningful only
/// when `staged_ok` fails.
pub open spec fn first_bad_chunk(dims0: Option<usize>, chunks: Seq<StagedChunk>) -> int {
    choose|i: int|
        0 <= i < chunks.len() && (#[trigger] chunks[i]).vector@.len() != staged_expected(
            dims0,
            chunks,
        ) && forall|j: int|
            0 <= j < i ==> (#[trigger] chunks[j]).vector@.len() == staged_expected(dims0, chunks)
}

/// The records after inserting each staged chunk of a document in order.
pub open spec fn insert_chunks(
    m: Map<(Seq<char>, Seq<char>), (Seq<u32>, serde_json::Value)>,
    namespace: Seq<char>,
    doc_id: Seq<char>,
    chunks: Seq<StagedChunk>,
) -> Map<(Seq<char>, Seq<char>), (Seq<u32>, serde_json::Value)>
    decreases chunks.len(),
{
    if chunks.len() == 0 {
        m
    } else {
        insert_chunks(m, namespace, doc_id, chunks.drop_last()).insert(
            (namespace, key_of(doc_id, chunks.last().chunk_id@)),
            (chunks.last().vector@, chunks.last().meta),
        )
    }
}

/// One record a search scores: the composed chunk key and the embedding's
/// bit patterns.
pub struct SearchCandidate {
    pub key: String,
    pub vector: Vec<u32>,
}

/// Copy a vector of embedding component bits.
pub(crate) fn copy_bits(v: &Vec<u32>) -> (r: Vec<u32>)
    ensures
        r@ == v@,
{
    let mut r: Vec<u32> = Vec::new();
    let n = v.len();
    let mut i: usize = 0;
    while i < n
        invariant
            i <= n,
            n == v@.len(),
            r@ == v@.take(i as int),
        decreases n - i,
    {
        r.push(v[i]);
        proof {
            assert(r@ =~= v@.take(i + 1));
        }
        i = i + 1;
    }
    proof {
        assert(v@.take(n as int) =~= v@);
    }
    r
}

/// Every candidate gathered from a namespace stands in the entry map.
proof fn lemma_candidates_member(
    entries: Seq<StoreEntry>,
    cands: Seq<SearchCandidate>,
    namespace: Seq<char>,
)
    requires
        entries_distinct(entries),
        forall|c: int|
            0 <= c < cands.len() ==> exists|j: int|
                0 <= j < entries.len() && (#[trigger] cands[c]).key@ == entries[j].key@
                    && cands[c].vector@ == entries[j].vector@ && entries[j].namespace@ == namespace,
    ensures
        forall|i: int|
            0 <= i < cands.len() ==> entries_map(entries).contains_key(
                (namespace, (#[trigger] cands[i]).key@),
            ) && entries_map(entries)[(namespace, cands[i].key@)].0 == cands[i].vector@,
{
    assert forall|c: int| 0 <= c < cands.len() implies entries_map(entries).contains_key(
        (namespace, (#[trigger] cands[c]).key@),
    ) && entries_map(entries)[(namespace, cands[c].key@)].0 == cands[c].vector@ by {
        let j = choose|j: int|
            0 <= j < entries.len() && cands[c].key@ == entries[j].key@ && cands[c].vector@
                == entries[j].vector@ && entries[j].namespace@ == namespace;
        lemma_entries_map_index(entries, j);
    }
}

/// Every candidate gathered from a namespace is a well-formed entry's
/// image: its vector has the latched length and its key a separator.
proof fn lemma_candidates_well_formed(
    entries: Seq<StoreEntry>,
    cands: Seq<SearchCandidate>,
    namespace: Seq<char>,
    dims: Option<usize>,
)
    requires
        forall|i: int| 0 <= i < entries.len() ==> entry_well_formed(#[trigger] entries[i], dims),
        forall|c: int|
            0 <= c < cands.len() ==> exists|j: int|
                0 <= j < entries.len() && (#[trigger] cands[c]).key@ == entries[j].key@
                    && cands[c].vector@ == entries[j].vector@ && entries[j].namespace@ == namespace,
    ensures
        cands.len() > 0 ==> dims.is_some(),
        forall|i: int|
            0 <= i < cands.len() ==> (#[trigger] cands[i]).vector@.len() == dims.unwrap()
                && has_separator(cands[i].key@),
{
    if cands.len() > 0 {
        let j0 = choose|j: int|
            0 <= j < entries.len() && cands[0].key@ == entries[j].key@ && cands[0].vector@
                == entries[j].vector@ && entries[j].namespace@ == namespace;
        assert(entry_well_formed(entries[j0], dims));
    }
    assert forall|c: int| 0 <= c < cands.len() implies (#[trigger] cands[c]).vector@.len()
        == dims.unwrap() && has_separator(cands[c].key@) by {
        let j = choose|j: int|
            0 <= j < entries.len() && cands[c].key@ == entries[j].key@ && cands[c].vector@
                == entries[j].vector@ && entries[j].namespace@ == namespace;
        assert(entry_well_formed(entries[j], dims));
        assert(has_separator(entries[j].key@));
        assert(cands[c].key@ == entries[j].key@);
        let t = choose|t: int| 0 <= t < entries[j].key@.len() && entries[j].key@[t] == KEY_SEPARATOR;
        assert(cands[c].key@[t] == KEY_SEPARATOR);
    }
}

/// Every record of the namespace has a gathered candidate.
proof fn lemma_candidates_cover(
    entries: Seq<StoreEntry>,
    cands: Seq<SearchCandidate>,
    namespace: Seq<char>,
)
    requires
        forall|j: int|
            0 <= j < entries.len() && (#[trigger] entries[j]).namespace@ == namespace
                ==> exists|c: int|
                0 <= c < cands.len() && (#[trigger] cands[c]).key@ == entries[j].key@,
    ensures
        forall|k: Seq<char>|
            entries_map(entries).contains_key((namespace, k)) ==> exists|i: int|
                0 <= i < cands.len() && (#[trigger] cands[i]).key@ == k,
{
    assert forall|k: Seq<char>|
        entries_map(entries).contains_key((namespace, k)) implies exists|i0: int|
        0 <= i0 < cands.len() && (#[trigger] cands[i0]).key@ == k by {
        lemma_entries_map_domain(entries, (namespace, k));
        let j = choose|j: int|
            0 <= j < entries.len() && (entries[j].namespace@, entries[j].key@) == (namespace, k);
        assert(entries[j].namespace@ == namespace);
    }
}

/// The (namespace, key) pairs `delete_doc` removes: those in the given
/// namespace whose key starts with the document id and the separator.
pub open spec fn deleted_keys(namespace: Seq<char>, doc_id: Seq<char>) -> Set<
    (Seq<char>, Seq<char>),
> {
    Set::new(
        |p: (Seq<char>, Seq<char>)|
            p.0 == namespace && is_seq_prefix(doc_prefix(doc_id), p.1),
    )
}

/// Every hit a search hands back names a record of the searched
/// namespace: when hits are scored one per candidate, carrying the
/// candidate's split chunk key, then any selection from them — in
/// particular the ranked top `k` — names only (document id, chunk id)
/// pairs whose composed key is in the namespace, with the scored vector.
pub proof fn lemma_search_hits_in_namespace(
    sv: StoreView,
    cands: Seq<SearchCandidate>,
    scored: Seq<ScoredHit>,
    r: Seq<ScoredHit>,
    namespace: Seq<char>,
)
    requires
        forall|i: int|
            0 <= i < cands.len() ==> sv.records.contains_key(
                (namespace, (#[trigger] cands[i]).key@),
            ) && has_separator(cands[i].key@),
        scored.len() == cands.len(),
        forall|i: int|
            0 <= i < scored.len() ==> ((#[trigger] scored[i]).doc_id@, scored[i].chunk_id@)
                == split_key_spec(cands[i].key@),
        forall|i: int| 0 <= i < r.len() ==> scored.contains(#[trigger] r[i]),
    ensures
        forall|i: int|
            0 <= i < r.len() ==> sv.records.contains_key(
                (namespace, key_of((#[trigger] r[i]).doc_id@, r[i].chunk_id@)),
            ),
{
    assert forall|i: int| 0 <= i < r.len() implies sv.records.contains_key(
        (namespace, key_of((#[trigger] r[i]).doc_id@, r[i].chunk_id@)),
    ) by {
        let j = choose|j: int| 0 <= j < scored.len() && scored[j] == r[i];
        lemma_key_of_split(cands[j].key@);
        assert(key_of(r[i].doc_id@, r[i].chunk_id@) == cands[j].key@);
    }
}

/// Document deletion is atomic over the namespace: after `delete_doc`, no
/// chunk key built from the document id remains in the namespace, and every
/// record of another document — one whose key splits to a different
/// document id — or of another namespace is untouched. Holds for document
/// ids free of the reserved separator; ids containing it are out of
/// contract.
pub proof fn lemma_delete_doc_atomic(
    pre: StoreView,
    post: StoreView,
    namespace: Seq<char>,
    doc_id: Seq<char>,
)
    requires
        !has_separator(doc_id),
        post.records == pre.records.remove_keys(deleted_keys(namespace, doc_id)),
    ensures
        forall|chunk_id: Seq<char>|
            !post.records.contains_key((namespace, #[trigger] key_of(doc_id, chunk_id))),
        forall|p: (Seq<char>, Seq<char>)|
            #[trigger] pre.records.contains_key(p) && (p.0 != namespace || crate::key::split_key_spec(
                p.1,
            ).0 != doc_id) ==> post.records.contains_key(p) && post.records[p] == pre.records[p],
{
    assert forall|chunk_id: Seq<char>|
        !post.records.contains_key((namespace, #[trigger] key_of(doc_id, chunk_id))) by {
        let key = key_of(doc_id, chunk_id);
        assert(is_seq_prefix(doc_prefix(doc_id), key)) by {
            assert(key.take(doc_prefix(doc_id).len() as int) =~= doc_prefix(doc_id));
        }
        assert(deleted_keys(namespace, doc_id).contains((namespace, key)));
    }
    assert forall|p: (Seq<char>, Seq<char>)|
        #[trigger] pre.records.contains_key(p) && (p.0 != namespace
            || crate::key::split_key_spec(p.1).0 != doc_id) implies post.records.contains_key(p)
        && post.records[p] == pre.records[p] by {
        if p.0 == namespace && is_seq_prefix(doc_prefix(doc_id), p.1) {
            let key = p.1;
            let dlen = doc_id.len() as int;
            assert forall|j: int| 0 <= j < dlen implies key[j] != KEY_SEPARATOR by {
                assert(key.take(dlen + 1)[j] == key[j]);
                assert(doc_prefix(doc_id)[j] == doc_id[j]);
                assert(doc_id[j] != KEY_SEPARATOR);
            }
            assert(key[dlen] == KEY_SEPARATOR) by {
                assert(key.take(dlen + 1)[dlen] == key[dlen]);
                assert(doc_prefix(doc_id)[dlen] == KEY_SEPARATOR);
            }
            crate::key::lemma_split_at_first(key, dlen);
            assert(key.take(dlen) =~= doc_id) by {
                assert(forall|j: int|
                    0 <= j < dlen ==> key.take(dlen + 1)[j] == key[j] && doc_prefix(doc_id)[j]
                        == doc_id[j]);
            }
            assert(false);
        }
        assert(!deleted_keys(namespace, doc_id).contains(p));
    }
}

}
