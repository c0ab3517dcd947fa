use vstd::prelude::*;
use crate::key::{key_of, has_separator, split_chunk_key, lemma_key_of_split,
    lemma_split_doc_separator_free};
use crate::store::{VectorStore, StoreView, entry_well_formed};

verus! {

/// One persisted record: a single chunk of a single document, written as
/// one line of the store file. Loaded vectors are normalized by the caller
/// exactly as inserted ones are, so unnormalized rows self-heal on reload.
pub struct Row {
    pub namespace: String,
    pub doc_id: String,
    pub chunk_id: String,
    pub embedding: Vec<u32>,
    pub meta: serde_json::Value,
}

/// The (namespace, chunk key) a row stands for.
pub open spec fn row_key(r: Row) -> (Seq<char>, Seq<char>) {
    (r.namespace@, key_of(r.doc_id@, r.chunk_id@))
}

/// Whether a sequence of rows carries exactly a store's records, each
/// chunk once, with the latched vector length and separator-free document
/// ids.
pub open spec fn rows_represent(rows: Seq<Row>, sv: StoreView) -> bool {
    &&& forall|i: int|
        0 <= i < rows.len() ==> sv.records.contains_key(row_key(#[trigger] rows[i]))
            && sv.records[row_key(rows[i])] == (rows[i].embedding@, rows[i].meta)
    &&& forall|i: int, j: int|
        0 <= i < j < rows.len() ==> row_key(#[trigger] rows[i]) != row_key(#[trigger] rows[j])
    &&& forall|p: (Seq<char>, Seq<char>)|
        sv.records.contains_key(p) ==> exists|i: int|
            0 <= i < rows.len() && row_key(#[trigger] rows[i]) == p
    &&& rows.len() > 0 ==> sv.dims.is_some()
    &&& forall|i: int|
        0 <= i < rows.len() ==> (#[trigger] rows[i]).embedding@.len() == sv.dims.unwrap()
    &&& forall|i: int| 0 <= i < rows.len() ==> !has_separator((#[trigger] rows[i]).doc_id@)
}

/// The records a load builds from rows whose vector length matches the
/// one the first row latched; a later row under the same key overwrites an
/// earlier one.
pub open spec fn load_map(rows: Seq<Row>, target: nat) -> Map<
    (Seq<char>, Seq<char>),
    (Seq<u32>, serde_json::Value),
>
    decreases rows.len(),
{
    if rows.len() == 0 {
        Map::empty()
    } else if rows.last().embedding@.len() == target {
        load_map(rows.drop_last(), target).insert(
            row_key(rows.last()),
            (rows.last().embedding@, rows.last().meta),
        )
    } else {
        load_map(rows.drop_last(), target)
    }
}

/// How many rows a load skips for carrying a vector of the wrong length.
pub open spec fn count_skipped(rows: Seq<Row>, target: nat) -> int
    decreases rows.len(),
{
    if rows.len() == 0 {
        0
    } else if rows.last().embedding@.len() == target {
        count_skipped(rows.drop_last(), target)
    } else {
        count_skipped(rows.drop_last(), target) + 1
    }
}

/// Decompose a store into persisted rows, one per chunk, splitting each
/// chunk key back into its document id and chunk id.
#[verifier::loop_isolation(false)]
pub fn to_rows(store: &VectorStore) -> (rows: Vec<Row>)
    requires
        store.wf(),
    ensures
        rows_represent(rows@, store@),
{
    let entries = store.snapshot_entries();
    let n = entries.len();
    let mut rows: Vec<Row> = Vec::new();
    let mut i: usize = 0;
    while i < n
        invariant
            i <= n,
            rows@.len() == i,
            forall|c: int|
                0 <= c < i ==> ((#[trigger] rows@[c]).namespace@ == entries@[c].namespace@
                    && key_of(rows@[c].doc_id@, rows@[c].chunk_id@) == entries@[c].key@
                    && rows@[c].embedding@ == entries@[c].vector@ && rows@[c].meta
                    == entries@[c].meta && !has_separator(rows@[c].doc_id@)),
        decreases n - i,
    {
        let e = &entries[i];
        let (doc_id, chunk_id) = split_chunk_key(e.key.as_str());
        proof {
            assert(entry_well_formed(entries@[i as int], store@.dims));
            lemma_key_of_split(e.key@);
            lemma_split_doc_separator_free(e.key@);
        }
        let row = Row {
            namespace: e.namespace.clone(),
            doc_id,
            chunk_id,
            embedding: crate::store::copy_bits(&e.vector),
            meta: e.meta.clone(),
        };
        rows.push(row);
        i = i + 1;
    }
    proof {
        assert forall|c: int| 0 <= c < rows@.len() implies store@.records.contains_key(
            row_key(#[trigger] rows@[c]),
        ) && store@.records[row_key(rows@[c])] == (rows@[c].embedding@, rows@[c].meta) by {
            assert(row_key(rows@[c]) == (entries@[c].namespace@, entries@[c].key@));
        }
        assert forall|c: int, d: int| 0 <= c < d < rows@.len() implies row_key(
            #[trigger] rows@[c],
        ) != row_key(#[trigger] rows@[d]) by {
            assert(!(entries@[c].namespace@ == entries@[d].namespace@ && entries@[c].key@
                == entries@[d].key@));
        }
        assert forall|p: (Seq<char>, Seq<char>)|
            store@.records.contains_key(p) implies exists|i0: int|
            0 <= i0 < rows@.len() && row_key(#[trigger] rows@[i0]) == p by {
            let j = choose|j: int|
                0 <= j < entries@.len() && ((#[trigger] entries@[j]).namespace@, entries@[j].key@)
                    == p;
            assert(row_key(rows@[j]) == p);
        }
        if rows@.len() > 0 {
            assert(entry_well_formed(entries@[0], store@.dims));
        }
        assert forall|c: int| 0 <= c < rows@.len() implies (
        #[trigger] rows@[c]).embedding@.len() == store@.dims.unwrap() by {
            assert(entry_well_formed(entries@[c], store@.dims));
        }
    }
    rows
}

/// Build a fresh store from persisted rows. The first row latches the
/// dimensionality; any later row with a vector of a different length is
/// skipped and counted rather than aborting the load. No rows give the
/// empty store with no dimensionality latched, so a missing store file
/// simply starts empty.
#[verifier::loop_isolation(false)]
pub fn load_rows(rows: Vec<Row>) -> (r: (VectorStore, usize))
    ensures
        r.0.wf(),
        rows@.len() == 0 ==> r.0@.records == Map::<
            (Seq<char>, Seq<char>),
            (Seq<u32>, serde_json::Value),
        >::empty() && r.0@.dims.is_none() && r.1 == 0,
        rows@.len() > 0 ==> {
            &&& r.0@.dims.is_some()
            &&& r.0@.dims.unwrap() == rows@[0].embedding@.len()
            &&& r.0@.records == load_map(rows@, rows@[0].embedding@.len())
            &&& r.1 == count_skipped(rows@, rows@[0].embedding@.len())
        },
{
    let ghost orig = rows@;
    let mut store = VectorStore::new();
    let mut skipped: usize = 0;
    let mut input = rows;
    let total = input.len();
    let ghost mut processed: int = 0;
    proof {
        assert(orig.take(0) =~= Seq::<Row>::empty());
    }
    while input.len() > 0
        invariant
            0 <= processed <= orig.len(),
            input@ =~= orig.skip(processed),
            processed + input@.len() == total,
            store.wf(),
            skipped <= processed,
            processed == 0 ==> store@.records == Map::<
                (Seq<char>, Seq<char>),
                (Seq<u32>, serde_json::Value),
            >::empty() && store@.dims.is_none() && skipped == 0,
            processed > 0 ==> {
                &&& store@.dims.is_some()
                &&& store@.dims.unwrap() == orig[0].embedding@.len()
                &&& store@.records == load_map(
                    orig.take(processed),
                    orig[0].embedding@.len(),
                )
                &&& skipped == count_skipped(orig.take(processed), orig[0].embedding@.len())
            },
        decreases input@.len(),
    {
        let row = input.remove(0);
        proof {
            assert(row == orig[processed]) by {
                assert(orig.skip(processed)[0] == orig[processed]);
            }
            assert(input@ =~= orig.skip(processed + 1)) by {
                assert(orig.skip(processed).drop_first() =~= orig.skip(processed + 1));
            }
            assert(orig.take(processed + 1).drop_last() =~= orig.take(processed));
            assert(orig.take(processed + 1).last() == row);
        }
        let keep = match store.dims() {
            None => true,
            Some(d) => d == row.embedding.len(),
        };
        if keep {
            let outcome = store.upsert(
                row.namespace.as_str(),
                row.doc_id.as_str(),
                row.chunk_id.as_str(),
                row.embedding,
                row.meta,
            );
            match outcome {
                Ok(()) => {},
                Err(_) => {
                    proof {
                        assert(false);
                    }
                },
            }
            proof {
                let t = orig[0].embedding@.len();
                assert(row.embedding@.len() == t || processed == 0);
                assert(load_map(orig.take(processed + 1), t) == load_map(
                    orig.take(processed),
                    t,
                ).insert(row_key(row), (row.embedding@, row.meta)));
                assert(count_skipped(orig.take(processed + 1), t) == count_skipped(
                    orig.take(processed),
                    t,
                ));
            }
        } else {
            skipped = skipped + 1;
            proof {
                let t = orig[0].embedding@.len();
                assert(row.embedding@.len() != t);
                assert(load_map(orig.take(processed + 1), t) == load_map(orig.take(processed), t));
                assert(count_skipped(orig.take(processed + 1), t) == count_skipped(
                    orig.take(processed),
                    t,
                ) + 1);
            }
        }
        proof {
            processed = processed + 1;
        }
    }
    proof {
        assert(orig.take(processed) =~= orig);
    }
    (store, skipped)
}

/// The load of rows that carry exactly a store's records, all with the
/// latched length, rebuilds exactly those records: the record-level
/// persistence round trip. The store's saved form loads back with nothing
/// skipped.
pub proof fn lemma_round_trip(rows: Seq<Row>, sv: StoreView)
    requires
        rows_represent(rows, sv),
        sv.dims.is_none() <==> sv.records.len() == 0,
        sv.records.dom().finite(),
    ensures
        rows.len() == 0 ==> sv.records =~= Map::<
            (Seq<char>, Seq<char>),
            (Seq<u32>, serde_json::Value),
        >::empty(),
        rows.len() > 0 ==> {
            &&& rows[0].embedding@.len() == sv.dims.unwrap()
            &&& load_map(rows, sv.dims.unwrap() as nat) == sv.records
            &&& count_skipped(rows, sv.dims.unwrap() as nat) == 0
        },
{
    if rows.len() == 0 {
        assert forall|p: (Seq<char>, Seq<char>)| !sv.records.contains_key(p) by {
            if sv.records.contains_key(p) {
                let i = choose|i: int| 0 <= i < rows.len() && row_key(#[trigger] rows[i]) == p;
                assert(false);
            }
        }
        assert(sv.records.dom() =~= Set::<(Seq<char>, Seq<char>)>::empty());
        assert(sv.records =~= Map::<
            (Seq<char>, Seq<char>),
            (Seq<u32>, serde_json::Value),
        >::empty());
    } else {
        let target = sv.dims.unwrap() as nat;
        lemma_count_skipped_none(rows, target);
        lemma_load_map_exact(rows, sv.records, target);
    }
}

/// Rows all of the target length skip nothing.
proof fn lemma_count_skipped_none(rows: Seq<Row>, target: nat)
    requires
        forall|i: int| 0 <= i < rows.len() ==> (#[trigger] rows[i]).embedding@.len() == target,
    ensures
        count_skipped(rows, target) == 0,
    decreases rows.len(),
{
    if rows.len() > 0 {
        assert(forall|i: int|
            0 <= i < rows.drop_last().len() ==> (#[trigger] rows.drop_last()[i]).embedding@.len()
                == target);
        lemma_count_skipped_none(rows.drop_last(), target);
    }
}

/// Loading rows that stand for a map in one-to-one fashion rebuilds that
/// map exactly.
proof fn lemma_load_map_exact(
    rows: Seq<Row>,
    m: Map<(Seq<char>, Seq<char>), (Seq<u32>, serde_json::Value)>,
    target: nat,
)
    requires
        forall|i: int|
            0 <= i < rows.len() ==> m.contains_key(row_key(#[trigger] rows[i]))
                && m[row_key(rows[i])] == (rows[i].embedding@, rows[i].meta),
        forall|i: int, j: int|
            0 <= i < j < rows.len() ==> row_key(#[trigger] rows[i]) != row_key(#[trigger] rows[j]),
        forall|p: (Seq<char>, Seq<char>)|
            m.contains_key(p) ==> exists|i: int| 0 <= i < rows.len() && row_key(#[trigger] rows[i]) == p,
        forall|i: int| 0 <= i < rows.len() ==> (#[trigger] rows[i]).embedding@.len() == target,
    ensures
        load_map(rows, target) == m,
    decreases rows.len(),
{
    if rows.len() == 0 {
        assert forall|p: (Seq<char>, Seq<char>)| !m.contains_key(p) by {
            if m.contains_key(p) {
                let i = choose|i: int| 0 <= i < rows.len() && row_key(#[trigger] rows[i]) == p;
            }
        }
        assert(load_map(rows, target) =~= m);
    } else {
        let last = rows.last();
        let k = row_key(last);
        let rest = rows.drop_last();
        let m2 = m.remove(k);
        assert forall|i: int|
            0 <= i < rest.len() implies m2.contains_key(row_key(#[trigger] rest[i]))
            && m2[row_key(rest[i])] == (rest[i].embedding@, rest[i].meta) by {
            assert(rest[i] == rows[i]);
            assert(row_key(rows[i]) != k);
        }
        assert forall|p: (Seq<char>, Seq<char>)|
            m2.contains_key(p) implies exists|i: int|
            0 <= i < rest.len() && row_key(#[trigger] rest[i]) == p by {
            let i = choose|i: int| 0 <= i < rows.len() && row_key(#[trigger] rows[i]) == p;
            assert(p != k);
            assert(i < rows.len() - 1);
            assert(row_key(rest[i]) == p);
        }
        assert(forall|i: int|
            0 <= i < rest.len() ==> (#[trigger] rest[i]).embedding@.len() == target);
        lemma_load_map_exact(rest, m2, target);
        assert(load_map(rows, target) == load_map(rest, target).insert(
            k,
            (last.embedding@, last.meta),
        ));
        assert(m2.insert(k, (last.embedding@, last.meta)) =~= m);
    }
}

}
