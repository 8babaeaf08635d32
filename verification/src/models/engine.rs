use vstd::prelude::*;
use std::collections::HashMap;
use vstd::std_specs::iter::IteratorSpec;
use crate::models::document::encodable;
use crate::models::document::lemma_records_push;
use crate::models::document::lemma_state_round_trip;
use crate::models::document::models_of;
use crate::models::document::parse_state;
use crate::models::document::put_record;
use crate::models::document::records_bytes;
use crate::models::document::state_bytes;
use crate::models::document::Document;
use crate::models::document::DocumentModel;
use crate::models::document::EngineState;
use crate::models::document::FORMAT_VERSION;
use crate::models::errors::dimension_message;
use crate::models::errors::not_found_message;
use crate::models::errors::ErrorKind;
use crate::models::errors::VectorEngineError;
use crate::models::search_cache::after_get;
use crate::models::search_cache::after_put;
use crate::models::search_cache::holds;
use crate::models::search_cache::lemma_after_get;
use crate::models::search_cache::lemma_after_put;
use crate::models::search_cache::slot;
use crate::models::search_cache::CacheStats;
use crate::models::search_cache::Entry;
use crate::models::search_cache::SearchCache;
use crate::ranking::ascending;
use crate::ranking::lemma_top_ranked;
use crate::ranking::rank;
use crate::ranking::top_ranked;
use crate::ranking::Scored;
use crate::utils::hash_vector;

verus! {

broadcast use vstd::std_specs::hash::group_hash_axioms;

/// The number of queries a new engine's cache holds.
pub const CACHE_CAPACITY: usize = 100;

/// Results are in ascending order of distance and name only identifiers in
/// `ids`.
pub open spec fn consistent(results: Seq<Scored>, ids: Set<u64>) -> bool {
    &&& ascending(results)
    &&& forall|j: int| 0 <= j < results.len() ==> ids.contains(#[trigger] results[j].0)
}

/// `listing` holds each entry of `docs` exactly once, in some order.
pub open spec fn lists(listing: Seq<DocumentModel>, docs: Map<u64, Seq<u32>>) -> bool {
    &&& listing.len() == docs.dom().len()
    &&& forall|i: int, j: int|
        0 <= i < j < listing.len() ==> (#[trigger] listing[i]).0 != (#[trigger] listing[j]).0
    &&& forall|i: int|
        0 <= i < listing.len() ==> docs.contains_key((#[trigger] listing[i]).0)
            && docs[listing[i].0] == listing[i].1
    &&& forall|id: u64| #[trigger]
        docs.contains_key(id) ==> exists|i: int|
            0 <= i < listing.len() && (#[trigger] listing[i]).0 == id
}

/// The map that a sequence of documents fills, one after another: of two
/// documents with one identifier the later stays.
pub open spec fn map_of(docs: Seq<DocumentModel>) -> Map<u64, Seq<u32>>
    decreases docs.len(),
{
    if docs.len() == 0 {
        Map::empty()
    } else {
        map_of(docs.drop_last()).insert(docs.last().0, docs.last().1)
    }
}

/// Every document's vector has `dimension` components.
pub open spec fn all_of_dimension(docs: Seq<DocumentModel>, dimension: nat) -> bool {
    forall|i: int| 0 <= i < docs.len() ==> (#[trigger] docs[i]).1.len() == dimension
}

/// `bytes` is a checkpoint that an engine of the given dimension accepts: it
/// decodes, has the current format version, and all its vectors have that
/// dimension.
pub open spec fn loadable(bytes: Seq<u8>, dimension: nat) -> bool {
    match parse_state(bytes) {
        Some(state) => state.0 == FORMAT_VERSION && all_of_dimension(state.1, dimension),
        None => false,
    }
}

/// The document map that a loadable checkpoint holds.
pub open spec fn loaded_documents(bytes: Seq<u8>) -> Map<u64, Seq<u32>> {
    map_of(parse_state(bytes).unwrap().1)
}

/// What a search found in the query cache.
#[derive(Debug)]
pub enum SearchStep {
    /// The query was cached: these are its results.
    Hit { key: u64, results: Vec<Scored> },
    /// The query was not cached: the nearest-neighbour index is to be asked,
    /// and its candidates handed to `complete_search` under this key.
    Miss { key: u64 },
}

impl SearchStep {
    /// The fingerprint under which the query was looked up.
    pub open spec fn spec_key(&self) -> u64 {
        match self {
            SearchStep::Hit { key, .. } => *key,
            SearchStep::Miss { key } => *key,
        }
    }

    /// The fingerprint under which the query was looked up.
    #[verifier::when_used_as_spec(spec_key)]
    pub fn key(&self) -> (r: u64)
        ensures
            r == self.spec_key(),
    {
        match self {
            SearchStep::Hit { key, .. } => *key,
            SearchStep::Miss { key } => *key,
        }
    }
}

/// The engine coordinator: the authoritative document map and the query
/// cache derived from it. The nearest-neighbour index works on
/// floating-point vectors and is kept by the caller, who rebuilds it from
/// `index_points` after every mutation and hands it to `search` as a
/// function from a number of candidates to the candidates.
pub struct VectorEngine {
    query_cache: SearchCache,
    dimension: usize,
    documents: HashMap<u64, Vec<u32>>,
}

impl VectorEngine {
    /// The stored vectors by identifier.
    pub closed spec fn stored(&self) -> Map<u64, Vec<u32>> {
        self.documents@
    }

    /// The document map as values.
    pub open spec fn docs(&self) -> Map<u64, Seq<u32>> {
        self.stored().map_values(|v: Vec<u32>| v@)
    }

    /// The number of components of every vector.
    pub closed spec fn dim(&self) -> usize {
        self.dimension
    }

    /// The cached queries from most to least recently used.
    pub closed spec fn cached(&self) -> Seq<Entry> {
        self.query_cache.entries()
    }

    /// The number of queries the cache holds at most.
    pub closed spec fn cache_capacity(&self) -> nat {
        self.query_cache.capacity()
    }

    /// The cache's hit and miss counters.
    pub closed spec fn stats(&self) -> CacheStats {
        self.query_cache.counters()
    }

    /// The cache is well-formed.
    pub closed spec fn cache_wf(&self) -> bool {
        self.query_cache.wf()
    }

    /// The engine's invariant: every stored vector has the engine's
    /// dimension, and every cached result list is ascending and names only
    /// stored documents.
    pub open spec fn wf(&self) -> bool {
        &&& self.cache_wf()
        &&& self.docs().dom().finite()
        &&& forall|id: u64| #[trigger]
            self.docs().contains_key(id) ==> self.docs()[id].len() == self.dim()
        &&& forall|i: int|
            0 <= i < self.cached().len() ==> consistent(
                (#[trigger] self.cached()[i]).1,
                self.docs().dom(),
            )
    }

    /// `post` is `pre` after a cache lookup of `key` that gave `step`: the
    /// documents are untouched, a hit returns the cached results, promotes
    /// them and is counted, a miss is counted.
    pub open spec fn looked_up(
        pre: &VectorEngine,
        post: &VectorEngine,
        key: u64,
        step: SearchStep,
    ) -> bool {
        &&& post.stored() == pre.stored()
        &&& post.dim() == pre.dim()
        &&& post.cache_capacity() == pre.cache_capacity()
        &&& post.cached() == after_get(pre.cached(), key)
        &&& match step {
            SearchStep::Hit { key: k, results } => {
                &&& k == key
                &&& holds(pre.cached(), key)
                &&& results@ == pre.cached()[slot(pre.cached(), key)].1
                &&& consistent(results@, pre.docs().dom())
                &&& post.stats().hits == pre.stats().hits + 1
                &&& post.stats().misses == pre.stats().misses
            },
            SearchStep::Miss { key: k } => {
                &&& k == key
                &&& !holds(pre.cached(), key)
                &&& post.stats().hits == pre.stats().hits
                &&& post.stats().misses == pre.stats().misses + 1
            },
        }
    }

    /// `post` is `pre` after a search under `key` that missed the cache,
    /// was given `candidates` by the index and returned `results`: the
    /// documents are untouched, the miss is counted, and the results are the
    /// ranked candidates, cached under `key` as the most recently used entry.
    pub open spec fn missed(
        pre: &VectorEngine,
        post: &VectorEngine,
        key: u64,
        top_k: usize,
        candidates: Vec<Scored>,
        results: Vec<Scored>,
    ) -> bool {
        &&& !holds(pre.cached(), key)
        &&& post.stored() == pre.stored()
        &&& post.dim() == pre.dim()
        &&& post.cache_capacity() == pre.cache_capacity()
        &&& post.stats().hits == pre.stats().hits
        &&& post.stats().misses == pre.stats().misses + 1
        &&& results@ == top_ranked(candidates@, pre.docs().dom(), top_k as nat)
        &&& results.len() <= top_k
        &&& post.cached() == after_put(pre.cached(), pre.cache_capacity(), key, results@)
    }

    /// `post` is `pre` after a search under `key` that returned `results`:
    /// either the cache held the key, or the index returned `candidates` and
    /// these were ranked and cached.
    pub open spec fn searched(
        pre: &VectorEngine,
        post: &VectorEngine,
        key: u64,
        top_k: usize,
        candidates: Vec<Scored>,
        results: Vec<Scored>,
    ) -> bool {
        if holds(pre.cached(), key) {
            Self::looked_up(pre, post, key, SearchStep::Hit { key, results })
        } else {
            Self::missed(pre, post, key, top_k, candidates, results)
        }
    }

    /// An empty engine of the given dimension.
    pub fn new(dimension: usize) -> (r: VectorEngine)
        ensures
            r.wf(),
            r.dim() == dimension,
            r.docs() == Map::<u64, Seq<u32>>::empty(),
            r.cached() == Seq::<Entry>::empty(),
            r.cache_capacity() == CACHE_CAPACITY,
            r.stats().hits == 0,
            r.stats().misses == 0,
    {
        let r = VectorEngine {
            dimension,
            query_cache: SearchCache::new(CACHE_CAPACITY),
            documents: HashMap::new(),
        };
        proof {
            assert(r.docs() =~= Map::<u64, Seq<u32>>::empty());
        }
        r
    }

    /// The number of cached queries.
    pub fn query_cache_len(&self) -> (r: usize)
        ensures
            r == self.cached().len(),
    {
        self.query_cache.len()
    }

    /// The cache's hit and miss counters.
    pub fn query_cache_stats(&self) -> (r: &CacheStats)
        ensures
            *r == self.stats(),
    {
        self.query_cache.stats()
    }

    /// The number of stored documents.
    pub fn document_count(&self) -> (r: usize)
        ensures
            r == self.docs().dom().len(),
    {
        proof {
            assert(self.docs().dom() =~= self.stored().dom());
        }
        self.documents.len()
    }

    /// The number of components of every vector.
    pub fn dimension(&self) -> (r: usize)
        ensures
            r == self.dim(),
    {
        self.dimension
    }

    /// The document map.
    pub fn documents(&self) -> (r: &HashMap<u64, Vec<u32>>)
        ensures
            r@ == self.stored(),
    {
        &self.documents
    }

    /// Every stored document once, in no particular order: the points from
    /// which the nearest-neighbour index is rebuilt.
    pub fn index_points(&self) -> (r: Vec<Document>)
        ensures
            lists(models_of(r@), self.docs()),
            r.len() == self.docs().dom().len(),
    {
        let mut out: Vec<Document> = Vec::new();
        let ghost all: Seq<u64> = self.documents.keys().remaining().unref();
        proof {
            assert(self.docs().dom() =~= self.stored().dom());
        }
        for k in it: self.documents.keys()
            invariant
                it.seq().unref() == all,
                all.to_set() == self.documents@.dom(),
                out.len() == it.index(),
                forall|j: int|
                    0 <= j < out.len() ==> (#[trigger] out[j]).id == all[j]
                        && self.documents@.contains_key(all[j]) && out[j].vector@
                        == self.documents@[all[j]]@,
        {
            assert(all[it.index()] == *k);
            assert(all.to_set().contains(*k));
            match self.documents.get(k) {
                Some(v) => {
                    out.push(Document { id: *k, vector: copy_words(v) });
                },
                None => {
                    assert(false);
                },
            }
        }
        proof {
            let listing = models_of(out@);
            assert forall|id: u64| #[trigger] self.docs().contains_key(id) implies exists|i: int|
                0 <= i < listing.len() && (#[trigger] listing[i]).0 == id by {
                assert(all.to_set().contains(id));
                let i = choose|i: int| 0 <= i < all.len() && all[i] == id;
                assert(listing[i].0 == id);
            }
            assert forall|i: int, j: int| 0 <= i < j < listing.len() implies (
            #[trigger] listing[i]).0 != (#[trigger] listing[j]).0 by {
                assert(all[i] != all[j]);
            }
        }
        out
    }

    /// Stores `vector` under `id`, replacing what was stored there, and
    /// empties the query cache. A vector of the wrong length is refused and
    /// the engine is left as it was.
    pub fn add_document(&mut self, id: u64, vector: Vec<u32>) -> (r: Result<(), VectorEngineError>)
        requires
            old(self).wf(),
        ensures
            final(self).wf(),
            final(self).dim() == old(self).dim(),
            final(self).cache_capacity() == old(self).cache_capacity(),
            match r {
                Ok(_) => {
                    &&& vector.len() == old(self).dim()
                    &&& final(self).docs() == old(self).docs().insert(id, vector@)
                    &&& final(self).cached() == Seq::<Entry>::empty()
                    &&& final(self).stats().hits == 0
                    &&& final(self).stats().misses == 0
                },
                Err(e) => {
                    &&& vector.len() != old(self).dim()
                    &&& e.kind() == ErrorKind::DimensionMismatch
                    &&& *final(self) == *old(self)
                },
            },
    {
        if self.dimension != vector.len() {
            return Err(
                VectorEngineError::DimensionMismatch(
                    dimension_message(vector.len(), self.dimension),
                ),
            );
        }
        let ghost before = self.docs();
        let ghost words = vector@;
        self.documents.insert(id, vector);
        self.query_cache.clear();
        proof {
            assert(self.docs() =~= before.insert(id, words));
        }
        Ok(())
    }

    /// Replaces the vector stored under `id` and empties the query cache. A
    /// vector of the wrong length, or an unknown identifier, is refused and
    /// the engine is left as it was.
    pub fn update_document(&mut self, id: &u64, new_vector: Vec<u32>) -> (r: Result<
        (),
        VectorEngineError,
    >)
        requires
            old(self).wf(),
        ensures
            final(self).wf(),
            final(self).dim() == old(self).dim(),
            final(self).cache_capacity() == old(self).cache_capacity(),
            match r {
                Ok(_) => {
                    &&& new_vector.len() == old(self).dim()
                    &&& old(self).docs().contains_key(*id)
                    &&& final(self).docs() == old(self).docs().insert(*id, new_vector@)
                    &&& final(self).cached() == Seq::<Entry>::empty()
                    &&& final(self).stats().hits == 0
                    &&& final(self).stats().misses == 0
                },
                Err(e) => {
                    &&& *final(self) == *old(self)
                    &&& if new_vector.len() != old(self).dim() {
                        e.kind() == ErrorKind::DimensionMismatch
                    } else {
                        !old(self).docs().contains_key(*id) && e.kind() == ErrorKind::ItemNotFound
                    }
                },
            },
    {
        if self.dimension != new_vector.len() {
            return Err(
                VectorEngineError::DimensionMismatch(
                    dimension_message(new_vector.len(), self.dimension),
                ),
            );
        }
        if !self.documents.contains_key(id) {
            return Err(VectorEngineError::ItemNotFound(not_found_message(*id)));
        }
        let ghost before = self.docs();
        let ghost words = new_vector@;
        self.documents.insert(*id, new_vector);
        self.query_cache.clear();
        proof {
            assert(self.docs() =~= before.insert(*id, words));
        }
        Ok(())
    }

    /// Removes the document stored under `id` and empties the query cache. An
    /// unknown identifier is refused and the engine is left as it was.
    pub fn delete_document(&mut self, id: &u64) -> (r: Result<(), VectorEngineError>)
        requires
            old(self).wf(),
        ensures
            final(self).wf(),
            final(self).dim() == old(self).dim(),
            final(self).cache_capacity() == old(self).cache_capacity(),
            match r {
                Ok(_) => {
                    &&& old(self).docs().contains_key(*id)
                    &&& final(self).docs() == old(self).docs().remove(*id)
                    &&& final(self).cached() == Seq::<Entry>::empty()
                    &&& final(self).stats().hits == 0
                    &&& final(self).stats().misses == 0
                },
                Err(e) => {
                    &&& !old(self).docs().contains_key(*id)
                    &&& e.kind() == ErrorKind::ItemNotFound
                    &&& *final(self) == *old(self)
                },
            },
    {
        if !self.documents.contains_key(id) {
            return Err(VectorEngineError::ItemNotFound(not_found_message(*id)));
        }
        let ghost before = self.docs();
        self.documents.remove(id);
        self.query_cache.clear();
        proof {
            assert(self.docs() =~= before.remove(*id));
        }
        Ok(())
    }

    /// Looks a query up in the cache by its fingerprint.
    pub fn lookup(&mut self, key: u64) -> (step: SearchStep)
        requires
            old(self).wf(),
            old(self).stats().hits < u64::MAX,
            old(self).stats().misses < u64::MAX,
        ensures
            final(self).wf(),
            Self::looked_up(old(self), final(self), key, step),
    {
        proof {
            lemma_after_get(self.cached(), key);
            if holds(self.cached(), key) {
                let s = slot(self.cached(), key);
                assert(0 <= s < self.cached().len() && self.cached()[s].0 == key);
            }
        }
        let ghost before = self.cached();
        let found = self.query_cache.get(&key);
        proof {
            assert forall|i: int| 0 <= i < self.cached().len() implies consistent(
                (#[trigger] self.cached()[i]).1,
                self.docs().dom(),
            ) by {
                assert(before.contains(self.cached()[i]));
            }
        }
        match found {
            Some(results) => SearchStep::Hit { key, results },
            None => SearchStep::Miss { key },
        }
    }

    /// The first step of a search, for callers that ask the index themselves:
    /// checks the query's length, fingerprints it and looks it up in the
    /// cache. The fingerprint is whatever the hasher gave; the step returned
    /// carries it.
    pub fn begin_search(&mut self, query_vector: &Vec<u32>) -> (r: Result<
        SearchStep,
        VectorEngineError,
    >)
        requires
            old(self).wf(),
            old(self).stats().hits < u64::MAX,
            old(self).stats().misses < u64::MAX,
        ensures
            final(self).wf(),
            match r {
                Ok(step) => {
                    &&& query_vector.len() == old(self).dim()
                    &&& Self::looked_up(old(self), final(self), step.key(), step)
                },
                Err(e) => {
                    &&& query_vector.len() != old(self).dim()
                    &&& e.kind() == ErrorKind::DimensionMismatch
                    &&& *final(self) == *old(self)
                },
            },
    {
        if self.dimension != query_vector.len() {
            return Err(
                VectorEngineError::DimensionMismatch(
                    dimension_message(query_vector.len(), self.dimension),
                ),
            );
        }
        let hash_id: u64 = hash_vector(query_vector);
        Ok(self.lookup(hash_id))
    }

    /// Searches for the `top_k` nearest documents. A query of the wrong length
    /// is refused. A query that is cached is answered from the cache.
    /// Otherwise `index` is asked for up to `top_k` candidates, each an
    /// identifier with its distance to the query, which are ranked as
    /// `complete_search` says, cached and returned. The fingerprint under
    /// which the query is cached is whatever the hasher gave.
    pub fn search<F: FnOnce(usize) -> Vec<Scored>>(
        &mut self,
        query_vector: &Vec<u32>,
        top_k: usize,
        index: F,
    ) -> (r: Result<Vec<Scored>, VectorEngineError>)
        requires
            old(self).wf(),
            old(self).stats().hits < u64::MAX,
            old(self).stats().misses < u64::MAX,
            call_requires(index, (top_k,)),
        ensures
            final(self).wf(),
            r is Ok <==> query_vector.len() == old(self).dim(),
            r matches Err(e) ==> {
                &&& e.kind() == ErrorKind::DimensionMismatch
                &&& *final(self) == *old(self)
            },
            r matches Ok(results) ==> {
                &&& consistent(results@, old(self).docs().dom())
                &&& exists|key: u64, candidates: Vec<Scored>|
                    {
                        &&& #[trigger] Self::searched(
                            old(self),
                            final(self),
                            key,
                            top_k,
                            candidates,
                            results,
                        )
                        &&& holds(old(self).cached(), key) || call_ensures(
                            index,
                            (top_k,),
                            candidates,
                        )
                    }
            },
    {
        let ghost mut under: u64 = 0;
        let ghost mut offered: Vec<Scored> = arbitrary();
        let r = match self.begin_search(query_vector) {
            Err(e) => Err(e),
            Ok(SearchStep::Hit { key, results }) => {
                proof {
                    under = key;
                }
                Ok(results)
            },
            Ok(SearchStep::Miss { key }) => {
                let candidates = index(top_k);
                let results = self.complete_search(key, candidates, top_k);
                proof {
                    under = key;
                    offered = candidates;
                }
                Ok(results)
            },
        };
        proof {
            if r is Ok {
                assert(Self::searched(old(self), self, under, top_k, offered, r->Ok_0));
            }
        }
        r
    }

    /// The last step of a search that missed the cache. Of the candidates
    /// that the nearest-neighbour index returned, those that name a stored
    /// document are sorted by ascending distance, equidistant ones in the
    /// order in which they came, and cut to `top_k`; the result is cached
    /// under `key` as the most recently used entry and returned.
    pub fn complete_search(&mut self, key: u64, candidates: Vec<Scored>, top_k: usize) -> (r: Vec<
        Scored,
    >)
        requires
            old(self).wf(),
        ensures
            final(self).wf(),
            final(self).stored() == old(self).stored(),
            final(self).dim() == old(self).dim(),
            final(self).cache_capacity() == old(self).cache_capacity(),
            final(self).stats() == old(self).stats(),
            r@ == top_ranked(candidates@, old(self).docs().dom(), top_k as nat),
            final(self).cached() == after_put(
                old(self).cached(),
                old(self).cache_capacity(),
                key,
                r@,
            ),
            r.len() <= top_k,
            consistent(r@, old(self).docs().dom()),
    {
        let results = rank(&self.documents, candidates, top_k);
        let to_cache = copy_results(&results);
        proof {
            assert(self.docs().dom() =~= self.stored().dom());
            lemma_top_ranked(candidates@, self.docs().dom(), top_k as nat);
            lemma_after_put(self.cached(), self.cache_capacity(), key, results@);
        }
        let ghost before = self.cached();
        self.query_cache.put(key, to_cache);
        proof {
            assert forall|i: int| 0 <= i < self.cached().len() implies consistent(
                (#[trigger] self.cached()[i]).1,
                self.docs().dom(),
            ) by {
                if i > 0 {
                    assert(before.contains(self.cached()[i]));
                }
            }
        }
        results
    }

    /// Encodes the document set as a checkpoint: the format version and one
    /// record for each document, in no particular order. Loading the bytes
    /// into an engine of the same dimension gives the same document map.
    pub fn save_to_bytes(&self) -> (r: Result<Vec<u8>, VectorEngineError>)
        requires
            self.wf(),
        ensures
            r matches Ok(bytes) && {
                &&& exists|listing: Seq<DocumentModel>| #[trigger]
                    lists(listing, self.docs()) && bytes@ == state_bytes(listing)
                &&& loadable(bytes@, self.dim() as nat)
                &&& loaded_documents(bytes@) == self.docs()
            },
    {
        let points = self.index_points();
        let ghost listing = models_of(points@);
        let mut buf: Vec<u8> = Vec::new();
        buf.push(0x08);
        buf.push(0x01);
        let mut i: usize = 0;
        proof {
            assert(buf@ =~= seq![0x08u8, 0x01u8] + records_bytes(listing.take(0)));
        }
        while i < points.len()
            invariant
                i <= points.len(),
                listing == models_of(points@),
                buf@ == seq![0x08u8, 0x01u8] + records_bytes(listing.take(i as int)),
                forall|j: int| 0 <= j < i ==> encodable(#[trigger] listing[j]),
            decreases points.len() - i,
        {
            let ghost before = buf@;
            put_record(&mut buf, points[i].id, &points[i].vector);
            proof {
                assert(listing[i as int] == (points[i as int].id, points[i as int].vector@));
                lemma_records_push(listing.take(i as int), listing[i as int]);
                assert(listing.take(i + 1) =~= listing.take(i as int).push(listing[i as int]));
                assert(buf@ =~= seq![0x08u8, 0x01u8] + records_bytes(listing.take(i + 1)));
            }
            i += 1;
        }
        proof {
            assert(listing.take(points.len() as int) =~= listing);
            lemma_checkpoint_round_trip(listing, self.docs(), self.dim() as nat);
        }
        Ok(buf)
    }

    /// Builds an engine of the given dimension from a checkpoint. The whole
    /// load fails unless the bytes decode, the format version is the current
    /// one and every vector has the given dimension. Of two documents with
    /// one identifier the later stays.
    pub fn load_from_bytes(bytes: &[u8], dimension: usize) -> (r: Result<
        VectorEngine,
        VectorEngineError,
    >)
        ensures
            match r {
                Ok(engine) => {
                    &&& loadable(bytes@, dimension as nat)
                    &&& engine.wf()
                    &&& engine.dim() == dimension
                    &&& engine.docs() == loaded_documents(bytes@)
                    &&& engine.cached() == Seq::<Entry>::empty()
                    &&& engine.cache_capacity() == CACHE_CAPACITY
                    &&& engine.stats().hits == 0
                    &&& engine.stats().misses == 0
                },
                Err(e) => !loadable(bytes@, dimension as nat) && e.kind()
                    == ErrorKind::DeserializationError,
            },
    {
        let state = match EngineState::decode(bytes) {
            None => {
                return Err(
                    VectorEngineError::DeserializationError(
                        "the checkpoint is malformed".to_string(),
                    ),
                );
            },
            Some(state) => state,
        };
        if state.format_version != FORMAT_VERSION {
            return Err(
                VectorEngineError::DeserializationError(
                    "the checkpoint's format version is not supported".to_string(),
                ),
            );
        }
        let ghost listing = models_of(state.documents@);
        let mut engine = VectorEngine::new(dimension);
        let mut documents = state.documents;
        let mut i: usize = 0;
        proof {
            assert(engine.docs() =~= map_of(listing.take(0)));
        }
        while i < documents.len()
            invariant
                i <= documents.len(),
                listing == models_of(documents@),
                parse_state(bytes@) == Some((FORMAT_VERSION, listing)),
                engine.wf(),
                engine.dim() == dimension,
                engine.docs() == map_of(listing.take(i as int)),
                engine.cached() == Seq::<Entry>::empty(),
                engine.cache_capacity() == CACHE_CAPACITY,
                engine.stats().hits == 0,
                engine.stats().misses == 0,
                forall|j: int| 0 <= j < i ==> (#[trigger] listing[j]).1.len() == dimension,
            decreases documents.len() - i,
        {
            if documents[i].vector.len() != dimension {
                proof {
                    assert(listing[i as int].1.len() != dimension);
                }
                return Err(
                    VectorEngineError::DeserializationError(
                        "a stored vector does not have the engine's dimension".to_string(),
                    ),
                );
            }
            let id = documents[i].id;
            let vector = copy_words(&documents[i].vector);
            proof {
                assert(listing.take(i + 1).drop_last() =~= listing.take(i as int));
            }
            engine.store(id, vector);
            i += 1;
        }
        proof {
            assert(listing.take(documents.len() as int) =~= listing);
        }
        Ok(engine)
    }

    /// Stores a vector of the engine's dimension without touching the cache.
    fn store(&mut self, id: u64, vector: Vec<u32>)
        requires
            old(self).wf(),
            old(self).cached().len() == 0,
            vector.len() == old(self).dim(),
        ensures
            final(self).wf(),
            final(self).dim() == old(self).dim(),
            final(self).docs() == old(self).docs().insert(id, vector@),
            final(self).cached() == old(self).cached(),
            final(self).cache_capacity() == old(self).cache_capacity(),
            final(self).stats() == old(self).stats(),
    {
        let ghost before = self.docs();
        let ghost words = vector@;
        self.documents.insert(id, vector);
        proof {
            assert(self.docs() =~= before.insert(id, words));
        }
    }
}

/// A copy of a vector.
fn copy_words(v: &Vec<u32>) -> (r: Vec<u32>)
    ensures
        r@ == v@,
{
    let r = v.clone();
    proof {
        assert(r@ =~= v@);
    }
    r
}

/// A copy of a result list.
fn copy_results(v: &Vec<Scored>) -> (r: Vec<Scored>)
    ensures
        r@ == v@,
{
    let mut out: Vec<Scored> = Vec::new();
    let mut i: usize = 0;
    while i < v.len()
        invariant
            i <= v.len(),
            out@ == v@.take(i as int),
        decreases v.len() - i,
    {
        out.push(v[i]);
        proof {
            assert(v@.take(i + 1) =~= v@.take(i as int).push(v@[i as int]));
        }
        i += 1;
    }
    proof {
        assert(v@.take(v.len() as int) =~= v@);
    }
    out
}

/// The map filled from a sequence has the identifiers of the sequence, each
/// with the vector of its last occurrence.
pub proof fn lemma_map_of(docs: Seq<DocumentModel>)
    ensures
        forall|id: u64| #[trigger]
            map_of(docs).contains_key(id) <==> exists|i: int|
                0 <= i < docs.len() && (#[trigger] docs[i]).0 == id,
        forall|i: int|
            0 <= i < docs.len() && (forall|j: int|
                i < j < docs.len() ==> (#[trigger] docs[j]).0 != docs[i].0) ==> map_of(
                docs,
            )[(#[trigger] docs[i]).0] == docs[i].1,
    decreases docs.len(),
{
    if docs.len() > 0 {
        let front = docs.drop_last();
        let last = docs.last();
        lemma_map_of(front);
        assert forall|id: u64| #[trigger] map_of(docs).contains_key(id) <==> exists|i: int|
            0 <= i < docs.len() && (#[trigger] docs[i]).0 == id by {
            if map_of(docs).contains_key(id) {
                if id == last.0 {
                    assert(docs[docs.len() - 1].0 == id);
                } else {
                    assert(map_of(front).contains_key(id));
                    let i = choose|i: int| 0 <= i < front.len() && (#[trigger] front[i]).0 == id;
                    assert(docs[i].0 == id);
                }
            }
            if exists|i: int| 0 <= i < docs.len() && (#[trigger] docs[i]).0 == id {
                let i = choose|i: int| 0 <= i < docs.len() && (#[trigger] docs[i]).0 == id;
                if i < front.len() {
                    assert(front[i].0 == id);
                    assert(map_of(front).contains_key(id));
                }
            }
        }
        assert forall|i: int|
            0 <= i < docs.len() && (forall|j: int|
                i < j < docs.len() ==> (#[trigger] docs[j]).0 != docs[i].0) implies map_of(
            docs,
        )[(#[trigger] docs[i]).0] == docs[i].1 by {
            if i < front.len() {
                assert(docs[docs.len() - 1].0 != docs[i].0);
                assert(front[i] == docs[i]);
                assert forall|j: int| i < j < front.len() implies (#[trigger] front[j]).0
                    != front[i].0 by {
                    assert(front[j] == docs[j]);
                }
            }
        }
    }
}

/// Filling a map from a listing of `docs` gives `docs` back.
pub proof fn lemma_map_of_listing(listing: Seq<DocumentModel>, docs: Map<u64, Seq<u32>>)
    requires
        lists(listing, docs),
    ensures
        map_of(listing) == docs,
{
    lemma_map_of(listing);
    assert forall|id: u64| map_of(listing).contains_key(id) <==> docs.contains_key(id) by {
        if map_of(listing).contains_key(id) {
            let i = choose|i: int| 0 <= i < listing.len() && (#[trigger] listing[i]).0 == id;
            assert(docs.contains_key(listing[i].0));
        }
    }
    assert forall|id: u64| docs.contains_key(id) implies map_of(listing)[id] == docs[id] by {
        let i = choose|i: int| 0 <= i < listing.len() && (#[trigger] listing[i]).0 == id;
        assert forall|j: int| i < j < listing.len() implies (#[trigger] listing[j]).0
            != listing[i].0 by {}
    }
    assert(map_of(listing) =~= docs);
}

/// A checkpoint written from any listing of a document map whose vectors
/// all have one dimension is accepted by an engine of that dimension, and
/// holds that document map and no other.
pub proof fn lemma_checkpoint_round_trip(
    listing: Seq<DocumentModel>,
    docs: Map<u64, Seq<u32>>,
    dimension: nat,
)
    requires
        lists(listing, docs),
        forall|i: int| 0 <= i < listing.len() ==> encodable(#[trigger] listing[i]),
        forall|id: u64| #[trigger] docs.contains_key(id) ==> docs[id].len() == dimension,
    ensures
        loadable(state_bytes(listing), dimension),
        loaded_documents(state_bytes(listing)) == docs,
        loaded_documents(state_bytes(listing)).dom().len() == docs.dom().len(),
{
    lemma_state_round_trip(listing);
    lemma_map_of_listing(listing, docs);
}

} // verus!
