//! The chunk store and the vector store.
//!
//! [`ChunkStore`] is the source of chunk texts and their metadata: the results
//! of either lane resolve their snippet and heading path from it. [`VectorStore`]
//! holds the embedding of each chunk, with the model and the number of
//! dimensions it was built with, so that a change of model can be detected.
//!
//! A component of a vector is a 32-bit floating point number; here it is held
//! as its bits.

use vstd::prelude::*;

use crate::chunk::{Chunk, ChunkView};
use crate::ordered::StringMap;
use crate::search;
use crate::search::Scored;

verus! {

/// Chunk id to chunk.
pub struct ChunkStore {
    pub chunks: StringMap<Chunk>,
}

impl View for ChunkStore {
    type V = Map<Seq<char>, ChunkView>;

    open spec fn view(&self) -> Map<Seq<char>, ChunkView> {
        self.chunks@
    }
}

impl Default for ChunkStore {
    /// The empty store.
    fn default() -> (r: ChunkStore)
        ensures
            r@ == Map::<Seq<char>, ChunkView>::empty(),
    {
        ChunkStore { chunks: StringMap::new() }
    }
}

impl ChunkStore {
    /// Puts a chunk under its id.
    pub fn insert(&mut self, chunk: Chunk)
        ensures
            final(self)@ == old(self)@.insert(chunk@.id, chunk@),
    {
        self.chunks.insert(chunk.id.clone(), chunk);
    }

    /// Drops the chunk with this id, if there is one.
    pub fn remove(&mut self, id: &str)
        ensures
            final(self)@ == old(self)@.remove(id@),
    {
        self.chunks.remove(id);
    }

    /// The chunk with this id.
    pub fn get(&self, id: &str) -> (r: Option<&Chunk>)
        ensures
            r is Some <==> self@.contains_key(id@),
            r matches Some(c) ==> c@ == self@[id@],
    {
        self.chunks.get(id)
    }

    /// The number of chunks.
    pub fn len(&self) -> (r: usize)
        ensures
            r == self@.len(),
            self@.dom().finite(),
    {
        self.chunks.len()
    }

    /// Whether there is no chunk.
    pub fn is_empty(&self) -> (r: bool)
        ensures
            r <==> self@ == Map::<Seq<char>, ChunkView>::empty(),
    {
        let n = self.chunks.len();
        proof {
            if n == 0 {
                assert(self@.dom() =~= Set::empty());
                assert(self@ =~= Map::empty());
            }
        }
        n == 0
    }
}

/// What a [`VectorStore`] holds.
#[verifier::ext_equal]
pub struct VectorStoreView {
    pub model: Option<Seq<char>>,
    pub dims: nat,
    pub vectors: Map<Seq<char>, Seq<u32>>,
}

/// Whether a vector store describes its vectors: every vector has the recorded
/// number of dimensions, and where there is a vector there is a model.
pub open spec fn described(v: VectorStoreView) -> bool {
    forall|id: Seq<char>| #[trigger]
        v.vectors.contains_key(id) ==> v.vectors[id].len() == v.dims && v.model is Some
}

/// Chunk id to embedding vector.
pub struct VectorStore {
    /// The model the vectors were built with (`provider/model`). `None` for an
    /// empty store.
    pub model: Option<String>,
    /// The number of dimensions.
    pub dims: usize,
    pub vectors: StringMap<Vec<u32>>,
}

impl View for VectorStore {
    type V = VectorStoreView;

    open spec fn view(&self) -> VectorStoreView {
        VectorStoreView {
            model: match self.model {
                Some(m) => Some(m@),
                None => None,
            },
            dims: self.dims as nat,
            vectors: self.vectors@,
        }
    }
}

impl Default for VectorStore {
    /// The empty store.
    fn default() -> (r: VectorStore)
        ensures
            r@ == (VectorStoreView { model: None, dims: 0, vectors: Map::empty() }),
    {
        VectorStore { model: None, dims: 0, vectors: StringMap::new() }
    }
}

impl VectorStore {
    /// Puts a vector at `id`, in place of any vector there.
    pub fn insert(&mut self, id: &str, vector: Vec<u32>)
        ensures
            final(self)@ == (VectorStoreView {
                vectors: old(self)@.vectors.insert(id@, vector@),
                ..old(self)@
            }),
    {
        self.vectors.insert(id.to_owned(), vector);
    }

    /// Drops the vector of `id`, if there is one.
    pub fn remove(&mut self, id: &str)
        ensures
            final(self)@ == (VectorStoreView {
                vectors: old(self)@.vectors.remove(id@),
                ..old(self)@
            }),
    {
        self.vectors.remove(id);
    }

    /// Whether there is no vector.
    pub fn is_empty(&self) -> (r: bool)
        ensures
            r <==> self@.vectors == Map::<Seq<char>, Seq<u32>>::empty(),
    {
        let n = self.vectors.len();
        proof {
            if n == 0 {
                assert(self@.vectors.dom() =~= Set::empty());
                assert(self@.vectors =~= Map::empty());
            }
        }
        n == 0
    }

    /// The nearest neighbours of a query: the `k` chunk ids of the greatest
    /// similarity, in descending order. `similarities` gives the similarity of
    /// each vector to the query, as the bits of a 32-bit floating point number,
    /// in ascending order of ids; of equally similar ids the smaller is first.
    pub fn knn(&self, similarities: &Vec<u32>, k: usize) -> (r: Vec<Scored>)
        requires
            similarities@.len() == self.vectors.keys().len(),
        ensures
            search::scored_views(r@) == nearest(self.vectors.keys(), similarities@, k as nat),
    {
        let mut scored: Vec<Scored> = Vec::new();
        let ghost pairs = id_scores(self.vectors.keys(), similarities@);
        let mut i: usize = 0;
        while i < similarities.len()
            invariant
                i <= similarities@.len(),
                similarities@.len() == self.vectors.keys().len(),
                pairs == id_scores(self.vectors.keys(), similarities@),
                search::scored_views(scored@) == pairs.take(i as int),
            decreases similarities@.len() - i,
        {
            let ghost before = search::scored_views(scored@);
            let (id, _) = self.vectors.entry(i);
            let item = Scored { id: id.clone(), score: similarities[i] };
            scored.push(item);
            assert(search::scored_views(scored@) =~= before.push(item@));
            assert(pairs.take(i + 1) =~= pairs.take(i as int).push(pairs[i as int]));
            i = i + 1;
        }
        assert(pairs.take(i as int) =~= pairs);
        let mut top = search::rank_by_score(scored);
        let ghost all = search::scored_views(top@);
        top.truncate(k);
        proof {
            search::law_ranked(pairs, 0);
            assert(search::scored_views(top@) =~= nearest(
                self.vectors.keys(),
                similarities@,
                k as nat,
            ));
        }
        top
    }
}

/// Ids with their scores.
pub open spec fn id_scores(ids: Seq<Seq<char>>, scores: Seq<u32>) -> Seq<(Seq<char>, u32)> {
    Seq::new(ids.len(), |i: int| (ids[i], scores[i]))
}

/// The first `k` of the ranking of ids by their scores; all of it where there
/// are fewer.
pub open spec fn nearest(ids: Seq<Seq<char>>, scores: Seq<u32>, k: nat) -> Seq<(Seq<char>, u32)> {
    let all = search::ranked(id_scores(ids, scores));
    if k < all.len() {
        all.take(k as int)
    } else {
        all
    }
}

/// Nothing outside the nearest neighbours is more similar than one of them, and
/// they are in descending order of similarity.
pub proof fn law_nearest(ids: Seq<Seq<char>>, scores: Seq<u32>, k: nat)
    requires
        ids.len() == scores.len(),
    ensures
        nearest(ids, scores, k).len() == if k < ids.len() {
            k
        } else {
            ids.len()
        },
        forall|i: int, j: int|
            0 <= i < j < nearest(ids, scores, k).len() ==> search::score_place(
                (#[trigger] nearest(ids, scores, k)[i]).1,
            ) >= search::score_place((#[trigger] nearest(ids, scores, k)[j]).1),
        nearest(ids, scores, k).is_prefix_of(search::ranked(id_scores(ids, scores))),
        forall|i: int, j: int|
            0 <= i < nearest(ids, scores, k).len() <= j < search::ranked(
                id_scores(ids, scores),
            ).len() ==> search::score_place((#[trigger] nearest(ids, scores, k)[i]).1)
                >= search::score_place((#[trigger] search::ranked(id_scores(ids, scores))[j]).1),
{
    let pairs = id_scores(ids, scores);
    search::law_ranked(pairs, 0);
    let all = search::ranked(pairs);
    let top = nearest(ids, scores, k);
    assert(top =~= all.subrange(0, top.len() as int));
    assert forall|i: int, j: int| 0 <= i < top.len() <= j < all.len() implies search::score_place(
        (#[trigger] top[i]).1,
    ) >= search::score_place((#[trigger] all[j]).1) by {
        assert(top[i] == all[i]);
    }
    assert forall|i: int, j: int| 0 <= i < j < top.len() implies search::score_place(
        (#[trigger] top[i]).1,
    ) >= search::score_place((#[trigger] top[j]).1) by {
        assert(top[i] == all[i]);
        assert(top[j] == all[j]);
    }
}

/// Every id is ranked with its own score, and nothing else is.
pub proof fn law_id_scores(ids: Seq<Seq<char>>, scores: Seq<u32>)
    ensures
        id_scores(ids, scores).len() == ids.len(),
        forall|i: int|
            0 <= i < ids.len() ==> #[trigger] id_scores(ids, scores)[i] == (ids[i], scores[i]),
{
}

/// Every one of the nearest neighbours is an id with its own score, and where
/// all are asked for, every id is among them.
pub proof fn law_nearest_are_ids(ids: Seq<Seq<char>>, scores: Seq<u32>, k: nat)
    requires
        ids.len() == scores.len(),
    ensures
        forall|m: int|
            0 <= m < nearest(ids, scores, k).len() ==> exists|i: int|
                0 <= i < ids.len() && #[trigger] nearest(ids, scores, k)[m] == (
                #[trigger] ids[i],
                scores[i],
                ),
        k >= ids.len() ==> forall|i: int|
            0 <= i < ids.len() ==> nearest(ids, scores, k).contains((#[trigger] ids[i], scores[i])),
{
    broadcast use vstd::seq_lib::group_to_multiset_ensures;

    let pairs = id_scores(ids, scores);
    let all = search::ranked(pairs);
    let top = nearest(ids, scores, k);
    search::law_ranked(pairs, 0);
    assert forall|m: int| 0 <= m < top.len() implies exists|i: int|
        0 <= i < ids.len() && #[trigger] top[m] == (#[trigger] ids[i], scores[i]) by {
        assert(all.contains(all[m]));
        assert(pairs.to_multiset().count(all[m]) > 0);
        assert(pairs.contains(all[m]));
        let i = pairs.index_of(all[m]);
        assert(top[m] == (ids[i], scores[i]));
    }
    if k >= ids.len() {
        assert forall|i: int| 0 <= i < ids.len() implies top.contains(
            (#[trigger] ids[i], scores[i]),
        ) by {
            assert(pairs.contains(pairs[i]));
            assert(all.to_multiset().count(pairs[i]) > 0);
            assert(all.contains(pairs[i]));
        }
    }
}

/// A store holds what its map holds, and a vector store also its model and its
/// number of dimensions.
pub proof fn law_store_views(chunks: ChunkStore, vectors: VectorStore)
    ensures
        chunks@ == chunks.chunks@,
        vectors@.vectors == vectors.vectors@,
        vectors@.dims == vectors.dims,
        vectors@.model is Some <==> vectors.model is Some,
        vectors.model is Some ==> vectors@.model->0 == vectors.model->0@,
{
}

} // verus!
