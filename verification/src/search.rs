//! Search modes, snippets and the fusion of ranked lists.
//!
//! Hybrid search fuses the lexical and the semantic ranking by reciprocal rank
//! fusion, which needs no more of a list than its order. Scores are 32-bit
//! floating point numbers, held here as their bits.

use vstd::prelude::*;

use crate::sorting::Sortable;
use crate::{sorting, text};

verus! {

// ── modes ───────────────────────────────────────────────────────────────────
/// Search mode. `Hybrid` fuses text and semantic search where semantic search
/// is available, else falls back to text. The others force a single lane.
#[derive(Debug, Clone, Copy, PartialEq, Eq, Structural)]
pub enum SearchMode {
    Hybrid,
    Text,
    Semantic,
}

/// A mode argument that names no mode.
#[derive(Debug, Clone, PartialEq, Eq)]
pub struct UnknownMode {
    pub mode: String,
}

/// The mode that an argument names; no argument means `hybrid`.
pub open spec fn named_mode(arg: Option<Seq<char>>) -> Option<SearchMode> {
    match arg {
        None => Some(SearchMode::Hybrid),
        Some(name) => if name == "hybrid"@ {
            Some(SearchMode::Hybrid)
        } else if name == "text"@ {
            Some(SearchMode::Text)
        } else if name == "semantic"@ {
            Some(SearchMode::Semantic)
        } else {
            None
        },
    }
}

/// The view of an optional string.
pub open spec fn opt_text(s: Option<&str>) -> Option<Seq<char>> {
    match s {
        Some(s) => Some(s@),
        None => None,
    }
}

impl SearchMode {
    /// Parses the `mode` argument of a search; defaults to `Hybrid`.
    pub fn parse(s: Option<&str>) -> (r: Result<SearchMode, UnknownMode>)
        ensures
            r is Ok <==> named_mode(opt_text(s)) is Some,
            r matches Ok(mode) ==> named_mode(opt_text(s)) == Some(mode),
            r matches Err(e) ==> s is Some && e.mode@ == s->0@,
    {
        let name = match s {
            None => { return Ok(SearchMode::Hybrid); },
            Some(name) => name,
        };
        if text::text_eq(name, "hybrid") {
            Ok(SearchMode::Hybrid)
        } else if text::text_eq(name, "text") {
            Ok(SearchMode::Text)
        } else if text::text_eq(name, "semantic") {
            Ok(SearchMode::Semantic)
        } else {
            Err(UnknownMode { mode: name.to_owned() })
        }
    }
}

impl UnknownMode {
    /// The message for the caller.
    pub open spec fn text(self) -> Seq<char> {
        "unknown mode '"@ + self.mode@ + "' (expected hybrid | text | semantic)"@
    }

    /// The message for the caller.
    pub fn message(&self) -> (r: String)
        ensures
            r@ == self.text(),
    {
        let mut m = "unknown mode '".to_owned();
        m.append(self.mode.as_str());
        m.append("' (expected hybrid | text | semantic)");
        m
    }
}

// ── ranking by score ────────────────────────────────────────────────────────
/// The place of a 32-bit floating point number, given by its bits, in the order
/// of such numbers: sign and magnitude read as an integer. The two zeros have
/// the same place. Bits that stand for no number are placed beyond the
/// infinities.
pub open spec fn score_place(bits: u32) -> int {
    if bits < 0x8000_0000 {
        bits as int
    } else {
        0x8000_0000 - bits
    }
}

/// An id with its score.
#[derive(Debug, Clone, PartialEq, Eq)]
pub struct Scored {
    pub id: String,
    /// The bits of the score.
    pub score: u32,
}

impl View for Scored {
    type V = (Seq<char>, u32);

    open spec fn view(&self) -> (Seq<char>, u32) {
        (self.id@, self.score)
    }
}

/// The views of a sequence of scored ids.
pub open spec fn scored_views(v: Seq<Scored>) -> Seq<(Seq<char>, u32)> {
    v.map_values(|s: Scored| s@)
}

/// The order of a ranking: a higher score comes first.
pub open spec fn higher_score() -> spec_fn((Seq<char>, u32), (Seq<char>, u32)) -> bool {
    |a: (Seq<char>, u32), b: (Seq<char>, u32)| score_place(a.1) > score_place(b.1)
}

/// Scored ids by descending score; equal scores keep their order.
pub open spec fn ranked(s: Seq<(Seq<char>, u32)>) -> Seq<(Seq<char>, u32)> {
    sorting::stable_sorted(s, higher_score())
}

/// The place of a score in the order of numbers.
fn place_of(bits: u32) -> (r: i64)
    ensures
        r == score_place(bits),
{
    if bits < 0x8000_0000 {
        bits as i64
    } else {
        0x8000_0000i64 - bits as i64
    }
}

impl Sortable for Scored {
    open spec fn comes_before(self, other: Scored) -> bool {
        score_place(self.score) > score_place(other.score)
    }

    proof fn asymmetric(x: Scored, y: Scored) {
    }

    proof fn negatively_transitive(x: Scored, y: Scored, z: Scored) {
    }

    fn is_before(&self, other: &Scored) -> (r: bool) {
        place_of(self.score) > place_of(other.score)
    }
}

/// Sorts by descending score; equal scores keep their order.
pub fn rank_by_score(items: Vec<Scored>) -> (r: Vec<Scored>)
    ensures
        scored_views(r@) == ranked(scored_views(items@)),
{
    proof {
        sorting::lemma_stable_sorted_map(
            items@,
            |s: Scored| s@,
            sorting::order::<Scored>(),
            higher_score(),
        );
    }
    sorting::stable_sort(items)
}

/// A ranking is by descending score, holds what was ranked, and keeps the order
/// of ids with the same score.
pub proof fn law_ranked(s: Seq<(Seq<char>, u32)>, place: int)
    ensures
        forall|i: int, j: int|
            0 <= i < j < ranked(s).len() ==> score_place((#[trigger] ranked(s)[i]).1)
                >= score_place((#[trigger] ranked(s)[j]).1),
        ranked(s).to_multiset() == s.to_multiset(),
        ranked(s).len() == s.len(),
        ranked(s).filter(|e: (Seq<char>, u32)| score_place(e.1) == place) == s.filter(
            |e: (Seq<char>, u32)| score_place(e.1) == place,
        ),
{
    let before = higher_score();
    sorting::lemma_stable_sorted(s, before);
    sorting::lemma_stable(s, before, |e: (Seq<char>, u32)| score_place(e.1) == place);
    let r = ranked(s);
    assert forall|i: int, j: int| 0 <= i < j < r.len() implies score_place((#[trigger] r[i]).1)
        >= score_place((#[trigger] r[j]).1) by {
        assert(!before(r[j], r[i]));
    }
}

// ── fusion ──────────────────────────────────────────────────────────────────
/// A list of ids, each with its rank: the first has rank 1.
pub open spec fn with_ranks(list: Seq<Seq<char>>) -> Seq<(Seq<char>, nat)> {
    Seq::new(list.len(), |i: int| (list[i], (i + 1) as nat))
}

/// Everything that the lists hold, list by list.
pub open spec fn all_ranks(lists: Seq<Seq<Seq<char>>>) -> Seq<(Seq<char>, nat)>
    decreases lists.len(),
{
    if lists.len() == 0 {
        Seq::empty()
    } else {
        all_ranks(lists.drop_last()) + with_ranks(lists.last())
    }
}

/// The ids in `s`, each once, in the order of their first occurrence.
pub open spec fn first_ids(s: Seq<(Seq<char>, nat)>) -> Seq<Seq<char>>
    decreases s.len(),
{
    if s.len() == 0 {
        Seq::empty()
    } else {
        let front = first_ids(s.drop_last());
        if front.contains(s.last().0) {
            front
        } else {
            front.push(s.last().0)
        }
    }
}

/// Of which occurrences the id is `id`.
pub open spec fn occurs_as(id: Seq<char>) -> spec_fn((Seq<char>, nat)) -> bool {
    |e: (Seq<char>, nat)| e.0 == id
}

/// The ranks that `s` gives an id, in order.
pub open spec fn ranks_of(s: Seq<(Seq<char>, nat)>, id: Seq<char>) -> Seq<nat> {
    s.filter(occurs_as(id)).map_values(|e: (Seq<char>, nat)| e.1)
}

/// The ids in `s` with their ranks.
pub open spec fn gathered(s: Seq<(Seq<char>, nat)>) -> Seq<(Seq<char>, Seq<nat>)> {
    first_ids(s).map_values(|id: Seq<char>| (id, ranks_of(s, id)))
}

/// The candidates of a fusion: every id of the lists once, in the order of
/// first occurrence, with all its ranks.
pub open spec fn fusion(lists: Seq<Seq<Seq<char>>>) -> Seq<(Seq<char>, Seq<nat>)> {
    gathered(all_ranks(lists))
}

/// An id with the ranks it has in the lists that are fused. Its fused score is
/// the sum of `1 / (60 + rank)` over these ranks.
#[derive(Debug, Clone, PartialEq, Eq)]
pub struct FusionCandidate {
    pub id: String,
    /// The ranks, counted from 1.
    pub ranks: Vec<usize>,
}

impl View for FusionCandidate {
    type V = (Seq<char>, Seq<nat>);

    open spec fn view(&self) -> (Seq<char>, Seq<nat>) {
        (self.id@, self.ranks@.map_values(|r: usize| r as nat))
    }
}

/// The views of a sequence of candidates.
pub open spec fn candidate_views(v: Seq<FusionCandidate>) -> Seq<(Seq<char>, Seq<nat>)> {
    v.map_values(|c: FusionCandidate| c@)
}

/// The views of a sequence of lists of ids.
pub open spec fn list_views(lists: Seq<Vec<String>>) -> Seq<Seq<Seq<char>>> {
    lists.map_values(|l: Vec<String>| text::texts(l@))
}

proof fn lemma_first_ids(s: Seq<(Seq<char>, nat)>)
    ensures
        first_ids(s).no_duplicates(),
        forall|id: Seq<char>|
            first_ids(s).contains(id) <==> exists|i: int|
                0 <= i < s.len() && (#[trigger] s[i]).0 == id,
    decreases s.len(),
{
    if s.len() > 0 {
        let t = s.drop_last();
        let front = first_ids(t);
        lemma_first_ids(t);
        let r = first_ids(s);
        assert forall|id: Seq<char>| r.contains(id) <==> exists|i: int|
            0 <= i < s.len() && (#[trigger] s[i]).0 == id by {
            if r.contains(id) {
                if front.contains(id) {
                    let i = choose|i: int| 0 <= i < t.len() && (#[trigger] t[i]).0 == id;
                    assert(s[i].0 == id);
                } else {
                    assert(s[s.len() - 1].0 == id);
                }
            }
            if exists|i: int| 0 <= i < s.len() && (#[trigger] s[i]).0 == id {
                let i = choose|i: int| 0 <= i < s.len() && (#[trigger] s[i]).0 == id;
                if i < t.len() {
                    assert(t[i].0 == id);
                    assert(front.contains(id));
                    let k = front.index_of(id);
                    assert(r[k] == id);
                } else if front.contains(id) {
                } else {
                    assert(r[r.len() - 1] == id);
                }
            }
        }
    }
}

proof fn lemma_ranks_push(s: Seq<(Seq<char>, nat)>, e: (Seq<char>, nat), id: Seq<char>)
    ensures
        ranks_of(s.push(e), id) == if e.0 == id {
            ranks_of(s, id).push(e.1)
        } else {
            ranks_of(s, id)
        },
{
    let p = occurs_as(id);
    let f = |e: (Seq<char>, nat)| e.1;
    s.lemma_filter_push(e, p);
    if e.0 == id {
        assert(s.filter(p).push(e).map_values(f) =~= s.filter(p).map_values(f).push(e.1));
    }
}

proof fn lemma_ranks_absent(s: Seq<(Seq<char>, nat)>, id: Seq<char>)
    requires
        forall|i: int| 0 <= i < s.len() ==> (#[trigger] s[i]).0 != id,
    ensures
        ranks_of(s, id) == Seq::<nat>::empty(),
{
    let p = occurs_as(id);
    s.lemma_all_neg_filter_empty(p);
    assert(ranks_of(s, id) =~= Seq::<nat>::empty());
}

/// Adds one more occurrence of an id to the candidates.
fn add_rank(candidates: &mut Vec<FusionCandidate>, id: &String, rank: usize, Ghost(seen): Ghost<Seq<(Seq<char>, nat)>>)
    requires
        candidate_views(old(candidates)@) == gathered(seen),
    ensures
        candidate_views(final(candidates)@) == gathered(seen.push((id@, rank as nat))),
{
    let ghost e = (id@, rank as nat);
    let ghost now = seen.push(e);
    let ghost views = candidate_views(candidates@);
    proof {
        lemma_first_ids(seen);
        assert(now.drop_last() =~= seen);
    }
    let mut i: usize = 0;
    while i < candidates.len()
        invariant
            i <= candidates@.len(),
            candidates@ == old(candidates)@,
            views == candidate_views(candidates@),
            views == gathered(seen),
            forall|j: int| 0 <= j < i ==> first_ids(seen)[j] != id@,
            e == (id@, rank as nat),
            now == seen.push(e),
            now.drop_last() == seen,
            first_ids(seen).no_duplicates(),
        decreases candidates@.len() - i,
    {
        assert(views.len() == first_ids(seen).len());
        assert(views[i as int] == candidates@[i as int]@);
        assert(gathered(seen)[i as int].0 == first_ids(seen)[i as int]);
        if candidates[i].id == *id {
            let mut ranks: Vec<usize> = Vec::new();
            std::mem::swap(&mut ranks, &mut candidates[i].ranks);
            let ghost before = ranks@;
            ranks.push(rank);
            candidates[i].ranks = ranks;
            proof {
                let after = candidate_views(candidates@);
                assert(first_ids(seen).contains(first_ids(seen)[i as int]));
                assert(first_ids(now) == first_ids(seen));
                assert(ranks@.map_values(|r: usize| r as nat) =~= before.map_values(
                    |r: usize| r as nat,
                ).push(rank as nat));
                assert forall|j: int| 0 <= j < after.len() implies #[trigger] after[j]
                    == gathered(now)[j] by {
                    lemma_ranks_push(seen, e, first_ids(seen)[j]);
                    assert(views[j] == gathered(seen)[j]);
                    if j != i {
                        assert(first_ids(seen)[j] != first_ids(seen)[i as int]);
                    }
                }
                assert(after =~= gathered(now));
            }
            return;
        }
        i = i + 1;
    }
    let mut ranks: Vec<usize> = Vec::new();
    ranks.push(rank);
    let candidate = FusionCandidate { id: id.clone(), ranks };
    proof {
        assert(!first_ids(seen).contains(id@));
        lemma_ranks_absent(seen, id@);
        lemma_ranks_push(seen, e, id@);
        assert(ranks@.map_values(|r: usize| r as nat) =~= Seq::<nat>::empty().push(rank as nat));
        assert(candidate@ == (id@, ranks_of(now, id@)));
    }
    candidates.push(candidate);
    proof {
        let after = candidate_views(candidates@);
        assert(after =~= views.push(candidate@));
        assert forall|j: int| 0 <= j < after.len() implies #[trigger] after[j] == gathered(
            now,
        )[j] by {
            if j < views.len() {
                lemma_ranks_push(seen, e, first_ids(seen)[j]);
                assert(views[j] == gathered(seen)[j]);
                assert(first_ids(seen).contains(first_ids(seen)[j]));
            }
        }
        assert(after =~= gathered(now));
    }
}

/// The candidates of a fusion of ranked lists, each list in descending
/// relevance.
pub fn fusion_candidates(lists: &Vec<Vec<String>>) -> (r: Vec<FusionCandidate>)
    ensures
        candidate_views(r@) == fusion(list_views(lists@)),
{
    let mut candidates: Vec<FusionCandidate> = Vec::new();
    let ghost all = list_views(lists@);
    assert(candidate_views(candidates@) =~= fusion(all.take(0)));
    let mut i: usize = 0;
    while i < lists.len()
        invariant
            i <= lists@.len(),
            all == list_views(lists@),
            candidate_views(candidates@) == fusion(all.take(i as int)),
        decreases lists@.len() - i,
    {
        let list = &lists[i];
        let ghost front = all_ranks(all.take(i as int));
        let ghost ranks = with_ranks(text::texts(list@));
        assert(all.take(i + 1).drop_last() =~= all.take(i as int));
        assert(all.take(i + 1).last() == text::texts(list@));
        assert(front + ranks.take(0) =~= front);
        let mut j: usize = 0;
        while j < list.len()
            invariant
                j <= list@.len(),
                ranks == with_ranks(text::texts(list@)),
                candidate_views(candidates@) == gathered(front + ranks.take(j as int)),
            decreases list@.len() - j,
        {
            let ghost seen = front + ranks.take(j as int);
            add_rank(&mut candidates, &list[j], j + 1, Ghost(seen));
            assert(front + ranks.take(j + 1) =~= seen.push(ranks[j as int]));
            j = j + 1;
        }
        assert(ranks.take(j as int) =~= ranks);
        i = i + 1;
    }
    assert(all.take(i as int) =~= all);
    candidates
}

/// A fusion holds every id of its lists exactly once.
pub proof fn law_fusion_ids(lists: Seq<Seq<Seq<char>>>, i: int, j: int)
    requires
        0 <= i < lists.len(),
        0 <= j < lists[i].len(),
    ensures
        exists|k: int| 0 <= k < fusion(lists).len() && (#[trigger] fusion(lists)[k]).0 == lists[i][j],
        forall|k: int, l: int|
            0 <= k < l < fusion(lists).len() ==> (#[trigger] fusion(lists)[k]).0 != (
            #[trigger] fusion(lists)[l]).0,
{
    let all = all_ranks(lists);
    lemma_first_ids(all);
    let p = lemma_all_ranks(lists, i, j);
    assert(all[p].0 == lists[i][j]);
    assert(first_ids(all).contains(lists[i][j]));
    let k = first_ids(all).index_of(lists[i][j]);
    assert(fusion(lists)[k].0 == lists[i][j]);
    assert forall|k: int, l: int| 0 <= k < l < fusion(lists).len() implies (
    #[trigger] fusion(lists)[k]).0 != (#[trigger] fusion(lists)[l]).0 by {
        assert(first_ids(all)[k] != first_ids(all)[l]);
    }
}

/// An id of a fused list has the rank of its place there among its ranks.
pub proof fn law_fusion_ranks(lists: Seq<Seq<Seq<char>>>, i: int, j: int, k: int)
    requires
        0 <= i < lists.len(),
        0 <= j < lists[i].len(),
        0 <= k < fusion(lists).len(),
        fusion(lists)[k].0 == lists[i][j],
    ensures
        fusion(lists)[k].1.contains((j + 1) as nat),
{
    let all = all_ranks(lists);
    let id = lists[i][j];
    let p = occurs_as(id);
    let at = lemma_all_ranks(lists, i, j);
    all.lemma_filter_contains(p, at);
    assert(all.filter(p).contains(all[at]));
    let m = all.filter(p).index_of(all[at]);
    assert(all.filter(p)[m] == all[at]);
    assert(ranks_of(all, id)[m] == (j + 1) as nat);
}

proof fn lemma_all_ranks(lists: Seq<Seq<Seq<char>>>, i: int, j: int) -> (p: int)
    requires
        0 <= i < lists.len(),
        0 <= j < lists[i].len(),
    ensures
        0 <= p < all_ranks(lists).len(),
        all_ranks(lists)[p] == (lists[i][j], (j + 1) as nat),
    decreases lists.len(),
{
    if i < lists.len() - 1 {
        lemma_all_ranks(lists.drop_last(), i, j)
    } else {
        all_ranks(lists.drop_last()).len() + j
    }
}

proof fn lemma_ranks_add(s: Seq<(Seq<char>, nat)>, t: Seq<(Seq<char>, nat)>, id: Seq<char>)
    ensures
        ranks_of(s + t, id) == ranks_of(s, id) + ranks_of(t, id),
{
    let f = |e: (Seq<char>, nat)| e.1;
    let p = occurs_as(id);
    Seq::filter_distributes_over_add(s, t, p);
    assert((s.filter(p) + t.filter(p)).map_values(f) =~= s.filter(p).map_values(f) + t.filter(
        p,
    ).map_values(f));
}

/// The ranks of an id in the first `n` places of a list: these places, counted
/// from 1, ascending.
proof fn lemma_list_ranks(list: Seq<Seq<char>>, n: int, id: Seq<char>)
    requires
        0 <= n <= list.len(),
    ensures
        ({
            let r = ranks_of(with_ranks(list).take(n), id);
            &&& forall|m: int|
                0 <= m < r.len() ==> 1 <= #[trigger] r[m] <= n && list[r[m] - 1] == id
            &&& forall|m: int, q: int| 0 <= m < q < r.len() ==> #[trigger] r[m] < #[trigger] r[q]
            &&& forall|j: int| 0 <= j < n && #[trigger] list[j] == id ==> r.contains((j + 1) as nat)
            &&& r.len() == list.take(n).to_multiset().count(id)
        }),
    decreases n,
{
    broadcast use vstd::seq_lib::group_to_multiset_ensures;

    let all = with_ranks(list);
    let r = ranks_of(all.take(n), id);
    if n == 0 {
        lemma_ranks_absent(all.take(0), id);
    } else {
        let front = all.take(n - 1);
        let old_ranks = ranks_of(front, id);
        lemma_list_ranks(list, n - 1, id);
        assert(all.take(n) =~= front.push(all[n - 1]));
        lemma_ranks_push(front, all[n - 1], id);
        assert(list.take(n) =~= list.take(n - 1).push(list[n - 1]));
        assert forall|j: int| 0 <= j < n && #[trigger] list[j] == id implies r.contains(
            (j + 1) as nat,
        ) by {
            if j < n - 1 {
                assert(old_ranks.contains((j + 1) as nat));
                let m = old_ranks.index_of((j + 1) as nat);
                assert(r[m] == (j + 1) as nat);
            } else {
                assert(r[r.len() - 1] == (j + 1) as nat);
            }
        }
    }
}

/// What more of a list adds to the ids: none of the ids before goes or moves,
/// and the new ones come in the order of their first places.
proof fn lemma_new_ids(seen: Seq<(Seq<char>, nat)>, list: Seq<Seq<char>>, n: int)
    requires
        0 <= n <= list.len(),
    ensures
        ({
            let before = first_ids(seen);
            let ranks = with_ranks(list).take(n);
            let ids = first_ids(seen + ranks);
            &&& before.len() <= ids.len()
            &&& forall|k: int| 0 <= k < before.len() ==> #[trigger] ids[k] == before[k]
            &&& forall|k: int|
                before.len() <= k < ids.len() ==> ranks_of(ranks, #[trigger] ids[k]).len() > 0
            &&& forall|k: int, l: int|
                before.len() <= k < l < ids.len() ==> ranks_of(ranks, #[trigger] ids[k])[0]
                    < ranks_of(ranks, #[trigger] ids[l])[0]
        }),
    decreases n,
{
    let before = first_ids(seen);
    let all = with_ranks(list);
    let ranks = all.take(n);
    let ids = first_ids(seen + ranks);
    if n == 0 {
        assert(seen + ranks =~= seen);
    } else {
        let front = all.take(n - 1);
        let e = all[n - 1];
        let front_ids = first_ids(seen + front);
        lemma_new_ids(seen, list, n - 1);
        assert(ranks =~= front.push(e));
        assert((seen + ranks).drop_last() =~= seen + front);
        assert((seen + ranks).last() == e);
        lemma_first_ids(seen + front);
        assert forall|k: int| before.len() <= k < ids.len() implies ranks_of(
            ranks,
            #[trigger] ids[k],
        ).len() > 0 by {
            lemma_ranks_push(front, e, ids[k]);
            if k < front_ids.len() {
                assert(ids[k] == front_ids[k]);
            }
        }
        assert forall|k: int, l: int| before.len() <= k < l < ids.len() implies ranks_of(
            ranks,
            #[trigger] ids[k],
        )[0] < ranks_of(ranks, #[trigger] ids[l])[0] by {
            lemma_ranks_push(front, e, ids[k]);
            lemma_ranks_push(front, e, ids[l]);
            assert(ids[k] == front_ids[k]);
            lemma_list_ranks(list, n - 1, ids[k]);
            if l < front_ids.len() {
                assert(ids[l] == front_ids[l]);
            } else {
                assert(!front_ids.contains(e.0));
                let t = seen + front;
                assert forall|i: int| 0 <= i < front.len() implies (#[trigger] front[i]).0 != e.0 by {
                    assert(t[seen.len() + i] == front[i]);
                }
                lemma_ranks_absent(front, e.0);
            }
        }
    }
}

/// Whether a list holds an id at the place of this rank.
pub open spec fn stands_at(list: Seq<Seq<char>>, rank: nat, id: Seq<char>) -> bool {
    1 <= rank <= list.len() && list[rank - 1] == id
}

/// Which lists hold an id at the place of this rank.
pub open spec fn holds_at(rank: nat, id: Seq<char>) -> spec_fn(Seq<Seq<char>>) -> bool {
    |list: Seq<Seq<char>>| stands_at(list, rank, id)
}

/// Each rank of a candidate stands for one place of a list that holds its id,
/// counted from 1, as often as lists hold the id at this place; so a candidate
/// has as many ranks as the lists together hold its id.
pub proof fn law_fusion_counts(lists: Seq<Seq<Seq<char>>>, k: int)
    requires
        0 <= k < fusion(lists).len(),
    ensures
        forall|rank: nat|
            #[trigger] fusion(lists)[k].1.contains(rank) ==> exists|i: int|
                0 <= i < lists.len() && #[trigger] stands_at(lists[i], rank, fusion(lists)[k].0),
        forall|rank: nat|
            #[trigger] fusion(lists)[k].1.to_multiset().count(rank) == lists.filter(
                holds_at(rank, fusion(lists)[k].0),
            ).len(),
        fusion(lists)[k].1.len() == lists.flatten().to_multiset().count(fusion(lists)[k].0),
{
    let id = fusion(lists)[k].0;
    let all = all_ranks(lists);
    assert(fusion(lists)[k].1 == ranks_of(all, id));
    assert forall|rank: nat| #[trigger] fusion(lists)[k].1.contains(rank) implies exists|i: int|
        0 <= i < lists.len() && #[trigger] stands_at(lists[i], rank, id) by {
        lemma_rank_place(lists, id, fusion(lists)[k].1.index_of(rank));
    }
    assert forall|rank: nat| #[trigger]
        fusion(lists)[k].1.to_multiset().count(rank) == lists.filter(
            holds_at(rank, id),
        ).len() by {
        lemma_rank_count(lists, id, rank);
    }
    lists.lemma_flatten_and_flatten_alt_are_equivalent();
    lemma_rank_total(lists, id);
}

proof fn lemma_rank_place(lists: Seq<Seq<Seq<char>>>, id: Seq<char>, m: int)
    requires
        0 <= m < ranks_of(all_ranks(lists), id).len(),
    ensures
        exists|i: int|
            0 <= i < lists.len() && #[trigger] stands_at(
                lists[i],
                ranks_of(all_ranks(lists), id)[m],
                id,
            ),
    decreases lists.len(),
{
    let r = ranks_of(all_ranks(lists), id);
    if lists.len() == 0 {
        lemma_ranks_absent(all_ranks(lists), id);
    } else {
        let front = lists.drop_last();
        let list = lists.last();
        let old_ranks = ranks_of(all_ranks(front), id);
        lemma_ranks_add(all_ranks(front), with_ranks(list), id);
        if m < old_ranks.len() {
            lemma_rank_place(front, id, m);
            let i = choose|i: int|
                0 <= i < front.len() && #[trigger] stands_at(front[i], old_ranks[m], id);
            assert(stands_at(lists[i], r[m], id));
        } else {
            assert(with_ranks(list).take(list.len() as int) =~= with_ranks(list));
            lemma_list_ranks(list, list.len() as int, id);
            let own = ranks_of(with_ranks(list), id);
            assert(r[m] == own[m - old_ranks.len()]);
            assert(stands_at(lists[lists.len() - 1], r[m], id));
        }
    }
}

proof fn lemma_rank_count(lists: Seq<Seq<Seq<char>>>, id: Seq<char>, rank: nat)
    ensures
        ranks_of(all_ranks(lists), id).to_multiset().count(rank) == lists.filter(
            holds_at(rank, id),
        ).len(),
    decreases lists.len(),
{
    broadcast use vstd::seq_lib::group_to_multiset_ensures;

    let holds = holds_at(rank, id);
    reveal(Seq::filter);
    if lists.len() == 0 {
        lemma_ranks_absent(all_ranks(lists), id);
        assert(lists.filter(holds).len() == 0);
    } else {
        let front = lists.drop_last();
        let list = lists.last();
        lemma_rank_count(front, id, rank);
        lemma_ranks_add(all_ranks(front), with_ranks(list), id);
        assert(with_ranks(list).take(list.len() as int) =~= with_ranks(list));
        lemma_list_ranks(list, list.len() as int, id);
        let own = ranks_of(with_ranks(list), id);
        vstd::seq_lib::lemma_multiset_commutative(ranks_of(all_ranks(front), id), own);
        assert(own.no_duplicates());
        own.lemma_multiset_has_no_duplicates();
        if holds(list) {
            assert(list[rank - 1] == id);
            assert(own.contains(rank));
            assert(own.to_multiset().contains(rank));
        } else {
            assert(!own.contains(rank));
            assert(!own.to_multiset().contains(rank));
        }
    }
}

proof fn lemma_rank_total(lists: Seq<Seq<Seq<char>>>, id: Seq<char>)
    ensures
        ranks_of(all_ranks(lists), id).len() == lists.flatten_alt().to_multiset().count(id),
    decreases lists.len(),
{
    broadcast use vstd::seq_lib::group_to_multiset_ensures;

    if lists.len() == 0 {
        lemma_ranks_absent(all_ranks(lists), id);
    } else {
        let front = lists.drop_last();
        let list = lists.last();
        lemma_rank_total(front, id);
        lemma_ranks_add(all_ranks(front), with_ranks(list), id);
        assert(with_ranks(list).take(list.len() as int) =~= with_ranks(list));
        assert(list.take(list.len() as int) =~= list);
        lemma_list_ranks(list, list.len() as int, id);
        vstd::seq_lib::lemma_multiset_commutative(front.flatten_alt(), list);
    }
}

/// How many ranks the candidate at this place has.
pub open spec fn rank_count(candidates: Seq<(Seq<char>, Seq<nat>)>, k: int) -> int {
    if 0 <= k < candidates.len() {
        candidates[k].1.len() as int
    } else {
        0
    }
}

/// Whether a rank is added to the candidate for an id between two fusions.
pub open spec fn gains(
    before: Seq<(Seq<char>, Seq<nat>)>,
    after: Seq<(Seq<char>, Seq<nat>)>,
    id: Seq<char>,
    rank: nat,
) -> bool {
    exists|k: int, m: int|
        0 <= k < after.len() && rank_count(before, k) <= m < after[k].1.len()
            && #[trigger] after[k].1[m] == rank && after[k].0 == id
}

/// One list more keeps the candidates before it in place, with their ranks,
/// and puts behind them its own: the ranks that it adds to a candidate are the
/// places, counted from 1, at which it holds the id, all of them and in order;
/// the candidates that it adds come in the order of their first places. No list
/// gives no candidate.
pub proof fn law_fusion_grows(lists: Seq<Seq<Seq<char>>>, list: Seq<Seq<char>>)
    ensures
        fusion(Seq::empty()) == Seq::<(Seq<char>, Seq<nat>)>::empty(),
        ({
            let before = fusion(lists);
            let after = fusion(lists.push(list));
            &&& before.len() <= after.len()
            &&& forall|k: int|
                0 <= k < before.len() ==> (#[trigger] after[k]).0 == before[k].0
                    && before[k].1.is_prefix_of(after[k].1)
            &&& forall|k: int, m: int|
                0 <= k < after.len() && rank_count(before, k) <= m < after[k].1.len() ==> 1
                    <= #[trigger] after[k].1[m] <= list.len() && list[after[k].1[m] - 1]
                    == after[k].0
            &&& forall|k: int, m: int, q: int|
                0 <= k < after.len() && rank_count(before, k) <= m < q < after[k].1.len()
                    ==> #[trigger] after[k].1[m] < #[trigger] after[k].1[q]
            &&& forall|j: int|
                0 <= j < list.len() ==> gains(before, after, #[trigger] list[j], (j + 1) as nat)
            &&& forall|k: int, l: int|
                before.len() <= k < l < after.len() ==> (#[trigger] after[k]).1[0]
                    < (#[trigger] after[l]).1[0]
        }),
{
    let none = Seq::<Seq<Seq<char>>>::empty();
    assert(all_ranks(none).len() == 0);
    assert(fusion(none) =~= Seq::<(Seq<char>, Seq<nat>)>::empty());
    let before = fusion(lists);
    let after = fusion(lists.push(list));
    let seen = all_ranks(lists);
    let own = with_ranks(list);
    assert(lists.push(list).drop_last() =~= lists);
    assert(all_ranks(lists.push(list)) == seen + own);
    assert(own.take(list.len() as int) =~= own);
    lemma_new_ids(seen, list, list.len() as int);
    lemma_first_ids(seen);
    lemma_first_ids(seen + own);
    assert forall|k: int| 0 <= k < after.len() implies (#[trigger] after[k]).1.skip(rank_count(before, k))
        == ranks_of(own, after[k].0) && rank_count(before, k) <= after[k].1.len() && (k < before.len()
        ==> after[k].0 == before[k].0 && before[k].1.is_prefix_of(after[k].1)) && (k
        >= before.len() ==> after[k].1 == ranks_of(own, after[k].0)) by {
        let id = first_ids(seen + own)[k];
        lemma_ranks_add(seen, own, id);
        if k < before.len() {
            assert(first_ids(seen)[k] == id);
        } else {
            if first_ids(seen).contains(id) {
                let p = first_ids(seen).index_of(id);
                assert(first_ids(seen + own)[p] == id);
                assert(false);
            }
            assert forall|i: int| 0 <= i < seen.len() implies (#[trigger] seen[i]).0 != id by {
                assert(first_ids(seen).contains(seen[i].0));
            }
            lemma_ranks_absent(seen, id);
        }
        assert(after[k].1.skip(rank_count(before, k)) =~= ranks_of(own, id));
        assert(k >= before.len() ==> after[k].1 =~= ranks_of(own, id));
    }
    assert forall|k: int, m: int|
        0 <= k < after.len() && rank_count(before, k) <= m < after[k].1.len() implies 1
        <= #[trigger] after[k].1[m] <= list.len() && list[after[k].1[m] - 1] == after[k].0 by {
        lemma_list_ranks(list, list.len() as int, after[k].0);
        assert(after[k].1.skip(rank_count(before, k))[m - rank_count(before, k)] == after[k].1[m]);
    }
    assert forall|k: int, m: int, q: int|
        0 <= k < after.len() && rank_count(before, k) <= m < q
            < after[k].1.len() implies #[trigger] after[k].1[m] < #[trigger] after[k].1[q] by {
        lemma_list_ranks(list, list.len() as int, after[k].0);
        assert(after[k].1.skip(rank_count(before, k))[m - rank_count(before, k)] == after[k].1[m]);
        assert(after[k].1.skip(rank_count(before, k))[q - rank_count(before, k)] == after[k].1[q]);
    }
    assert forall|j: int| 0 <= j < list.len() implies gains(
        before,
        after,
        #[trigger] list[j],
        (j + 1) as nat,
    ) by {
        let id = list[j];
        assert((seen + own)[seen.len() + j].0 == id);
        assert(first_ids(seen + own).contains(id));
        let k = first_ids(seen + own).index_of(id);
        assert(after[k].0 == id);
        lemma_list_ranks(list, list.len() as int, id);
        let r = ranks_of(own, id);
        assert(r.contains((j + 1) as nat));
        let q = r.index_of((j + 1) as nat);
        assert(after[k].1.skip(rank_count(before, k))[q] == r[q]);
        assert(after[k].1[rank_count(before, k) + q] == j + 1);
    }
    assert forall|k: int, l: int| before.len() <= k < l < after.len() implies (
    #[trigger] after[k]).1[0] < (#[trigger] after[l]).1[0] by {
        assert(after[k].0 == first_ids(seen + own)[k]);
        assert(after[l].0 == first_ids(seen + own)[l]);
    }
}

// ── results ─────────────────────────────────────────────────────────────────
/// A bounded snippet of a text: its words with single spaces between them, cut
/// to `max` characters with an ellipsis where that is too long.
pub open spec fn snippet_of(s: Seq<char>, max: nat) -> Seq<char> {
    let collapsed = text::joined(text::words(s), seq![' ']);
    if collapsed.len() <= max {
        collapsed
    } else {
        text::trimmed_end(collapsed.take(max as int)).push('\u{2026}')
    }
}

/// Makes a bounded snippet from a chunk's text: collapses white space and cuts
/// to `max` characters, with an ellipsis if something was cut.
pub fn snippet(body: &str, max: usize) -> (r: String)
    ensures
        r@ == snippet_of(body@, max as nat),
{
    let collapsed = text::join(&text::split_white_space(body), " ");
    proof {
        reveal_strlit(" ");
        assert(" "@ =~= seq![' ']);
    }
    let chars = text::chars_of(collapsed.as_str());
    if chars.len() <= max {
        return collapsed;
    }
    let mut cut = text::trim_end_range(&chars, 0, max);
    assert(chars@.subrange(0, max as int) =~= chars@.take(max as int));
    cut.push('\u{2026}');
    cut
}

/// A snippet is longer than `max` by at most the ellipsis, and its white space
/// is single spaces between words.
pub proof fn law_snippet(s: Seq<char>, max: nat)
    ensures
        snippet_of(s, max).len() <= max + 1,
        text::collapsed(snippet_of(s, max)),
{
    let parts = text::words(s);
    assert forall|i: int| 0 <= i < parts.len() implies (#[trigger] parts[i]).len() > 0 by {
        text::lemma_words(s, parts[i]);
    }
    assert forall|i: int, j: int| 0 <= i < parts.len() && 0 <= j < parts[i].len() implies !text::white_space(
        #[trigger] parts[i][j],
    ) by {
        text::lemma_words(s, parts[i]);
    }
    text::lemma_words_collapsed(parts);
    let c = text::joined(parts, seq![' ']);
    if c.len() > max {
        let head = c.take(max as int);
        let b = text::lemma_trimmed_end(head);
        let r = snippet_of(s, max);
        assert forall|i: int| 0 <= i < r.len() && text::white_space(#[trigger] r[i]) implies r[i]
            == ' ' && 0 < i < r.len() - 1 && !text::white_space(r[i - 1]) && !text::white_space(
            r[i + 1],
        ) by {
            assert(i < b);
            assert(r[i] == c[i]);
            assert(text::white_space(c[i]));
            assert(r[i - 1] == c[i - 1]);
            if i + 1 < b {
                assert(r[i + 1] == c[i + 1]);
            }
        }
    }
}

/// A search result for the caller.
#[derive(Debug, Clone, PartialEq, Eq)]
pub struct SearchResult {
    pub path: String,
    pub heading_path: Vec<String>,
    pub snippet: String,
    /// The place in the ranking, counted from 0. The score shown for it is
    /// `1 / (rank + 1)`.
    pub rank: usize,
}

/// What a [`SearchResult`] holds.
#[verifier::ext_equal]
pub struct SearchResultView {
    pub path: Seq<char>,
    pub heading_path: Seq<Seq<char>>,
    pub snippet: Seq<char>,
    pub rank: nat,
}

impl View for SearchResult {
    type V = SearchResultView;

    open spec fn view(&self) -> SearchResultView {
        SearchResultView {
            path: self.path@,
            heading_path: text::texts(self.heading_path@),
            snippet: self.snippet@,
            rank: self.rank as nat,
        }
    }
}

/// The views of a sequence of results.
pub open spec fn result_views(v: Seq<SearchResult>) -> Seq<SearchResultView> {
    v.map_values(|r: SearchResult| r@)
}

/// A text that fits with single spaces between its words is its own snippet so,
/// with the same words. Of a longer one the snippet is the start, cut at `max`
/// characters and at the end of a word, and an ellipsis.
pub proof fn law_snippet_text(s: Seq<char>, max: nat)
    ensures
        ({
            let all = text::joined(text::words(s), seq![' ']);
            let r = snippet_of(s, max);
            &&& all.len() <= max ==> r == all && text::words(r) == text::words(s)
            &&& all.len() > max ==> {
                &&& 0 < r.len() <= max + 1
                &&& r.last() == '\u{2026}'
                &&& r.drop_last() == all.take(r.len() - 1)
                &&& forall|i: int| r.len() - 1 <= i < max ==> text::white_space(#[trigger] all[i])
                &&& r.len() > 1 ==> !text::white_space(all[r.len() - 2])
            }
        }),
{
    let parts = text::words(s);
    assert forall|i: int| 0 <= i < parts.len() implies (#[trigger] parts[i]).len() > 0 by {
        text::lemma_words(s, parts[i]);
    }
    assert forall|i: int, j: int| 0 <= i < parts.len() && 0 <= j < parts[i].len() implies !text::white_space(
        #[trigger] parts[i][j],
    ) by {
        text::lemma_words(s, parts[i]);
    }
    text::law_words_of_joined(parts);
    let all = text::joined(parts, seq![' ']);
    if all.len() > max {
        let head = all.take(max as int);
        let b = text::lemma_trimmed_end(head);
        let r = snippet_of(s, max);
        assert(r.drop_last() =~= all.take(b));
        assert forall|i: int| r.len() - 1 <= i < max implies text::white_space(
            #[trigger] all[i],
        ) by {
            assert(head[i] == all[i]);
        }
    }
}

/// The name of a mode is one of three; without one, the mode is `hybrid`.
pub proof fn law_modes(name: Seq<char>)
    ensures
        named_mode(None) == Some(SearchMode::Hybrid),
        named_mode(Some(name)) == Some(SearchMode::Hybrid) <==> name == "hybrid"@,
        named_mode(Some(name)) == Some(SearchMode::Text) <==> name == "text"@,
        named_mode(Some(name)) == Some(SearchMode::Semantic) <==> name == "semantic"@,
{
    reveal_strlit("hybrid");
    reveal_strlit("text");
    reveal_strlit("semantic");
    assert("hybrid"@.len() == 6 && "text"@.len() == 4 && "semantic"@.len() == 8);
}

/// An optional string is there with its whole text or not at all.
pub proof fn law_opt_text(s: Option<&str>)
    ensures
        opt_text(s) is Some <==> s is Some,
        s is Some ==> opt_text(s)->0 == s->0@,
{
}

/// The message on an unknown mode quotes the mode whole.
pub proof fn law_unknown_mode_text(e: UnknownMode)
    ensures
        e.text().len() == "unknown mode '"@.len() + e.mode@.len()
            + "' (expected hybrid | text | semantic)"@.len(),
        e.text().subrange(
            "unknown mode '"@.len() as int,
            ("unknown mode '"@.len() + e.mode@.len()) as int,
        ) == e.mode@,
{
    assert(e.text().subrange(
        "unknown mode '"@.len() as int,
        ("unknown mode '"@.len() + e.mode@.len()) as int,
    ) =~= e.mode@);
}

/// Scores are ordered as the numbers whose bits they are: positive ones by
/// their bits, negative ones the other way round and below them, and the two
/// zeros alike.
pub proof fn law_score_order(a: u32, b: u32)
    ensures
        a < 0x8000_0000 && b < 0x8000_0000 ==> (score_place(a) < score_place(b) <==> a < b),
        a >= 0x8000_0000 && b >= 0x8000_0000 ==> (score_place(a) < score_place(b) <==> a > b),
        a > 0x8000_0000 && b < 0x8000_0000 ==> score_place(a) < score_place(b),
        score_place(0x8000_0000) == score_place(0),
        score_place(a) == score_place(b) ==> a == b || (score_place(a) == 0 && (a == 0 || a
            == 0x8000_0000) && (b == 0 || b == 0x8000_0000)),
{
}

/// The views of scored ids, candidates, lists and results hold what these hold,
/// one for one.
pub proof fn law_search_views(
    scored: Seq<Scored>,
    candidates: Seq<FusionCandidate>,
    lists: Seq<Vec<String>>,
    results: Seq<SearchResult>,
)
    ensures
        scored_views(scored).len() == scored.len(),
        forall|i: int|
            #![trigger scored_views(scored)[i]]
            0 <= i < scored.len() ==> scored_views(scored)[i].0 == scored[i].id@ && scored_views(
                scored,
            )[i].1 == scored[i].score,
        candidate_views(candidates).len() == candidates.len(),
        forall|i: int|
            #![trigger candidate_views(candidates)[i]]
            0 <= i < candidates.len() ==> candidate_views(candidates)[i].0 == candidates[i].id@
                && candidate_views(candidates)[i].1.len() == candidates[i].ranks@.len(),
        forall|i: int, m: int|
            0 <= i < candidates.len() && 0 <= m < candidates[i].ranks@.len()
                ==> #[trigger] candidate_views(candidates)[i].1[m] == candidates[i].ranks@[m],
        list_views(lists).len() == lists.len(),
        forall|i: int|
            #![trigger list_views(lists)[i]]
            0 <= i < lists.len() ==> list_views(lists)[i].len() == lists[i]@.len(),
        forall|i: int, j: int|
            0 <= i < lists.len() && 0 <= j < lists[i]@.len() ==> #[trigger] list_views(lists)[i][j]
                == lists[i]@[j]@,
        result_views(results).len() == results.len(),
        forall|i: int|
            #![trigger result_views(results)[i]]
            0 <= i < results.len() ==> result_views(results)[i].path == results[i].path@
                && result_views(results)[i].snippet == results[i].snippet@ && result_views(
                results,
            )[i].rank == results[i].rank && result_views(results)[i].heading_path.len()
                == results[i].heading_path@.len(),
        forall|i: int, j: int|
            0 <= i < results.len() && 0 <= j < results[i].heading_path@.len()
                ==> #[trigger] result_views(results)[i].heading_path[j]
                == results[i].heading_path@[j]@,
{
}

} // verus!
