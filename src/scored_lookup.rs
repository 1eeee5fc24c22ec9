use vstd::prelude::*;

use crate::error::{IdxError, IdxResult, IndexingError};
use crate::lookup::{keys_of, names_under, texts, Lookup};
use crate::names::ObjectName;

verus! {

broadcast use vstd::seq_lib::group_to_multiset_ensures;

/// A hit of a ranked search: an item with the rank of its score. Ranks
/// order as scores do, and a larger rank is a better match.
pub struct RankedHit<T> {
    rank: i64,
    item: T,
}

impl<T: View> View for RankedHit<T> {
    type V = (i64, T::V);

    closed spec fn view(&self) -> (i64, T::V) {
        (self.rank, self.item@)
    }
}

impl<T> RankedHit<T> {
    /// The rank of this hit.
    pub closed spec fn spec_rank(&self) -> i64 {
        self.rank
    }

    /// The item of this hit.
    pub closed spec fn spec_item(&self) -> T {
        self.item
    }

    /// A hit of `item` with rank `rank`.
    pub fn new(rank: i64, item: T) -> (r: Self)
        ensures
            r.spec_rank() == rank,
            r.spec_item() == item,
    {
        Self { rank, item }
    }

    /// The rank of this hit.
    pub fn rank(&self) -> (r: i64)
        ensures
            r == self.spec_rank(),
    {
        self.rank
    }

    /// The item of this hit.
    pub fn item(&self) -> (r: &T)
        ensures
            *r == self.spec_item(),
    {
        &self.item
    }

    /// Hands back the item.
    pub fn into_item(self) -> (r: T)
        ensures
            r == self.spec_item(),
    {
        self.item
    }
}

/// The (rank, name) pairs of a list of hits.
pub open spec fn hit_views(hits: Seq<RankedHit<ObjectName>>) -> Seq<(i64, Seq<char>)> {
    hits.map_values(|h: RankedHit<ObjectName>| h@)
}

/// Ranks never grow from first to last.
pub open spec fn descending(hits: Seq<(i64, Seq<char>)>) -> bool {
    forall|i: int, j: int| 0 <= i < j < hits.len() ==> #[trigger] hits[i].0 >= #[trigger] hits[j].0
}

/// Each name filed under one key, paired with that key's rank.
pub open spec fn rank_names(names: Seq<Seq<char>>, rank: i64) -> Seq<(i64, Seq<char>)> {
    names.map_values(|n: Seq<char>| (rank, n))
}

/// One hit per name under each of `keys`, key by key, each with its key's
/// rank.
pub open spec fn hits_of<K>(m: Map<K, Seq<Seq<char>>>, keys: Seq<K>, ranks: Seq<i64>) -> Seq<
    (i64, Seq<char>),
>
    decreases keys.len(),
{
    if keys.len() == 0 {
        Seq::empty()
    } else {
        hits_of(m, keys.drop_last(), ranks.drop_last()) + rank_names(
            names_under(m, keys.last()),
            ranks[keys.len() - 1],
        )
    }
}

/// `hits` holds exactly the hits of `keys` ranked by `ranks`, best first.
pub open spec fn is_ranking<K>(
    hits: Seq<(i64, Seq<char>)>,
    m: Map<K, Seq<Seq<char>>>,
    keys: Seq<K>,
    ranks: Seq<i64>,
) -> bool {
    &&& hits.to_multiset() == hits_of(m, keys, ranks).to_multiset()
    &&& descending(hits)
}

/// Every score is a number.
pub open spec fn all_ranked(ranks: Seq<Result<i64, IndexingError>>) -> bool {
    forall|i: int| 0 <= i < ranks.len() ==> (#[trigger] ranks[i]) is Ok
}

/// The ranks of scores that are all numbers.
pub open spec fn rank_values(ranks: Seq<Result<i64, IndexingError>>) -> Seq<i64> {
    ranks.map_values(|r: Result<i64, IndexingError>| r->Ok_0)
}

/// `e` reports the first score that is not a number.
pub open spec fn first_unranked_is(ranks: Seq<Result<i64, IndexingError>>, e: IdxError) -> bool {
    exists|i: int|
        0 <= i < ranks.len() && (#[trigger] ranks[i]) is Err && (forall|j: int|
            0 <= j < i ==> (#[trigger] ranks[j]) is Ok) && e == IdxError::IndexingError(
            ranks[i]->Err_0,
        )
}

/// Orders hits by rank, best first, keeping the order of equal ranks.
fn sort_by_rank<'a>(hits: Vec<RankedHit<ObjectName<'a>>>) -> (r: Vec<RankedHit<ObjectName<'a>>>)
    ensures
        hit_views(r@).to_multiset() == hit_views(hits@).to_multiset(),
        descending(hit_views(r@)),
{
    let ghost all = hits@;
    let mut out: Vec<RankedHit<ObjectName<'a>>> = Vec::with_capacity(hits.len());
    proof {
        assert(hit_views(out@) =~= hit_views(all.take(0)));
    }
    for h in it: hits.into_iter()
        invariant
            it.seq() == all,
            hit_views(out@).to_multiset() == hit_views(all.take(it.index())).to_multiset(),
            descending(hit_views(out@)),
    {
        let ghost i = it.index();
        let ghost before = hit_views(out@);
        let mut p: usize = 0;
        while p < out.len() && out[p].rank >= h.rank
            invariant
                0 <= p <= out.len(),
                before == hit_views(out@),
                forall|q: int| 0 <= q < p ==> (#[trigger] before[q]).0 >= h.rank,
            decreases out.len() - p,
        {
            p = p + 1;
        }
        let ghost hv = h@;
        out.insert(p, h);
        proof {
            assert(hit_views(out@) =~= before.insert(p as int, hv));
            assert(hit_views(all.take(i + 1)) =~= hit_views(all.take(i)).push(hv));
            if p < before.len() {
                assert(before[p as int].0 < hv.0);
            }
            assert forall|a: int, b: int|
                0 <= a < b < hit_views(out@).len() implies #[trigger] hit_views(out@)[a].0
                >= #[trigger] hit_views(out@)[b].0 by {
                let s = hit_views(out@);
                if a < p && b < p {
                    assert(s[a] == before[a] && s[b] == before[b]);
                } else if a < p && b == p {
                    assert(s[a] == before[a]);
                } else if a < p {
                    assert(s[a] == before[a] && s[b] == before[b - 1]);
                } else if a == p {
                    assert(s[b] == before[b - 1]);
                    assert(before[p as int].0 >= before[b - 1].0);
                } else {
                    assert(s[a] == before[a - 1] && s[b] == before[b - 1]);
                }
            }
        }
    }
    proof {
        assert(all.take(all.len() as int) =~= all);
    }
    out
}

/// Ranks every object filed under `keys`: the hits of each key take its
/// rank, and all hits come back best first, equal ranks in no set order.
/// A score that is not a number (an `Err` in `ranks`) aborts the search
/// with its error.
pub fn rank_hits<'a, L: Lookup<'a>>(
    lookup: &'a L,
    keys: &Vec<&'a L::Key>,
    ranks: Vec<Result<i64, IndexingError>>,
) -> (r: IdxResult<Vec<RankedHit<ObjectName<'a>>>>)
    requires
        lookup.ready(),
        keys.len() == ranks.len(),
    ensures
        r is Ok ==> all_ranked(ranks@),
        r matches Ok(hits) ==> is_ranking(
            hit_views(hits@),
            lookup.contents(),
            keys_of(keys@),
            rank_values(ranks@),
        ),
        lookup.infallible() ==> (r is Ok <==> all_ranked(ranks@)),
        lookup.infallible() ==> (r matches Err(e) ==> first_unranked_is(ranks@, e)),
{
    let ghost all = ranks@;
    let ghost ks = keys_of(keys@);
    let ghost m = lookup.contents();
    let mut hits: Vec<RankedHit<ObjectName<'a>>> = Vec::new();
    let mut j: usize = 0;
    proof {
        assert(hit_views(hits@) =~= hits_of(m, ks.take(0), rank_values(all.take(0))));
    }
    for rank in it: ranks.into_iter()
        invariant
            it.seq() == all,
            j == it.index(),
            all.len() == keys.len(),
            ks == keys_of(keys@),
            m == lookup.contents(),
            lookup.ready(),
            all_ranked(all.take(j as int)),
            hit_views(hits@) == hits_of(m, ks.take(j as int), rank_values(all.take(j as int))),
    {
        let rank = match rank {
            Ok(v) => v,
            Err(e) => {
                proof {
                    assert forall|q: int| 0 <= q < j implies (#[trigger] all[q]) is Ok by {
                        assert(all.take(j as int)[q] == all[q]);
                    }
                }
                return Err(IdxError::IndexingError(e));
            },
        };
        let objs = lookup.get(keys[j])?;
        let ghost start = hit_views(hits@);
        let ghost names = names_under(m, ks[j as int]);
        for q in 0..objs.len()
            invariant
                hit_views(hits@) == start + rank_names(texts(objs@).take(q as int), rank),
        {
            let ghost prev = hits@;
            let h = RankedHit { rank, item: objs[q] };
            assert(h@ == (rank, texts(objs@)[q as int]));
            hits.push(h);
            assert(hit_views(hits@) =~= hit_views(prev).push(h@));
            assert(rank_names(texts(objs@).take(q + 1), rank) =~= rank_names(
                texts(objs@).take(q as int),
                rank,
            ).push((rank, objs@[q as int]@)));
            assert(hit_views(hits@) =~= start + rank_names(texts(objs@).take(q + 1), rank));
        }
        proof {
            assert(texts(objs@).take(objs.len() as int) =~= texts(objs@));
            assert(ks.take(j + 1).drop_last() =~= ks.take(j as int));
            assert(rank_values(all.take(j + 1)).drop_last() =~= rank_values(all.take(j as int)));
            assert forall|q: int| 0 <= q < j + 1 implies (#[trigger] all.take(j + 1)[q]) is Ok by {
                if q < j {
                    assert(all.take(j as int)[q] == all.take(j + 1)[q]);
                }
            }
        }
        j = j + 1;
    }
    proof {
        assert(all.take(all.len() as int) =~= all);
        assert(ks.take(ks.len() as int) =~= ks);
    }
    Ok(sort_by_rank(hits))
}

/// Ranking is deterministic up to the order of equal ranks: two searches
/// over the same index with the same keys and ranks return the same
/// (rank, name) pairs, each best first.
pub proof fn lemma_ranking_deterministic<'a, L: Lookup<'a>>(
    lookup: &'a L,
    keys: &Vec<&'a L::Key>,
    ranks: Vec<Result<i64, IndexingError>>,
    first: IdxResult<Vec<RankedHit<ObjectName<'a>>>>,
    second: IdxResult<Vec<RankedHit<ObjectName<'a>>>>,
)
    requires
        call_ensures(rank_hits::<L>, (lookup, keys, ranks), first),
        call_ensures(rank_hits::<L>, (lookup, keys, ranks), second),
        first is Ok,
        second is Ok,
    ensures
        hit_views(first->Ok_0@).to_multiset() == hit_views(second->Ok_0@).to_multiset(),
        descending(hit_views(first->Ok_0@)),
        descending(hit_views(second->Ok_0@)),
{
}

} // verus!
