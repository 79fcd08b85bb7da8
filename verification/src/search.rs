//! Ranking of scored candidates: best score first, cut to the number asked for.
//!
//! A score is carried as the bit pattern of an IEEE-754 binary32 number. The
//! top bit is the sign; the remaining 31 bits, the magnitude, grow with the
//! absolute value of the number. Magnitudes above `0x7f80_0000` are not
//! numbers. Scores are therefore ordered here without any floating-point
//! arithmetic, by one integer key per score.

use crate::text::{id_before, lemma_id_before_strict_total, text_before};
use vstd::prelude::*;

verus! {

/// Number of hits a search returns when the caller names none.
pub open spec fn spec_default_top_k() -> usize {
    5
}

/// The number of hits returned when a request leaves `top_k` out.
#[verifier::when_used_as_spec(spec_default_top_k)]
pub fn default_top_k() -> (k: usize)
    ensures
        k == 5,
{
    5
}

/// One candidate of a search: an identifier and the bit pattern of its score.
#[derive(Clone, Debug, PartialEq, Eq)]
pub struct Hit {
    pub id: String,
    pub score: u32,
}

/// The integer by which a score is ordered. A positive number has its
/// magnitude as key, a negative number the negated magnitude, so both zeros
/// share the key 0 and a larger number has a larger key. A pattern that is not
/// a number has a key below that of every number.
pub open spec fn spec_score_key(bits: u32) -> int {
    let magnitude = bits as int % 0x8000_0000;
    if magnitude > 0x7f80_0000 {
        -0x8000_0000
    } else if bits < 0x8000_0000 {
        magnitude
    } else {
        -magnitude
    }
}

/// The integer by which the score with these bits is ordered.
pub fn score_key(bits: u32) -> (key: i64)
    ensures
        key == spec_score_key(bits),
{
    let negative = bits >= 0x8000_0000;
    let magnitude: u32 = if negative {
        bits - 0x8000_0000
    } else {
        bits
    };
    if magnitude > 0x7f80_0000 {
        -0x8000_0000
    } else if negative {
        -(magnitude as i64)
    } else {
        magnitude as i64
    }
}

/// Whether `a` stands before `b` in a ranking: `a` has the higher score, or
/// the scores tie and the identifier of `a` precedes that of `b`.
pub open spec fn spec_outranks(a: Hit, b: Hit) -> bool {
    spec_score_key(a.score) > spec_score_key(b.score) || (spec_score_key(a.score)
        == spec_score_key(b.score) && id_before(a.id@, b.id@))
}

/// Whether `a` stands before `b` in a ranking.
pub fn outranks(a: &Hit, b: &Hit) -> (before: bool)
    ensures
        before == spec_outranks(*a, *b),
{
    let x = score_key(a.score);
    let y = score_key(b.score);
    if x != y {
        x > y
    } else {
        text_before(a.id.as_str(), b.id.as_str())
    }
}

/// No hit of `hits` stands after one that it outranks.
pub open spec fn is_ranked(hits: Seq<Hit>) -> bool {
    forall|i: int, j: int| 0 <= i < j < hits.len() ==> !spec_outranks(hits[j], hits[i])
}

/// Where `hit` enters `ranked`: behind the leading hits that it does not
/// outrank, so that among equals the one that came first stays first.
pub open spec fn entry_position(ranked: Seq<Hit>, hit: Hit) -> int
    decreases ranked.len(),
{
    if ranked.len() == 0 || spec_outranks(hit, ranked[0]) {
        0
    } else {
        1 + entry_position(ranked.drop_first(), hit)
    }
}

/// The hits in ranked order: each hit, first to last, enters the ranking of
/// those before it at its entry position.
pub open spec fn ranking(hits: Seq<Hit>) -> Seq<Hit>
    decreases hits.len(),
{
    if hits.len() == 0 {
        Seq::empty()
    } else {
        let ranked = ranking(hits.drop_last());
        ranked.insert(entry_position(ranked, hits.last()), hits.last())
    }
}

/// The result of a search: the first `top_k` hits of the ranking, or all of
/// them where there are fewer.
pub open spec fn top_hits(hits: Seq<Hit>, top_k: nat) -> Seq<Hit> {
    ranking(hits).take(
        if top_k <= hits.len() {
            top_k as int
        } else {
            hits.len() as int
        },
    )
}

/// `spec_outranks` is a strict order: no hit outranks itself, and the relation
/// is transitive.
pub proof fn lemma_outranks_strict(a: Hit, b: Hit, c: Hit)
    ensures
        !spec_outranks(a, a),
        spec_outranks(a, b) && spec_outranks(b, c) ==> spec_outranks(a, c),
        spec_outranks(a, b) ==> !spec_outranks(b, a),
{
    lemma_id_before_strict_total(a.id@, b.id@, c.id@);
}

/// Two hits of which neither outranks the other have scores with the same key
/// and the same identifier.
pub proof fn lemma_outranks_total(a: Hit, b: Hit)
    ensures
        !spec_outranks(a, b) && !spec_outranks(b, a) ==> spec_score_key(a.score) == spec_score_key(
            b.score,
        ) && a.id@ == b.id@,
{
    lemma_id_before_strict_total(a.id@, b.id@, b.id@);
}

/// The entry position lies within the ranking; the hit outranks none of the
/// hits before it and outranks the hit at it.
pub proof fn lemma_entry_position(ranked: Seq<Hit>, hit: Hit)
    ensures
        0 <= entry_position(ranked, hit) <= ranked.len(),
        forall|k: int| 0 <= k < entry_position(ranked, hit) ==> !spec_outranks(hit, ranked[k]),
        entry_position(ranked, hit) < ranked.len() ==> spec_outranks(
            hit,
            ranked[entry_position(ranked, hit)],
        ),
    decreases ranked.len(),
{
    if ranked.len() == 0 || spec_outranks(hit, ranked[0]) {
    } else {
        let rest = ranked.drop_first();
        lemma_entry_position(rest, hit);
        let p = entry_position(rest, hit);
        assert forall|k: int| 0 <= k < p + 1 implies !spec_outranks(hit, ranked[k]) by {
            if k > 0 {
                assert(ranked[k] == rest[k - 1]);
            }
        }
        if p < rest.len() {
            assert(ranked[p + 1] == rest[p]);
        }
    }
}

/// A position behind hits that `hit` does not outrank, and at a hit that it
/// outranks or at the end, is the entry position.
proof fn lemma_entry_position_found(ranked: Seq<Hit>, hit: Hit, p: int)
    requires
        0 <= p <= ranked.len(),
        forall|k: int| 0 <= k < p ==> !spec_outranks(hit, ranked[k]),
        p < ranked.len() ==> spec_outranks(hit, ranked[p]),
    ensures
        entry_position(ranked, hit) == p,
    decreases ranked.len(),
{
    if p > 0 {
        let rest = ranked.drop_first();
        assert(!spec_outranks(hit, ranked[0]));
        assert forall|k: int| 0 <= k < p - 1 implies !spec_outranks(hit, rest[k]) by {
            assert(rest[k] == ranked[k + 1]);
        }
        if p - 1 < rest.len() {
            assert(rest[p - 1] == ranked[p]);
        }
        lemma_entry_position_found(rest, hit, p - 1);
    }
}

/// The ranking holds exactly the hits it was given, each as often as given.
pub proof fn lemma_ranking_permutes(hits: Seq<Hit>)
    ensures
        ranking(hits).len() == hits.len(),
        ranking(hits).to_multiset() == hits.to_multiset(),
    decreases hits.len(),
{
    if hits.len() == 0 {
        assert(hits =~= Seq::empty());
    } else {
        let front = hits.drop_last();
        let ranked = ranking(front);
        lemma_ranking_permutes(front);
        lemma_entry_position(ranked, hits.last());
        vstd::seq_lib::to_multiset_insert(ranked, entry_position(ranked, hits.last()), hits.last());
        vstd::seq_lib::to_multiset_build(front, hits.last());
        assert(front.push(hits.last()) =~= hits);
    }
}

/// The ranking is in ranked order: best score first, and among equal scores
/// the identifiers ascending.
pub proof fn lemma_ranking_is_ranked(hits: Seq<Hit>)
    ensures
        is_ranked(ranking(hits)),
    decreases hits.len(),
{
    if hits.len() > 0 {
        let ranked = ranking(hits.drop_last());
        let hit = hits.last();
        let p = entry_position(ranked, hit);
        let out = ranked.insert(p, hit);
        lemma_ranking_is_ranked(hits.drop_last());
        lemma_ranking_permutes(hits.drop_last());
        lemma_entry_position(ranked, hit);
        assert forall|i: int, j: int| 0 <= i < j < out.len() implies !spec_outranks(
            out[j],
            out[i],
        ) by {
            if j == p {
                assert(out[i] == ranked[i]);
                lemma_outranks_strict(hit, ranked[i], hit);
            } else if i == p {
                assert(out[j] == ranked[j - 1]);
                if j - 1 > p {
                    assert(!spec_outranks(ranked[j - 1], ranked[p]));
                }
                lemma_outranks_strict(ranked[j - 1], hit, ranked[p]);
            } else {
                let a = if i < p {
                    i
                } else {
                    i - 1
                };
                let b = if j < p {
                    j
                } else {
                    j - 1
                };
                assert(out[i] == ranked[a]);
                assert(out[j] == ranked[b]);
                assert(!spec_outranks(ranked[b], ranked[a]));
            }
        }
    }
}

/// A search returns as many hits as were asked for, or all where there are
/// fewer.
pub proof fn lemma_top_hits_len(hits: Seq<Hit>, top_k: nat)
    ensures
        top_hits(hits, top_k).len() == if top_k <= hits.len() {
            top_k
        } else {
            hits.len()
        },
        is_ranked(top_hits(hits, top_k)),
{
    lemma_ranking_permutes(hits);
    lemma_ranking_is_ranked(hits);
}

/// No identifier occurs twice among `hits`.
pub open spec fn hit_ids_distinct(hits: Seq<Hit>) -> bool {
    forall|i: int, j: int| 0 <= i < j < hits.len() ==> hits[i].id@ != hits[j].id@
}

/// What a search cuts off never outranks what it keeps: the result is the
/// head of the ranking, and no hit behind it outranks a hit in it.
pub proof fn lemma_cut_hits_do_not_outrank_kept(hits: Seq<Hit>, top_k: nat)
    ensures
        forall|i: int, j: int|
            0 <= i < top_hits(hits, top_k).len() <= j < hits.len() ==> top_hits(hits, top_k)[i]
                == ranking(hits)[i] && !spec_outranks(ranking(hits)[j], ranking(hits)[i]),
{
    lemma_ranking_permutes(hits);
    lemma_ranking_is_ranked(hits);
}

/// Two ranked sequences that hold the same hits, none of them sharing an
/// identifier with another, are the same sequence.
pub proof fn lemma_ranked_unique(x: Seq<Hit>, y: Seq<Hit>)
    requires
        is_ranked(x),
        is_ranked(y),
        hit_ids_distinct(x),
        x.to_multiset() == y.to_multiset(),
    ensures
        x == y,
    decreases x.len(),
{
    broadcast use vstd::multiset::group_multiset_axioms;
    broadcast use vstd::seq_lib::group_to_multiset_ensures;

    x.to_multiset_ensures();
    y.to_multiset_ensures();
    if x.len() == 0 {
        assert(y.len() == 0);
        assert(x =~= y);
    } else {
        assert(y.len() == x.len());
        assert(x.to_multiset().contains(x[0]));
        assert(y.to_multiset().contains(y[0]));
        assert(y.contains(x[0]));
        assert(x.contains(y[0]));
        let i = choose|i: int| 0 <= i < x.len() && x[i] == y[0];
        let j = choose|j: int| 0 <= j < y.len() && y[j] == x[0];
        if i != 0 {
            assert(!spec_outranks(x[i], x[0]));
            if j != 0 {
                assert(!spec_outranks(y[j], y[0]));
            } else {
                lemma_outranks_strict(x[0], x[0], x[0]);
            }
            lemma_outranks_total(x[0], x[i]);
            assert(x[0].id@ != x[i].id@);
            assert(false);
        }
        assert(x[0] == y[0]);
        let xs = x.drop_first();
        let ys = y.drop_first();
        assert(xs.to_multiset() =~= x.to_multiset().remove(x[0])) by {
            vstd::seq_lib::to_multiset_remove(x, 0);
            assert(x.remove(0) =~= xs);
        }
        assert(ys.to_multiset() =~= y.to_multiset().remove(y[0])) by {
            vstd::seq_lib::to_multiset_remove(y, 0);
            assert(y.remove(0) =~= ys);
        }
        assert(is_ranked(xs)) by {
            assert forall|a: int, b: int| 0 <= a < b < xs.len() implies !spec_outranks(
                xs[b],
                xs[a],
            ) by {
                assert(!spec_outranks(x[b + 1], x[a + 1]));
            }
        }
        assert(is_ranked(ys)) by {
            assert forall|a: int, b: int| 0 <= a < b < ys.len() implies !spec_outranks(
                ys[b],
                ys[a],
            ) by {
                assert(!spec_outranks(y[b + 1], y[a + 1]));
            }
        }
        assert(hit_ids_distinct(xs)) by {
            assert forall|a: int, b: int| 0 <= a < b < xs.len() implies xs[a].id@
                != xs[b].id@ by {
                assert(x[a + 1].id@ != x[b + 1].id@);
            }
        }
        lemma_ranked_unique(xs, ys);
        assert(x =~= seq![x[0]] + xs);
        assert(y =~= seq![y[0]] + ys);
    }
}

/// Ranking keeps identifiers apart: where no two hits share an identifier,
/// no two hits of the ranking do.
proof fn lemma_ranking_keeps_ids_distinct(hits: Seq<Hit>)
    requires
        hit_ids_distinct(hits),
    ensures
        hit_ids_distinct(ranking(hits)),
    decreases hits.len(),
{
    if hits.len() > 0 {
        let front = hits.drop_last();
        let hit = hits.last();
        let ranked = ranking(front);
        let p = entry_position(ranked, hit);
        let out = ranked.insert(p, hit);
        assert(hit_ids_distinct(front)) by {
            assert forall|a: int, b: int| 0 <= a < b < front.len() implies front[a].id@
                != front[b].id@ by {
                assert(hits[a].id@ != hits[b].id@);
            }
        }
        lemma_ranking_keeps_ids_distinct(front);
        lemma_ranking_permutes(front);
        lemma_entry_position(ranked, hit);
        assert forall|k: int| 0 <= k < ranked.len() implies ranked[k].id@ != hit.id@ by {
            broadcast use vstd::seq_lib::group_to_multiset_ensures;

            ranked.to_multiset_ensures();
            front.to_multiset_ensures();
            assert(ranked.to_multiset().contains(ranked[k]));
            assert(front.contains(ranked[k]));
            let a = choose|a: int| 0 <= a < front.len() && front[a] == ranked[k];
            assert(hits[a].id@ != hits[hits.len() - 1].id@);
        }
        assert forall|a: int, b: int| 0 <= a < b < out.len() implies out[a].id@
            != out[b].id@ by {
            let a0 = if a < p {
                a
            } else {
                a - 1
            };
            let b0 = if b < p {
                b
            } else {
                b - 1
            };
            if a == p {
                assert(out[b] == ranked[b0]);
            } else if b == p {
                assert(out[a] == ranked[a0]);
            } else {
                assert(out[a] == ranked[a0]);
                assert(out[b] == ranked[b0]);
                assert(ranked[a0].id@ != ranked[b0].id@);
            }
        }
    }
}

/// The result of a search does not depend on the order in which the
/// candidates are handed in: two lists of the same hits, no identifier
/// occurring twice, give the same result.
pub proof fn lemma_search_ignores_candidate_order(a: Seq<Hit>, b: Seq<Hit>, top_k: nat)
    requires
        hit_ids_distinct(a),
        a.to_multiset() == b.to_multiset(),
    ensures
        ranking(a) == ranking(b),
        top_hits(a, top_k) == top_hits(b, top_k),
{
    lemma_ranking_permutes(a);
    lemma_ranking_permutes(b);
    lemma_ranking_is_ranked(a);
    lemma_ranking_is_ranked(b);
    lemma_ranking_keeps_ids_distinct(a);
    lemma_ranked_unique(ranking(a), ranking(b));
}

/// Ranks `candidates` and keeps the first `top_k` of them: best score first,
/// ties by ascending identifier, hits that tie on both in the order given.
/// With `top_k` 0, or without candidates, the result is empty.
pub fn search(candidates: Vec<Hit>, top_k: usize) -> (hits: Vec<Hit>)
    ensures
        hits@ == top_hits(candidates@, top_k as nat),
        hits@.len() == if top_k <= candidates@.len() {
            top_k as int
        } else {
            candidates@.len() as int
        },
        is_ranked(hits@),
{
    let ghost given = candidates@;
    let mut hits = candidates;
    let n: usize = hits.len();
    let mut i: usize = 0;
    proof {
        assert(hits@.take(0) =~= ranking(given.take(0)));
    }
    while i < n
        invariant
            i <= n,
            n == given.len(),
            hits@.len() == n,
            hits@.take(i as int) == ranking(given.take(i as int)),
            forall|k: int| i <= k < n ==> hits@[k] == given[k],
        decreases n - i,
    {
        let ghost ranked = hits@.take(i as int);
        let ghost before = hits@;
        let hit = hits.remove(i);
        let mut j: usize = 0;
        let mut found = false;
        while j < i && !found
            invariant
                j <= i,
                i < n,
                hits@.len() == n - 1,
                hits@.take(i as int) == ranked,
                forall|k: int| 0 <= k < j ==> !spec_outranks(hit, ranked[k]),
                found ==> j < i && spec_outranks(hit, ranked[j as int]),
            decreases i - j + if found { 0int } else { 1int },
        {
            proof {
                assert(hits@[j as int] == hits@.take(i as int)[j as int]);
            }
            if outranks(&hit, &hits[j]) {
                found = true;
            } else {
                j += 1;
            }
        }
        hits.insert(j, hit);
        proof {
            assert(before.remove(i as int).take(i as int) =~= ranked);
            lemma_entry_position_found(ranked, hit, j as int);
            assert(given.take(i + 1).drop_last() =~= given.take(i as int));
            assert(given.take(i + 1).last() == given[i as int]);
            assert(hits@.take(i + 1) =~= ranked.insert(j as int, hit));
            assert forall|k: int| i + 1 <= k < n implies hits@[k] == given[k] by {
                assert(hits@[k] == before.remove(i as int)[k - 1]);
                assert(before[k] == given[k]);
            }
        }
        i += 1;
    }
    proof {
        assert(hits@.take(n as int) =~= hits@);
        assert(given.take(n as int) =~= given);
        lemma_top_hits_len(given, top_k as nat);
    }
    hits.truncate(top_k);
    proof {
        assert(hits@ =~= top_hits(given, top_k as nat));
    }
    hits
}

} // verus!
