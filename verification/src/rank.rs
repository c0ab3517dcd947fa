use vstd::prelude::*;
use vstd::multiset::Multiset;
use crate::order::{
    lex_lt, str_lt, str_eq, is_nan_bits, score_is_nan, score_key, score_key_exec,
    lemma_lex_connected, lemma_lex_asymmetric, lemma_lex_transitive,
};

verus! {

/// One scored search hit: the ids of the chunk and the bit pattern of its
/// cosine-similarity score, an IEEE-754 single-precision value.
pub struct ScoredHit {
    pub doc_id: String,
    pub chunk_id: String,
    pub score_bits: u32,
}

/// Whether two hits name the same chunk.
pub open spec fn same_ids(a: ScoredHit, b: ScoredHit) -> bool {
    a.doc_id@ == b.doc_id@ && a.chunk_id@ == b.chunk_id@
}

/// No two hits name the same chunk.
pub open spec fn distinct_ids(s: Seq<ScoredHit>) -> bool {
    forall|i: int, j: int| 0 <= i < j < s.len() ==> !same_ids(s[i], s[j])
}

/// The ranking order: a higher score ranks first; among equal scores the
/// lexicographically smaller document id, then the smaller chunk id. Score
/// bits are compared through their order-preserving key, so this agrees
/// with comparing the scores numerically whenever neither is NaN.
pub open spec fn hit_le(a: ScoredHit, b: ScoredHit) -> bool {
    let ka = score_key(a.score_bits);
    let kb = score_key(b.score_bits);
    ||| ka > kb
    ||| (ka == kb && lex_lt(a.doc_id@, b.doc_id@))
    ||| (ka == kb && a.doc_id@ == b.doc_id@ && (lex_lt(a.chunk_id@, b.chunk_id@) || a.chunk_id@
        == b.chunk_id@))
}

/// Hits ranked best to worst.
pub open spec fn sorted_hits(s: Seq<ScoredHit>) -> bool {
    forall|i: int, j: int| 0 <= i < j < s.len() ==> hit_le(s[i], s[j])
}

/// The hits whose score is not NaN; only these are ranked, in the order
/// they were given.
pub open spec fn valid_hits(s: Seq<ScoredHit>) -> Seq<ScoredHit>
    decreases s.len(),
{
    if s.len() == 0 {
        s
    } else if is_nan_bits(s.last().score_bits) {
        valid_hits(s.drop_last())
    } else {
        valid_hits(s.drop_last()).push(s.last())
    }
}

/// Any two hits are comparable.
pub proof fn lemma_hit_le_total(a: ScoredHit, b: ScoredHit)
    ensures
        hit_le(a, b) || hit_le(b, a),
{
    if score_key(a.score_bits) == score_key(b.score_bits) {
        lemma_lex_connected(a.doc_id@, b.doc_id@);
        if a.doc_id@ == b.doc_id@ {
            lemma_lex_connected(a.chunk_id@, b.chunk_id@);
        }
    }
}

/// The ranking order is transitive.
pub proof fn lemma_hit_le_trans(a: ScoredHit, b: ScoredHit, c: ScoredHit)
    requires
        hit_le(a, b),
        hit_le(b, c),
    ensures
        hit_le(a, c),
{
    let ka = score_key(a.score_bits);
    let kb = score_key(b.score_bits);
    let kc = score_key(c.score_bits);
    if ka == kb && kb == kc {
        if lex_lt(a.doc_id@, b.doc_id@) && lex_lt(b.doc_id@, c.doc_id@) {
            lemma_lex_transitive(a.doc_id@, b.doc_id@, c.doc_id@);
        } else if a.doc_id@ == b.doc_id@ && b.doc_id@ == c.doc_id@ {
            if lex_lt(a.chunk_id@, b.chunk_id@) && lex_lt(b.chunk_id@, c.chunk_id@) {
                lemma_lex_transitive(a.chunk_id@, b.chunk_id@, c.chunk_id@);
            }
        }
    }
}

/// Two hits each ranking at or before the other name the same chunk and
/// carry score bits with the same ordering key.
pub proof fn lemma_hit_le_antisym(a: ScoredHit, b: ScoredHit)
    requires
        hit_le(a, b),
        hit_le(b, a),
    ensures
        score_key(a.score_bits) == score_key(b.score_bits),
        a.doc_id@ == b.doc_id@,
        a.chunk_id@ == b.chunk_id@,
{
    if lex_lt(a.doc_id@, b.doc_id@) {
        lemma_lex_asymmetric(a.doc_id@, b.doc_id@);
    }
    if lex_lt(b.doc_id@, a.doc_id@) {
        lemma_lex_asymmetric(b.doc_id@, a.doc_id@);
    }
    if lex_lt(a.chunk_id@, b.chunk_id@) {
        lemma_lex_asymmetric(a.chunk_id@, b.chunk_id@);
    }
    if lex_lt(b.chunk_id@, a.chunk_id@) {
        lemma_lex_asymmetric(b.chunk_id@, a.chunk_id@);
    }
}

/// Decide the ranking order of two hits.
pub fn hit_le_exec(a: &ScoredHit, b: &ScoredHit) -> (r: bool)
    ensures
        r == hit_le(*a, *b),
{
    let ka = score_key_exec(a.score_bits);
    let kb = score_key_exec(b.score_bits);
    if ka > kb {
        true
    } else if ka < kb {
        false
    } else if str_lt(a.doc_id.as_str(), b.doc_id.as_str()) {
        true
    } else if str_eq(a.doc_id.as_str(), b.doc_id.as_str()) {
        if str_lt(a.chunk_id.as_str(), b.chunk_id.as_str()) {
            true
        } else {
            str_eq(a.chunk_id.as_str(), b.chunk_id.as_str())
        }
    } else {
        false
    }
}

/// Rank scored hits and keep the best `k`: NaN scores are dropped, the
/// rest are ordered best to worst under the deterministic ranking order
/// (higher score first, ties broken by document id then chunk id), and the
/// result is cut to `k` entries. Every dropped valid hit ranks at or after
/// every returned one, so the result is exactly the top `k` of a full
/// sort.
#[verifier::loop_isolation(false)]
#[verifier::rlimit(60)]
pub fn rank_top_k(scored: Vec<ScoredHit>, k: usize) -> (r: Vec<ScoredHit>)
    requires
        distinct_ids(scored@),
    ensures
        r@.len() == (if k as int <= valid_hits(scored@).len() {
            k as int
        } else {
            valid_hits(scored@).len() as int
        }),
        sorted_hits(r@),
        distinct_ids(r@),
        forall|i: int|
            0 <= i < r@.len() ==> scored@.contains(#[trigger] r@[i]) && !is_nan_bits(
                r@[i].score_bits,
            ),
        forall|x: ScoredHit, i: int|
            #![trigger scored@.contains(x), r@[i]]
            scored@.contains(x) && !is_nan_bits(x.score_bits) && !r@.contains(x) && 0 <= i
                < r@.len() ==> hit_le(r@[i], x),
{
    let ghost orig = scored@;
    let mut input = scored;
    let mut valid: Vec<ScoredHit> = Vec::new();
    let ghost mut processed: int = 0;
    proof {
        assert(orig.take(0) =~= Seq::<ScoredHit>::empty());
    }
    while input.len() > 0
        invariant
            0 <= processed <= orig.len(),
            input@ =~= orig.skip(processed),
            valid@ == valid_hits(orig.take(processed)),
        decreases input@.len(),
    {
        let h = input.remove(0);
        proof {
            assert(h == orig[processed]) by {
                assert(orig.skip(processed)[0] == orig[processed]);
            }
            assert(input@ =~= orig.skip(processed + 1)) by {
                assert(orig.skip(processed).drop_first() =~= orig.skip(processed + 1));
            }
            assert(orig.take(processed + 1).drop_last() =~= orig.take(processed));
            assert(orig.take(processed + 1).last() == h);
        }
        let keep = !score_is_nan(h.score_bits);
        let ghost valid_pre = valid@;
        if keep {
            valid.push(h);
            proof {
                assert(valid@.drop_last() =~= valid_pre);
                assert(valid@ == valid_hits(orig.take(processed + 1)));
            }
        } else {
            proof {
                assert(valid@ == valid_hits(orig.take(processed + 1)));
            }
        }
        proof {
            processed = processed + 1;
        }
    }
    proof {
        assert(orig.take(processed) =~= orig);
    }
    let ghost vh = valid@;
    let mut rest = valid;
    let mut out: Vec<ScoredHit> = Vec::new();
    proof {
        broadcast use vstd::seq_lib::group_to_multiset_ensures;

        assert(out@ + rest@ =~= vh);
        assert(out@.to_multiset().add(rest@.to_multiset()) =~= vh.to_multiset()) by {
            assert(out@.to_multiset().len() == 0);
        }
        assert(distinct_ids(vh)) by {
            lemma_valid_hits_distinct(orig);
        }
        lemma_valid_hits_from(orig);
    }
    while rest.len() > 0
        invariant
            sorted_hits(out@),
            out@.len() + rest@.len() == vh.len(),
            out@.to_multiset().add(rest@.to_multiset()) == vh.to_multiset(),
            distinct_ids(out@ + rest@),
            forall|i: int, j: int|
                0 <= i < out@.len() && 0 <= j < rest@.len() ==> hit_le(
                    #[trigger] out@[i],
                    #[trigger] rest@[j],
                ),
            forall|i: int|
                0 <= i < out@.len() ==> orig.contains(#[trigger] out@[i]) && !is_nan_bits(
                    out@[i].score_bits,
                ),
            forall|j: int|
                0 <= j < rest@.len() ==> orig.contains(#[trigger] rest@[j]) && !is_nan_bits(
                    rest@[j].score_bits,
                ),
        decreases rest@.len(),
    {
        let mut m: usize = 0;
        let mut j: usize = 1;
        while j < rest.len()
            invariant
                m < j <= rest@.len(),
                forall|t: int| 0 <= t < j ==> hit_le(rest@[m as int], #[trigger] rest@[t]),
            decreases rest@.len() - j,
        {
            if hit_le_exec(&rest[j], &rest[m]) {
                proof {
                    assert forall|t: int| 0 <= t < j + 1 implies hit_le(
                        rest@[j as int],
                        #[trigger] rest@[t],
                    ) by {
                        if t < j {
                            lemma_hit_le_trans(rest@[j as int], rest@[m as int], rest@[t]);
                        }
                    }
                }
                m = j;
            } else {
                proof {
                    lemma_hit_le_total(rest@[m as int], rest@[j as int]);
                }
            }
            j = j + 1;
        }
        let ghost c0 = out@ + rest@;
        let ghost out_pre = out@;
        let ghost rest_pre = rest@;
        let ghost lp = out@.len() as int;
        let ghost mp = m as int;
        let x = rest.remove(m);
        out.push(x);
        proof {
            broadcast use vstd::seq_lib::group_to_multiset_ensures;

            assert(out@.to_multiset() =~= out_pre.to_multiset().insert(x));
            assert(rest@.to_multiset() =~= rest_pre.to_multiset().remove(x));
            assert(rest_pre.to_multiset().count(x) >= 1);
            assert(out@.to_multiset().add(rest@.to_multiset()) =~= out_pre.to_multiset().add(
                rest_pre.to_multiset(),
            ));
            let c1 = out@ + rest@;
            assert forall|a: int, b: int| 0 <= a < b < c1.len() implies !same_ids(c1[a], c1[b]) by {
                let a0 = if a < lp {
                    a
                } else if a == lp {
                    lp + mp
                } else if a <= lp + mp {
                    a - 1
                } else {
                    a
                };
                let b0 = if b < lp {
                    b
                } else if b == lp {
                    lp + mp
                } else if b <= lp + mp {
                    b - 1
                } else {
                    b
                };
                assert(c1[a] == c0[a0]);
                assert(c1[b] == c0[b0]);
                if a0 < b0 {
                    assert(!same_ids(c0[a0], c0[b0]));
                } else {
                    assert(b0 < a0);
                    assert(!same_ids(c0[b0], c0[a0]));
                }
            }
            assert forall|i: int, j2: int|
                0 <= i < out@.len() && 0 <= j2 < rest@.len() implies hit_le(
                #[trigger] out@[i],
                #[trigger] rest@[j2],
            ) by {
                let s = if j2 < mp {
                    j2
                } else {
                    j2 + 1
                };
                assert(rest@[j2] == rest_pre[s]);
                if i < lp {
                    lemma_hit_le_trans(out@[i], x, rest_pre[s]);
                }
            }
        }
    }
    proof {
        assert(out@ + rest@ =~= out@);
        assert(rest@.to_multiset().len() == 0);
        assert(out@.to_multiset() =~= vh.to_multiset()) by {
            broadcast use vstd::seq_lib::group_to_multiset_ensures;

            assert(rest@.to_multiset() =~= Multiset::<ScoredHit>::empty());
        }
    }
    let ghost sorted_full = out@;
    while out.len() > k
        invariant
            out@ =~= sorted_full.take(out@.len() as int),
            out@.len() <= sorted_full.len(),
            out@.len() >= k || out@.len() == sorted_full.len(),
        decreases out@.len(),
    {
        out.pop();
        proof {
            assert(out@ =~= sorted_full.take(out@.len() as int));
        }
    }
    proof {
        broadcast use vstd::seq_lib::group_to_multiset_ensures;

        assert(sorted_full.take(sorted_full.len() as int) =~= sorted_full);
        assert forall|x: ScoredHit, i: int|
            #![trigger orig.contains(x), out@[i]]
            orig.contains(x) && !is_nan_bits(x.score_bits) && !out@.contains(x) && 0 <= i
                < out@.len() implies hit_le(out@[i], x) by {
            let oi = choose|oi: int| 0 <= oi < orig.len() && orig[oi] == x;
            assert(vh.contains(x)) by {
                lemma_valid_hits_membership(orig, oi);
            }
            assert(sorted_full.to_multiset().count(x) > 0);
            assert(sorted_full.contains(x));
            let p = choose|p: int| 0 <= p < sorted_full.len() && sorted_full[p] == x;
            if p < out@.len() {
                assert(out@[p] == x);
                assert(out@.contains(x));
                assert(false);
            }
            assert(hit_le(sorted_full[i], sorted_full[p]));
        }
    }
    out
}

/// Every valid hit comes from the sequence it was taken of.
proof fn lemma_valid_hits_from(s: Seq<ScoredHit>)
    ensures
        forall|i: int|
            0 <= i < valid_hits(s).len() ==> s.contains(#[trigger] valid_hits(s)[i])
                && !is_nan_bits(valid_hits(s)[i].score_bits),
    decreases s.len(),
{
    if s.len() > 0 {
        lemma_valid_hits_from(s.drop_last());
        let f = valid_hits(s);
        let fd = valid_hits(s.drop_last());
        assert forall|i: int|
            0 <= i < f.len() implies s.contains(#[trigger] f[i]) && !is_nan_bits(
            f[i].score_bits,
        ) by {
            if is_nan_bits(s.last().score_bits) || i < f.len() - 1 {
                assert(f[i] == fd[i]);
                let t = choose|t: int| 0 <= t < s.drop_last().len() && s.drop_last()[t] == fd[i];
                assert(s[t] == f[i]);
            } else {
                assert(f[i] == s[s.len() - 1]);
            }
        }
    }
}

/// Valid hits of a sequence with pairwise distinct ids keep them pairwise
/// distinct.
proof fn lemma_valid_hits_distinct(s: Seq<ScoredHit>)
    requires
        distinct_ids(s),
    ensures
        distinct_ids(valid_hits(s)),
    decreases s.len(),
{
    if s.len() > 0 {
        assert(distinct_ids(s.drop_last()));
        lemma_valid_hits_distinct(s.drop_last());
        let f = valid_hits(s);
        let fd = valid_hits(s.drop_last());
        if !is_nan_bits(s.last().score_bits) {
            assert(f == fd.push(s.last()));
            lemma_valid_hits_from(s.drop_last());
            assert forall|i: int, j: int| 0 <= i < j < f.len() implies !same_ids(f[i], f[j]) by {
                if j < f.len() - 1 {
                    assert(fd[i] == f[i] && fd[j] == f[j]);
                } else {
                    assert(f[j] == s.last());
                    assert(fd[i] == f[i]);
                    let t = choose|t: int| 0 <= t < s.drop_last().len() && s.drop_last()[t] == f[i];
                    assert(s[t] == f[i]);
                    assert(!same_ids(s[t], s[s.len() - 1]));
                }
            }
        } else {
            assert(f == fd);
        }
    }
}

/// A hit whose score is not NaN is among the valid hits.
proof fn lemma_valid_hits_membership(s: Seq<ScoredHit>, i: int)
    requires
        0 <= i < s.len(),
        !is_nan_bits(s[i].score_bits),
    ensures
        valid_hits(s).contains(s[i]),
    decreases s.len(),
{
    if i == s.len() - 1 {
        let f = valid_hits(s);
        assert(f[f.len() - 1] == s[i]);
    } else {
        assert(s.drop_last()[i] == s[i]);
        lemma_valid_hits_membership(s.drop_last(), i);
        let fd = valid_hits(s.drop_last());
        let t = choose|t: int| 0 <= t < fd.len() && fd[t] == s[i];
        if !is_nan_bits(s.last().score_bits) {
            assert(valid_hits(s)[t] == s[i]);
        } else {
            assert(valid_hits(s) == fd);
        }
    }
}


/// The ranked result is exactly the leading prefix of the fully sorted
/// valid candidate list: for every cut `k`, ranking agrees with taking
/// the first entries of a brute-force full sort under the same order.
/// With the order total and chunk ids pairwise distinct, that prefix is
/// unique, so the ranking is deterministic.
pub proof fn lemma_rank_is_sorted_prefix(r: Seq<ScoredHit>, full: Seq<ScoredHit>)
    requires
        sorted_hits(full),
        distinct_ids(full),
        sorted_hits(r),
        distinct_ids(r),
        r.len() <= full.len(),
        forall|i: int| 0 <= i < r.len() ==> full.contains(#[trigger] r[i]),
        forall|x: ScoredHit, i: int|
            #![trigger full.contains(x), r[i]]
            full.contains(x) && !r.contains(x) && 0 <= i < r.len() ==> hit_le(r[i], x),
    ensures
        r =~= full.take(r.len() as int),
{
    lemma_rank_prefix_upto(r, full, r.len() as int);
}

proof fn lemma_rank_prefix_upto(r: Seq<ScoredHit>, full: Seq<ScoredHit>, t: int)
    requires
        sorted_hits(full),
        distinct_ids(full),
        sorted_hits(r),
        distinct_ids(r),
        r.len() <= full.len(),
        0 <= t <= r.len(),
        forall|i: int| 0 <= i < r.len() ==> full.contains(#[trigger] r[i]),
        forall|x: ScoredHit, i: int|
            #![trigger full.contains(x), r[i]]
            full.contains(x) && !r.contains(x) && 0 <= i < r.len() ==> hit_le(r[i], x),
    ensures
        forall|s: int| 0 <= s < t ==> r[s] == full[s],
    decreases t,
{
    if t > 0 {
        lemma_rank_prefix_upto(r, full, t - 1);
        let u = t - 1;
        let a = r[u];
        assert(full.contains(a));
        let p = choose|p: int| 0 <= p < full.len() && full[p] == a;
        assert(p >= u) by {
            if p < u {
                assert(r[p] == full[p]);
                assert(same_ids(r[p], r[u]));
            }
        }
        assert(hit_le(full[u], a)) by {
            if p > u {
                assert(hit_le(full[u], full[p]));
            }
        }
        assert(hit_le(a, full[u])) by {
            if r.contains(full[u]) {
                let j = choose|j: int| 0 <= j < r.len() && r[j] == full[u];
                assert(j >= u) by {
                    if j < u {
                        assert(r[j] == full[j]);
                        assert(same_ids(full[j], full[u]));
                    }
                }
                if j > u {
                    assert(hit_le(r[u], r[j]));
                }
            } else {
                assert(full.contains(full[u]));
                assert(hit_le(r[u], full[u]));
            }
        }
        lemma_hit_le_antisym(a, full[u]);
        assert(same_ids(a, full[u]));
        assert(u == p) by {
            if p != u {
                if u < p {
                    assert(same_ids(full[u], full[p]));
                } else {
                    assert(same_ids(full[p], full[u]));
                }
            }
        }
        assert(r[u] == full[u]);
    }
}


}
