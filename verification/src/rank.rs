//! The result ranker: candidates are ordered by score, descending, with ties
//! broken deterministically by document insertion order. Scores are whole
//! numbers, so no result ever needs a not-a-number or infinity sanitation
//! step.
use vstd::prelude::*;
use crate::model::CandV;
use crate::score::{cands_view, Cand};

verus! {

/// Whether candidate `a` ranks strictly before candidate `b`: a higher
/// score, or an equal score and an earlier document position.
pub open spec fn cand_before(a: CandV, b: CandV) -> bool {
    a.score > b.score || (a.score == b.score && a.pos < b.pos)
}

/// Ranked order: every earlier candidate ranks before every later one.
pub open spec fn ranked(s: Seq<CandV>) -> bool {
    forall|i: int, j: int| 0 <= i < j < s.len() ==> cand_before(#[trigger] s[i], #[trigger] s[j])
}

/// Insert a candidate into a ranked list, after everything that ranks
/// before it.
pub open spec fn insert_cand(x: CandV, s: Seq<CandV>) -> Seq<CandV>
    decreases s.len(),
{
    if s.len() == 0 {
        seq![x]
    } else if cand_before(s.last(), x) {
        s.push(x)
    } else {
        insert_cand(x, s.drop_last()).push(s.last())
    }
}

/// The ranking of a candidate list: insertion sort by rank order.
pub open spec fn rank_spec(s: Seq<CandV>) -> Seq<CandV>
    decreases s.len(),
{
    if s.len() == 0 {
        Seq::empty()
    } else {
        insert_cand(s.last(), rank_spec(s.drop_last()))
    }
}

/// No two candidates share a document position.
pub open spec fn pos_distinct(s: Seq<CandV>) -> bool {
    forall|i: int, j: int| 0 <= i < j < s.len() ==> (#[trigger] s[i]).pos != (#[trigger] s[j]).pos
}

/// Inserting adds one candidate, keeps the list ranked, keeps positions
/// distinct, and introduces no candidate from outside.
#[verifier::rlimit(100)]
pub proof fn lemma_insert_cand(x: CandV, s: Seq<CandV>)
    requires
        ranked(s),
        pos_distinct(s),
        forall|i: int| 0 <= i < s.len() ==> (#[trigger] s[i]).pos != x.pos,
    ensures
        insert_cand(x, s).len() == s.len() + 1,
        ranked(insert_cand(x, s)),
        pos_distinct(insert_cand(x, s)),
        forall|i: int|
            0 <= i < insert_cand(x, s).len() ==> (s.contains(#[trigger] insert_cand(x, s)[i])
                || insert_cand(x, s)[i] == x),
    decreases s.len(),
{
    let r = insert_cand(x, s);
    if s.len() == 0 {
        assert(r =~= seq![x]);
        assert(r[0] == x);
    } else if cand_before(s.last(), x) {
        assert(r == s.push(x));
        assert(forall|i: int| 0 <= i < s.len() ==> r[i] == s[i]);
        assert(r[r.len() - 1] == x);
        assert forall|i: int, j: int| 0 <= i < j < r.len() implies cand_before(
            #[trigger] r[i],
            #[trigger] r[j],
        ) by {
            if j == r.len() - 1 {
                if i < s.len() - 1 {
                    assert(cand_before(s[i], s[s.len() - 1]));
                    assert(s[s.len() - 1] == s.last());
                }
            }
        }
        assert forall|i: int| 0 <= i < r.len() implies (s.contains(#[trigger] r[i]) || r[i]
            == x) by {
            if i < s.len() {
                assert(s[i] == r[i]);
            }
        }
    } else {
        let p = s.drop_last();
        let e = s.last();
        assert(forall|i: int| 0 <= i < p.len() ==> p[i] == s[i]);
        assert(e == s[s.len() - 1]);
        assert(forall|i: int| 0 <= i < p.len() ==> (#[trigger] p[i]).pos != x.pos);
        lemma_insert_cand(x, p);
        let q = insert_cand(x, p);
        assert(r == q.push(e));
        // not ranking before e means a lower score, or an equal score and no
        // earlier position; positions differ, so x ranks strictly before e
        assert(cand_before(x, e)) by {
            assert(e.pos != x.pos);
        }
        assert forall|i: int| 0 <= i < r.len() implies (s.contains(#[trigger] r[i]) || r[i]
            == x) by {
            if i < q.len() {
                assert(r[i] == q[i]);
                assert(p.contains(q[i]) || q[i] == x);
                if p.contains(q[i]) {
                    let l = choose|l: int| 0 <= l < p.len() && p[l] == q[i];
                    assert(s[l] == r[i]);
                }
            } else {
                assert(r[i] == e);
                assert(s[s.len() - 1] == r[i]);
            }
        }
        assert forall|i: int, j: int| 0 <= i < j < r.len() implies cand_before(
            #[trigger] r[i],
            #[trigger] r[j],
        ) by {
            if j == r.len() - 1 {
                assert(r[j] == e);
                assert(r[i] == q[i]);
                assert(p.contains(q[i]) || q[i] == x);
                if p.contains(q[i]) {
                    let m = choose|m: int| 0 <= m < p.len() && p[m] == q[i];
                    assert(cand_before(s[m], s[s.len() - 1]));
                }
            } else {
                assert(r[i] == q[i] && r[j] == q[j]);
            }
        }
        assert(pos_distinct(r));
    }
}

/// The ranking of a position-distinct candidate list is ranked, keeps its
/// length and position-distinctness, and draws only on the input list.
pub proof fn lemma_rank_spec(s: Seq<CandV>)
    requires
        pos_distinct(s),
    ensures
        rank_spec(s).len() == s.len(),
        ranked(rank_spec(s)),
        pos_distinct(rank_spec(s)),
        forall|i: int| 0 <= i < rank_spec(s).len() ==> s.contains(#[trigger] rank_spec(s)[i]),
    decreases s.len(),
{
    if s.len() > 0 {
        let p = s.drop_last();
        let e = s.last();
        assert(forall|i: int| 0 <= i < p.len() ==> p[i] == s[i]);
        assert(pos_distinct(p));
        lemma_rank_spec(p);
        let rp = rank_spec(p);
        assert forall|i: int| 0 <= i < rp.len() implies (#[trigger] rp[i]).pos != e.pos by {
            assert(p.contains(rp[i]));
            let m = choose|m: int| 0 <= m < p.len() && p[m] == rp[i];
            assert(s[m].pos != s[s.len() - 1].pos);
        }
        lemma_insert_cand(e, rp);
        let r = rank_spec(s);
        assert(r == insert_cand(e, rp));
        assert forall|i: int| 0 <= i < r.len() implies s.contains(#[trigger] r[i]) by {
            assert(rp.contains(r[i]) || r[i] == e);
            if rp.contains(r[i]) {
                let m = choose|m: int| 0 <= m < rp.len() && rp[m] == r[i];
                assert(p.contains(rp[m]));
                let l = choose|l: int| 0 <= l < p.len() && p[l] == rp[m];
                assert(s[l] == r[i]);
            } else {
                assert(s[s.len() - 1] == r[i]);
            }
        }
    }
}

/// Whether `a` ranks strictly before `b`.
fn before(a: &Cand, b: &Cand) -> (r: bool)
    ensures
        r == cand_before(a@, b@),
{
    a.score > b.score || (a.score == b.score && a.pos < b.pos)
}

/// Insert a candidate into its ranked position.
fn insert_ranked(out: &mut Vec<Cand>, x: Cand)
    ensures
        cands_view(final(out)@) == insert_cand(x@, cands_view(old(out)@)),
{
    let ghost s = cands_view(out@);
    let mut j: usize = out.len();
    proof {
        assert(cands_view(out@).len() == out@.len());
        assert(s.take(j as int) =~= s);
        assert(insert_cand(x@, s.take(j as int)) + s.skip(j as int) =~= insert_cand(x@, s));
    }
    while j > 0 && !before(&out[j - 1], &x)
        invariant
            j <= out@.len(),
            s == cands_view(out@),
            insert_cand(x@, s) == insert_cand(x@, s.take(j as int)) + s.skip(j as int),
        decreases j,
    {
        proof {
            let pre = s.take(j as int);
            assert(pre.drop_last() =~= s.take(j - 1));
            assert(pre.last() == s[j - 1]);
            assert(s[j - 1] == out@[j - 1]@);
            assert(insert_cand(x@, s.take(j as int)) == insert_cand(x@, s.take(j - 1)).push(
                s[j - 1],
            ));
            assert(insert_cand(x@, s.take(j - 1)).push(s[j - 1]) + s.skip(j as int)
                =~= insert_cand(x@, s.take(j - 1)) + s.skip(j - 1));
        }
        j = j - 1;
    }
    proof {
        if j > 0 {
            let pre = s.take(j as int);
            assert(pre.last() == s[j - 1]);
            assert(s[j - 1] == out@[j - 1]@);
            assert(cand_before(pre.last(), x@));
            assert(insert_cand(x@, pre) == pre.push(x@));
        } else {
            assert(s.take(0) =~= Seq::<CandV>::empty());
            assert(insert_cand(x@, s.take(0)) =~= seq![x@]);
        }
    }
    let ghost xv = x@;
    out.insert(j, x);
    proof {
        assert(cands_view(out@) =~= insert_cand(xv, s.take(j as int)) + s.skip(j as int));
    }
}

/// Rank the candidates: by score, descending; ties keep insertion order.
pub fn rank_cands(cands: Vec<Cand>) -> (r: Vec<Cand>)
    ensures
        cands_view(r@) == rank_spec(cands_view(cands@)),
{
    let ghost s = cands_view(cands@);
    let mut rest = cands;
    let mut r: Vec<Cand> = Vec::new();
    let n = rest.len();
    let mut i: usize = 0;
    proof {
        assert(s.take(0) =~= Seq::<CandV>::empty());
        assert(cands_view(r@) =~= rank_spec(s.take(0)));
        assert(cands_view(rest@) =~= s.skip(0));
    }
    while i < n
        invariant
            i <= n,
            n == s.len(),
            cands_view(rest@) == s.skip(i as int),
            cands_view(r@) == rank_spec(s.take(i as int)),
        decreases n - i,
    {
        proof {
            assert(cands_view(rest@).len() == rest@.len());
            assert(cands_view(rest@).len() == s.skip(i as int).len());
            assert(rest@.len() > 0);
            assert(cands_view(rest@)[0] == rest@[0]@);
            assert(s.skip(i as int)[0] == s[i as int]);
        }
        let ghost r0 = rest@;
        let x = rest.remove(0);
        proof {
            assert(x@ == s[i as int]);
            assert forall|l: int|
                0 <= l < cands_view(rest@).len() implies cands_view(rest@)[l] == s.skip(i + 1)[l] by {
                assert(rest@[l] == r0[l + 1]);
                assert(cands_view(r0)[l + 1] == r0[l + 1]@);
                assert(s.skip(i as int)[l + 1] == s[i + 1 + l]);
            }
            assert(cands_view(rest@).len() == rest@.len());
            assert(cands_view(rest@) =~= s.skip(i + 1));
        }
        insert_ranked(&mut r, x);
        proof {
            assert(s.take(i + 1) =~= s.take(i as int).push(s[i as int]));
            assert(s.take(i + 1).drop_last() =~= s.take(i as int));
            assert(s.take(i + 1).last() == s[i as int]);
            assert(rank_spec(s.take(i + 1)) == insert_cand(
                s[i as int],
                rank_spec(s.take(i as int)),
            ));
        }
        i = i + 1;
    }
    proof {
        assert(s.take(n as int) =~= s);
    }
    r
}

} // verus!
