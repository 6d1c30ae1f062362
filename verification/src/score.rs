//! The query executor and scorer: accumulate index weights per document,
//! classify matches by a second, substring-based pass, and apply the phrase
//! bonus, producing the candidate set in document-position order.
use vstd::prelude::*;
use crate::cache::NormCache;
use crate::index::{
    find_word, fsum, lemma_fsum_nonneg, lemma_fsum_pos, lemma_fsum_push, lemma_wsum_at, wi_has,
    wi_ok, wsum, WordEntry,
};
use crate::model::{
    cand_of, cands_spec, clamp, desc_flag, doc_base, doc_bonus, docs_view, kw_all, kw_scan,
    lemma_cands_push, lemma_desc_flag_push, lemma_doc_base_nonneg, lemma_doc_base_push,
    lemma_kw_all_push, lemma_title_flag_push, lemma_touched_push, raw_score, term_weight,
    title_flag, touched, CandV, DocV, PostData,
};
use crate::norm::{lemma_join_push, norm_spec};
use crate::text::contains_sub;
use crate::norm::{dview, join_sp};
use crate::text::contains_chars;

verus! {

/// A scored, classified candidate, before ranking and snippets.
pub struct Cand {
    pub pos: usize,
    pub score: u64,
    pub tm: bool,
    pub dm: bool,
    pub kws: Vec<String>,
}

impl View for Cand {
    type V = CandV;

    open spec fn view(&self) -> CandV {
        CandV {
            pos: self.pos as int,
            score: self.score as int,
            tm: self.tm,
            dm: self.dm,
            kws: self.kws.deep_view(),
        }
    }
}

/// The candidate views of a candidate list.
pub open spec fn cands_view(cs: Seq<Cand>) -> Seq<CandV> {
    cs.map_values(|c: Cand| c@)
}

/// Addition that sticks at the largest representable value.
pub fn sat_add(a: u64, b: u64) -> (r: u64)
    ensures
        r as int == clamp(a as int + b as int),
{
    if a > u64::MAX - b {
        u64::MAX
    } else {
        a + b
    }
}

/// Whether a list of strings holds one with these characters.
pub fn contains_string(v: &Vec<String>, s: &String) -> (r: bool)
    ensures
        r == v.deep_view().contains(s@),
{
    let mut l: usize = 0;
    while l < v.len()
        invariant
            l <= v@.len(),
            forall|m: int| 0 <= m < l ==> (#[trigger] v@[m])@ != s@,
        decreases v@.len() - l,
    {
        if v[l].eq(s) {
            proof {
                assert(v.deep_view()[l as int] == v@[l as int]@);
            }
            return true;
        }
        l = l + 1;
    }
    proof {
        assert(forall|m: int| 0 <= m < v.deep_view().len() ==> v.deep_view()[m] == (#[trigger] v@[m])@);
    }
    false
}

/// Accumulate the index weight of every query term, per document, and mark
/// the documents any term touched.
pub fn score_pass(
    wi: &Vec<WordEntry>,
    n: usize,
    qs: &Vec<Vec<char>>,
    Ghost(docs): Ghost<Seq<DocV>>,
) -> (r: (Vec<u64>, Vec<bool>))
    requires
        wi_ok(docs, wi@),
        n == docs.len(),
    ensures
        r.0@.len() == n,
        r.1@.len() == n,
        forall|i: int|
            0 <= i < n ==> (#[trigger] r.0@[i]) as int == clamp(doc_base(docs[i], dview(qs@))),
        forall|i: int| 0 <= i < n ==> ((#[trigger] r.1@[i]) <==> touched(docs[i], dview(qs@))),
{
    let ghost q = dview(qs@);
    let mut scores: Vec<u64> = vec![0u64; n];
    let mut touch: Vec<bool> = vec![false; n];
    proof {
        assert(q.take(0) =~= Seq::<Seq<char>>::empty());
        assert forall|i: int| 0 <= i < n implies scores@[i] as int == clamp(
            doc_base(docs[i], q.take(0)),
        ) && !touched(docs[i], q.take(0)) by {
            assert(doc_base(docs[i], q.take(0)) == 0);
        }
    }
    let mut k: usize = 0;
    while k < qs.len()
        invariant
            k <= qs@.len(),
            q == dview(qs@),
            n == docs.len(),
            wi_ok(docs, wi@),
            scores@.len() == n,
            touch@.len() == n,
            forall|i: int|
                0 <= i < n ==> (#[trigger] scores@[i]) as int == clamp(
                    doc_base(docs[i], q.take(k as int)),
                ),
            forall|i: int|
                0 <= i < n ==> ((#[trigger] touch@[i]) <==> touched(docs[i], q.take(k as int))),
        decreases qs@.len() - k,
    {
        let ghost t = q[k as int];
        proof {
            assert(q.take(k + 1) =~= q.take(k as int).push(t));
            assert(qs@[k as int]@ == t);
        }
        match find_word(wi, &qs[k]) {
            None => {
                proof {
                    assert forall|i: int| 0 <= i < n implies (#[trigger] scores@[i]) as int
                        == clamp(doc_base(docs[i], q.take(k + 1))) by {
                        assert(wsum(wi@, t, i) == term_weight(docs[i], t));
                        assert(!wi_has(wi@, t));
                        assert(term_weight(docs[i], t) == 0);
                        lemma_doc_base_push(docs[i], q.take(k as int), t);
                    }
                    assert forall|i: int| 0 <= i < n implies ((#[trigger] touch@[i]) <==> touched(
                        docs[i],
                        q.take(k + 1),
                    )) by {
                        assert(wsum(wi@, t, i) == term_weight(docs[i], t));
                        assert(!wi_has(wi@, t));
                        assert(term_weight(docs[i], t) == 0);
                        lemma_touched_push(docs[i], q.take(k as int), t);
                    }
                }
            },
            Some(j) => {
                let ghost ps = wi@[j as int].posts@;
                let pn = wi[j].posts.len();
                let mut m: usize = 0;
                proof {
                    assert(ps.take(0) =~= Seq::<crate::index::Posting>::empty());
                    assert forall|i: int| 0 <= i < n implies fsum(ps.take(0), i) == 0 by {
                        assert(fsum(Seq::<crate::index::Posting>::empty(), i) == 0);
                    }
                }
                while m < pn
                    invariant
                        wi_ok(docs, wi@),
                        j < wi@.len(),
                        wi@[j as int].term@ == t,
                        ps == wi@[j as int].posts@,
                        pn == ps.len(),
                        m <= pn,
                        n == docs.len(),
                        scores@.len() == n,
                        touch@.len() == n,
                        forall|i: int|
                            0 <= i < n ==> (#[trigger] scores@[i]) as int == clamp(
                                doc_base(docs[i], q.take(k as int)) + fsum(ps.take(m as int), i),
                            ),
                        forall|i: int|
                            0 <= i < n ==> ((#[trigger] touch@[i]) <==> (touched(
                                docs[i],
                                q.take(k as int),
                            ) || exists|mm: int| 0 <= mm < m && (#[trigger] ps[mm]).pos == i)),
                    decreases pn - m,
                {
                    let pp = wi[j].posts[m].pos;
                    let pw = wi[j].posts[m].weight;
                    proof {
                        assert(ps[m as int].pos == pp && ps[m as int].weight == pw);
                        assert((pp as int) < docs.len() && pw >= 1);
                    }
                    let ghost scores0 = scores@;
                    let ghost touch0 = touch@;
                    let s2 = sat_add(scores[pp], pw);
                    scores[pp] = s2;
                    touch[pp] = true;
                    proof {
                        assert(ps.take(m + 1) =~= ps.take(m as int).push(ps[m as int]));
                        assert forall|i: int| 0 <= i < n implies (#[trigger] scores@[i]) as int
                            == clamp(
                            doc_base(docs[i], q.take(k as int)) + fsum(ps.take(m + 1), i),
                        ) by {
                            lemma_fsum_push(ps.take(m as int), ps[m as int], i);
                            lemma_doc_base_nonneg(docs[i], q.take(k as int));
                            lemma_fsum_nonneg(ps.take(m as int), i);
                            if i != pp {
                                assert(scores@[i] == scores0[i]);
                            }
                        }
                        assert forall|i: int| 0 <= i < n implies ((#[trigger] touch@[i]) <==> (
                        touched(docs[i], q.take(k as int)) || exists|mm: int|
                            0 <= mm < m + 1 && (#[trigger] ps[mm]).pos == i)) by {
                            if i == pp {
                                assert(ps[m as int].pos == i);
                            } else {
                                assert(touch@[i] == touch0[i]);
                                assert(forall|mm: int|
                                    0 <= mm < m + 1 && (#[trigger] ps[mm]).pos == i ==> mm < m);
                            }
                        }
                    }
                    m = m + 1;
                }
                proof {
                    assert(ps.take(pn as int) =~= ps);
                    assert forall|i: int| 0 <= i < n implies (#[trigger] scores@[i]) as int
                        == clamp(doc_base(docs[i], q.take(k + 1))) by {
                        lemma_wsum_at(wi@, j as int, i);
                        assert(wsum(wi@, t, i) == term_weight(docs[i], t));
                        assert(fsum(ps, i) == term_weight(docs[i], t));
                        lemma_doc_base_push(docs[i], q.take(k as int), t);
                    }
                    assert forall|i: int| 0 <= i < n implies ((#[trigger] touch@[i]) <==> touched(
                        docs[i],
                        q.take(k + 1),
                    )) by {
                        lemma_wsum_at(wi@, j as int, i);
                        assert(wsum(wi@, t, i) == term_weight(docs[i], t));
                        assert(fsum(ps, i) == term_weight(docs[i], t));
                        lemma_touched_push(docs[i], q.take(k as int), t);
                        assert(forall|mm: int|
                            0 <= mm < ps.len() ==> (#[trigger] ps[mm]).weight >= 1) by {
                            assert(forall|mm: int|
                                0 <= mm < ps.len() ==> ps[mm] == wi@[j as int].posts@[mm]);
                        }
                        lemma_fsum_pos(ps, i);
                    }
                }
            },
        }
        k = k + 1;
    }
    proof {
        assert(q.take(q.len() as int) =~= q);
    }
    (scores, touch)
}


/// The query terms joined by single spaces: the phrase to look for.
pub fn join_terms(qs: &Vec<Vec<char>>) -> (r: Vec<char>)
    ensures
        r@ == join_sp(dview(qs@)),
{
    let ghost q = dview(qs@);
    let mut r: Vec<char> = Vec::new();
    let mut k: usize = 0;
    proof {
        assert(q.take(0) =~= Seq::<Seq<char>>::empty());
    }
    while k < qs.len()
        invariant
            k <= qs@.len(),
            q == dview(qs@),
            r@ == join_sp(q.take(k as int)),
        decreases qs@.len() - k,
    {
        let ghost r0 = r@;
        proof {
            assert(q.take(k + 1) =~= q.take(k as int).push(q[k as int]));
            lemma_join_push(q.take(k as int), q[k as int]);
        }
        if k > 0 {
            proof {
                assert(q.take(k as int).len() != 0);
            }
            r.push(' ');
        }
        let w = &qs[k];
        let mut c: usize = 0;
        while c < w.len()
            invariant
                c <= w@.len(),
                k > 0 ==> r@ == r0 + seq![' '] + w@.take(c as int),
                k == 0 ==> r@ == w@.take(c as int) && r0 =~= Seq::<char>::empty(),
            decreases w@.len() - c,
        {
            r.push(w[c]);
            c = c + 1;
            proof {
                assert(w@.take(c as int) =~= w@.take(c - 1).push(w@[c - 1]));
                if k > 0 {
                    assert(r@ =~= r0 + seq![' '] + w@.take(c as int));
                }
            }
        }
        proof {
            assert(w@.take(w@.len() as int) =~= w@);
            assert(w@ == q[k as int]);
            if k == 0 {
                assert(r@ == q[k as int]);
            }
        }
        k = k + 1;
    }
    proof {
        assert(q.take(q.len() as int) =~= q);
    }
    r
}

/// Apply the phrase bonus to every touched document: +50 when the full
/// query phrase appears in the normalized title, +25 for the description.
pub fn phrase_pass(
    cache: &mut NormCache,
    posts: &Vec<PostData>,
    touch: &Vec<bool>,
    scores: &mut Vec<u64>,
    qs: &Vec<Vec<char>>,
)
    requires
        old(cache).wf(),
        touch@.len() == posts@.len(),
        old(scores)@.len() == posts@.len(),
        forall|i: int|
            0 <= i < posts@.len() ==> (#[trigger] old(scores)@[i]) as int == clamp(
                doc_base(docs_view(posts@)[i], dview(qs@)),
            ),
    ensures
        final(cache).wf(),
        final(scores)@.len() == posts@.len(),
        forall|i: int|
            0 <= i < posts@.len() && touch@[i] ==> (#[trigger] final(scores)@[i]) as int == clamp(
                raw_score(docs_view(posts@)[i], dview(qs@)),
            ),
        forall|i: int|
            0 <= i < posts@.len() && !touch@[i] ==> final(scores)@[i] == old(scores)@[i],
{
    let ghost docs = docs_view(posts@);
    let ghost q = dview(qs@);
    let n = posts.len();
    proof {
        assert(docs.len() == n);
    }
    if qs.len() <= 1 {
        proof {
            assert forall|i: int| 0 <= i < n && touch@[i] implies (#[trigger] scores@[i]) as int
                == clamp(raw_score(docs[i], q)) by {
                assert(doc_bonus(docs[i], q) == 0);
            }
        }
        return ;
    }
    let phrase = join_terms(qs);
    let ghost s0 = scores@;
    let mut i: usize = 0;
    while i < n
        invariant
            cache.wf(),
            i <= n,
            n == posts@.len(),
            docs == docs_view(posts@),
            q == dview(qs@),
            q.len() > 1,
            phrase@ == join_sp(q),
            touch@.len() == n,
            scores@.len() == n,
            s0.len() == n,
            forall|l: int| 0 <= l < n ==> (#[trigger] s0[l]) as int == clamp(doc_base(docs[l], q)),
            forall|l: int|
                0 <= l < i && touch@[l] ==> (#[trigger] scores@[l]) as int == clamp(
                    raw_score(docs[l], q),
                ),
            forall|l: int| 0 <= l < i && !touch@[l] ==> scores@[l] == s0[l],
            forall|l: int| i <= l < n ==> scores@[l] == s0[l],
        decreases n - i,
    {
        if touch[i] {
            proof {
                assert(docs[i as int] == posts@[i as int]@);
                lemma_doc_base_nonneg(docs[i as int], q);
            }
            let ghost d = docs[i as int];
            let ghost base = doc_base(d, q);
            proof {
                assert(scores@[i as int] == s0[i as int]);
                assert(s0[i as int] as int == clamp(base));
            }
            let nt = cache.norm_chars(posts[i].title.as_str());
            let tb = contains_chars(&nt, &phrase);
            proof {
                assert(nt@ == norm_spec(d.title));
                assert(tb == contains_sub(norm_spec(d.title), join_sp(q)));
            }
            if tb {
                let s2 = sat_add(scores[i], 50);
                scores[i] = s2;
            }
            proof {
                assert(scores@[i as int] as int == clamp(base + (if tb {
                    50int
                } else {
                    0int
                })));
            }
            let db = match &posts[i].description {
                Some(dsc) => {
                    let nd = cache.norm_chars(dsc.as_str());
                    proof {
                        assert(d.description == Some(dsc@));
                        assert(nd@ == norm_spec(dsc@));
                    }
                    contains_chars(&nd, &phrase)
                },
                None => false,
            };
            if db {
                let s2 = sat_add(scores[i], 25);
                scores[i] = s2;
            }
            proof {
                assert(doc_bonus(d, q) == (if tb {
                    50int
                } else {
                    0int
                }) + (if db {
                    25int
                } else {
                    0int
                }));
                assert(scores@[i as int] as int == clamp(raw_score(d, q)));
            }
        }
        i = i + 1;
    }
}

/// The second, substring-based classification pass: per query term with
/// postings, test literal containment of the term in each touched document's
/// normalized title, description, and keywords.
pub fn flags_pass(
    cache: &mut NormCache,
    posts: &Vec<PostData>,
    wi: &Vec<WordEntry>,
    qs: &Vec<Vec<char>>,
) -> (r: (Vec<bool>, Vec<bool>, Vec<Vec<String>>))
    requires
        old(cache).wf(),
        wi_ok(docs_view(posts@), wi@),
    ensures
        final(cache).wf(),
        r.0@.len() == posts@.len(),
        r.1@.len() == posts@.len(),
        r.2@.len() == posts@.len(),
        forall|i: int|
            0 <= i < posts@.len() ==> ((#[trigger] r.0@[i]) <==> title_flag(
                docs_view(posts@)[i],
                dview(qs@),
            )),
        forall|i: int|
            0 <= i < posts@.len() ==> ((#[trigger] r.1@[i]) <==> desc_flag(
                docs_view(posts@)[i],
                dview(qs@),
            )),
        forall|i: int|
            0 <= i < posts@.len() ==> (#[trigger] r.2@[i]).deep_view() == kw_all(
                docs_view(posts@)[i],
                dview(qs@),
            ),
{
    let ghost docs = docs_view(posts@);
    let ghost q = dview(qs@);
    let n = posts.len();
    proof {
        assert(docs.len() == n);
    }
    let mut tf: Vec<bool> = vec![false; n];
    let mut df: Vec<bool> = vec![false; n];
    let mut kws: Vec<Vec<String>> = Vec::new();
    let mut z: usize = 0;
    while z < n
        invariant
            z <= n,
            kws@.len() == z,
            forall|l: int| 0 <= l < z ==> (#[trigger] kws@[l]).deep_view() =~= Seq::<Seq<char>>::empty(),
        decreases n - z,
    {
        let e: Vec<String> = Vec::new();
        kws.push(e);
        z = z + 1;
    }
    proof {
        assert(q.take(0) =~= Seq::<Seq<char>>::empty());
        assert forall|i: int| 0 <= i < n implies !title_flag(docs[i], q.take(0)) && !desc_flag(
            docs[i],
            q.take(0),
        ) && kws@[i].deep_view() == kw_all(docs[i], q.take(0)) by {
            assert(kw_all(docs[i], q.take(0)) =~= Seq::<Seq<char>>::empty());
        }
    }
    let mut k: usize = 0;
    while k < qs.len()
        invariant
            cache.wf(),
            k <= qs@.len(),
            q == dview(qs@),
            n == posts@.len(),
            docs == docs_view(posts@),
            wi_ok(docs, wi@),
            tf@.len() == n,
            df@.len() == n,
            kws@.len() == n,
            forall|i: int|
                0 <= i < n ==> ((#[trigger] tf@[i]) <==> title_flag(docs[i], q.take(k as int))),
            forall|i: int|
                0 <= i < n ==> ((#[trigger] df@[i]) <==> desc_flag(docs[i], q.take(k as int))),
            forall|i: int|
                0 <= i < n ==> (#[trigger] kws@[i]).deep_view() == kw_all(docs[i], q.take(k as int)),
        decreases qs@.len() - k,
    {
        let ghost t = q[k as int];
        proof {
            assert(q.take(k + 1) =~= q.take(k as int).push(t));
            assert(qs@[k as int]@ == t);
        }
        match find_word(wi, &qs[k]) {
            None => {
                proof {
                    assert forall|i: int| 0 <= i < n implies ((#[trigger] tf@[i]) <==> title_flag(
                        docs[i],
                        q.take(k + 1),
                    )) by {
                        assert(wsum(wi@, t, i) == term_weight(docs[i], t));
                        assert(!wi_has(wi@, t));
                        lemma_title_flag_push(docs[i], q.take(k as int), t);
                    }
                    assert forall|i: int| 0 <= i < n implies ((#[trigger] df@[i]) <==> desc_flag(
                        docs[i],
                        q.take(k + 1),
                    )) by {
                        assert(wsum(wi@, t, i) == term_weight(docs[i], t));
                        assert(!wi_has(wi@, t));
                        lemma_desc_flag_push(docs[i], q.take(k as int), t);
                    }
                    assert forall|i: int| 0 <= i < n implies (#[trigger] kws@[i]).deep_view()
                        == kw_all(docs[i], q.take(k + 1)) by {
                        assert(wsum(wi@, t, i) == term_weight(docs[i], t));
                        assert(!wi_has(wi@, t));
                        lemma_kw_all_push(docs[i], q.take(k as int), t);
                    }
                }
            },
            Some(j) => {
                let ghost ps = wi@[j as int].posts@;
                let pn = wi[j].posts.len();
                let mut seen: Vec<bool> = vec![false; n];
                let mut m: usize = 0;
                while m < pn
                    invariant
                        cache.wf(),
                        wi_ok(docs, wi@),
                        j < wi@.len(),
                        wi@[j as int].term@ == t,
                        t == q[k as int],
                        k < qs@.len(),
                        qs@[k as int]@ == t,
                        ps == wi@[j as int].posts@,
                        pn == ps.len(),
                        m <= pn,
                        n == posts@.len(),
                        docs == docs_view(posts@),
                        q == dview(qs@),
                        tf@.len() == n,
                        df@.len() == n,
                        kws@.len() == n,
                        seen@.len() == n,
                        forall|i: int|
                            0 <= i < n ==> ((#[trigger] seen@[i]) <==> exists|mm: int|
                                0 <= mm < m && (#[trigger] ps[mm]).pos == i),
                        forall|i: int|
                            0 <= i < n ==> ((#[trigger] tf@[i]) <==> (title_flag(
                                docs[i],
                                q.take(k as int),
                            ) || (seen@[i] && contains_sub(norm_spec(docs[i].title), t)))),
                        forall|i: int|
                            0 <= i < n ==> ((#[trigger] df@[i]) <==> (desc_flag(
                                docs[i],
                                q.take(k as int),
                            ) || (seen@[i] && (match docs[i].description {
                                Some(tx) => contains_sub(norm_spec(tx), t),
                                None => false,
                            })))),
                        forall|i: int|
                            0 <= i < n ==> (#[trigger] kws@[i]).deep_view() == (if seen@[i] {
                                kw_scan(kw_all(docs[i], q.take(k as int)), docs[i].keywords, t)
                            } else {
                                kw_all(docs[i], q.take(k as int))
                            }),
                    decreases pn - m,
                {
                    let pp = wi[j].posts[m].pos;
                    proof {
                        assert(ps[m as int].pos == pp);
                        assert((pp as int) < docs.len());
                    }
                    if !seen[pp] {
                        let ghost d = docs[pp as int];
                        proof {
                            assert(d == posts@[pp as int]@);
                        }
                        seen[pp] = true;
                        let term = &qs[k];
                        let nt = cache.norm_chars(posts[pp].title.as_str());
                        if contains_chars(&nt, term) {
                            tf[pp] = true;
                        }
                        match &posts[pp].description {
                            Some(dsc) => {
                                let nd = cache.norm_chars(dsc.as_str());
                                if contains_chars(&nd, term) {
                                    df[pp] = true;
                                }
                            },
                            None => {},
                        }
                        let mut a = kws.remove(pp);
                        let ghost kws_mid = kws@;
                        let ghost a0 = a.deep_view();
                        let kn = posts[pp].keywords.len();
                        proof {
                            assert(d.keywords.len() == kn);
                            assert(d.keywords.take(0) =~= Seq::<Seq<char>>::empty());
                        }
                        let mut qk: usize = 0;
                        while qk < kn
                            invariant
                                cache.wf(),
                                qk <= kn,
                                (pp as int) < posts@.len(),
                                d == posts@[pp as int]@,
                                kn == d.keywords.len(),
                                kn == posts@[pp as int].keywords@.len(),
                                k < qs@.len(),
                                qs@[k as int]@ == t,
                                term@ == t,
                                a.deep_view() == kw_scan(a0, d.keywords.take(qk as int), t),
                            decreases kn - qk,
                        {
                            let ghost a_before = a.deep_view();
                            let kw = &posts[pp].keywords[qk];
                            proof {
                                assert(d.keywords[qk as int] == posts@[pp as int].keywords@[qk as int]@);
                            }
                            let nkw = cache.norm_chars(kw.as_str());
                            let c = contains_chars(&nkw, term);
                            let dup = contains_string(&a, kw);
                            if c && !dup {
                                a.push(kw.clone());
                                proof {
                                    assert(a.deep_view() =~= a_before.push(kw@));
                                }
                            }
                            proof {
                                assert(d.keywords.take(qk + 1) =~= d.keywords.take(
                                    qk as int,
                                ).push(d.keywords[qk as int]));
                                assert(d.keywords.take(qk + 1).drop_last() =~= d.keywords.take(
                                    qk as int,
                                ));
                                assert(d.keywords.take(qk + 1).last() == d.keywords[qk as int]);
                                assert(a_before == kw_scan(a0, d.keywords.take(qk as int), t));
                                assert(c == contains_sub(norm_spec(d.keywords[qk as int]), t));
                                assert(dup == a_before.contains(d.keywords[qk as int]));
                                if c && !dup {
                                    assert(a.deep_view() == a_before.push(
                                        d.keywords[qk as int],
                                    ));
                                } else {
                                    assert(a.deep_view() == a_before);
                                }
                                assert(kw_scan(a0, d.keywords.take(qk + 1), t) == (if c && !dup {
                                    a_before.push(d.keywords[qk as int])
                                } else {
                                    a_before
                                }));
                                assert(a.deep_view() == kw_scan(a0, d.keywords.take(qk + 1), t));
                            }
                            qk = qk + 1;
                        }
                        proof {
                            assert(d.keywords.take(kn as int) =~= d.keywords);
                        }
                        kws.insert(pp, a);
                        proof {
                            assert(kws@ =~= kws_mid.insert(pp as int, kws@[pp as int]));
                        }
                    }
                    proof {
                        assert forall|i: int| 0 <= i < n implies ((#[trigger] seen@[i])
                            <==> exists|mm: int| 0 <= mm < m + 1 && (#[trigger] ps[mm]).pos
                            == i) by {
                            if i == pp {
                                assert(ps[m as int].pos == i);
                            } else {
                                assert(forall|mm: int|
                                    0 <= mm < m + 1 && (#[trigger] ps[mm]).pos == i ==> mm < m);
                            }
                        }
                    }
                    m = m + 1;
                }
                proof {
                    assert forall|i: int| 0 <= i < n implies ((#[trigger] seen@[i]) <==> term_weight(
                        docs[i],
                        t,
                    ) != 0) by {
                        lemma_wsum_at(wi@, j as int, i);
                        assert(wsum(wi@, t, i) == term_weight(docs[i], t));
                        assert(forall|mm: int|
                            0 <= mm < ps.len() ==> (#[trigger] ps[mm]).weight >= 1) by {
                            assert(forall|mm: int|
                                0 <= mm < ps.len() ==> ps[mm] == wi@[j as int].posts@[mm]);
                        }
                        lemma_fsum_pos(ps, i);
                    }
                    assert forall|i: int| 0 <= i < n implies ((#[trigger] tf@[i]) <==> title_flag(
                        docs[i],
                        q.take(k + 1),
                    )) by {
                        lemma_title_flag_push(docs[i], q.take(k as int), t);
                    }
                    assert forall|i: int| 0 <= i < n implies ((#[trigger] df@[i]) <==> desc_flag(
                        docs[i],
                        q.take(k + 1),
                    )) by {
                        lemma_desc_flag_push(docs[i], q.take(k as int), t);
                    }
                    assert forall|i: int| 0 <= i < n implies (#[trigger] kws@[i]).deep_view()
                        == kw_all(docs[i], q.take(k + 1)) by {
                        lemma_kw_all_push(docs[i], q.take(k as int), t);
                    }
                }
            },
        }
        k = k + 1;
    }
    proof {
        assert(q.take(q.len() as int) =~= q);
    }
    (tf, df, kws)
}

/// Collect the candidates: one per touched document, in position order.
pub fn build_cands(
    scores: &Vec<u64>,
    touch: &Vec<bool>,
    tf: &Vec<bool>,
    df: &Vec<bool>,
    kws: Vec<Vec<String>>,
    Ghost(docs): Ghost<Seq<DocV>>,
    Ghost(q): Ghost<Seq<Seq<char>>>,
) -> (r: Vec<Cand>)
    requires
        scores@.len() == docs.len(),
        touch@.len() == docs.len(),
        tf@.len() == docs.len(),
        df@.len() == docs.len(),
        kws@.len() == docs.len(),
        forall|i: int|
            0 <= i < docs.len() && touch@[i] ==> (#[trigger] scores@[i]) as int == clamp(
                raw_score(docs[i], q),
            ),
        forall|i: int| 0 <= i < docs.len() ==> ((#[trigger] touch@[i]) <==> touched(docs[i], q)),
        forall|i: int| 0 <= i < docs.len() ==> ((#[trigger] tf@[i]) <==> title_flag(docs[i], q)),
        forall|i: int| 0 <= i < docs.len() ==> ((#[trigger] df@[i]) <==> desc_flag(docs[i], q)),
        forall|i: int|
            0 <= i < docs.len() ==> (#[trigger] kws@[i]).deep_view() == kw_all(docs[i], q),
    ensures
        cands_view(r@) == cands_spec(docs, q),
{
    let n = scores.len();
    let mut kws = kws;
    let ghost kws0 = kws@;
    let mut r: Vec<Cand> = Vec::new();
    let mut i: usize = 0;
    proof {
        assert(docs.take(0) =~= Seq::<DocV>::empty());
        assert(cands_view(r@) =~= cands_spec(docs.take(0), q));
        assert(kws@ =~= kws0.skip(0));
    }
    while i < n
        invariant
            i <= n,
            n == docs.len(),
            scores@.len() == n,
            touch@.len() == n,
            tf@.len() == n,
            df@.len() == n,
            kws0.len() == n,
            kws@ == kws0.skip(i as int),
            forall|l: int|
                0 <= l < n && touch@[l] ==> (#[trigger] scores@[l]) as int == clamp(
                    raw_score(docs[l], q),
                ),
            forall|l: int| 0 <= l < n ==> ((#[trigger] touch@[l]) <==> touched(docs[l], q)),
            forall|l: int| 0 <= l < n ==> ((#[trigger] tf@[l]) <==> title_flag(docs[l], q)),
            forall|l: int| 0 <= l < n ==> ((#[trigger] df@[l]) <==> desc_flag(docs[l], q)),
            forall|l: int|
                0 <= l < n ==> (#[trigger] kws0[l]).deep_view() == kw_all(docs[l], q),
            cands_view(r@) == cands_spec(docs.take(i as int), q),
        decreases n - i,
    {
        proof {
            assert(docs.take(i + 1) =~= docs.take(i as int).push(docs[i as int]));
            lemma_cands_push(docs.take(i as int), docs[i as int], q);
            assert(docs.take(i as int).len() == i);
        }
        let a = kws.remove(0);
        proof {
            assert(kws@ =~= kws0.skip(i + 1));
            assert(a == kws0[i as int]);
        }
        if touch[i] {
            let c = Cand { pos: i, score: scores[i], tm: tf[i], dm: df[i], kws: a };
            proof {
                assert(c@ == cand_of(docs[i as int], i as int, q));
            }
            r.push(c);
            proof {
                assert(cands_view(r@) =~= cands_spec(docs.take(i as int), q).push(
                    cand_of(docs[i as int], i as int, q),
                ));
            }
        }
        i = i + 1;
    }
    proof {
        assert(docs.take(n as int) =~= docs);
    }
    r
}

} // verus!
