//! The inverted index: per-term word postings (one per token occurrence,
//! carrying its field weight) and per-keyword postings (one per keyword
//! occurrence, carrying the document position). The well-formedness
//! predicates tie both structures exactly to the stored documents, so the
//! scorer's contracts can speak of documents alone.
use vstd::prelude::*;
use crate::cache::NormCache;
use crate::model::{cnt, desc_toks, kpostings, kw_norms, lemma_cnt_push, rep_idx, term_weight, title_toks, DocV, PostData};
use crate::norm::{dview, norm_spec};
use crate::text::eq_chars;

verus! {

/// One word posting: a document position and the weight of one occurrence.
pub struct Posting {
    pub pos: usize,
    pub weight: u64,
}

/// The postings of one indexed term.
pub struct WordEntry {
    pub term: Vec<char>,
    pub posts: Vec<Posting>,
}

/// The postings of one indexed keyword.
pub struct KwEntry {
    pub term: Vec<char>,
    pub posts: Vec<usize>,
}

/// The total weight a postings list carries for one document position.
pub open spec fn fsum(ps: Seq<Posting>, i: int) -> int
    decreases ps.len(),
{
    if ps.len() == 0 {
        0
    } else {
        fsum(ps.drop_last(), i) + if ps.last().pos == i {
            ps.last().weight as int
        } else {
            0
        }
    }
}

pub proof fn lemma_fsum_push(ps: Seq<Posting>, p: Posting, i: int)
    ensures
        fsum(ps.push(p), i) == fsum(ps, i) + if p.pos == i {
            p.weight as int
        } else {
            0
        },
{
    assert(ps.push(p).drop_last() =~= ps);
    assert(ps.push(p).last() == p);
}

/// Whether some entry indexes the term.
pub open spec fn wi_has(wi: Seq<WordEntry>, t: Seq<char>) -> bool {
    exists|j: int| 0 <= j < wi.len() && (#[trigger] wi[j]).term@ == t
}

pub open spec fn wi_index_of(wi: Seq<WordEntry>, t: Seq<char>) -> int {
    choose|j: int| 0 <= j < wi.len() && (#[trigger] wi[j]).term@ == t
}

/// The weight the word index assigns a term at a document position: the
/// postings sum of the term's entry, or zero when the term is not indexed.
pub open spec fn wsum(wi: Seq<WordEntry>, t: Seq<char>, i: int) -> int {
    if wi_has(wi, t) {
        fsum(wi[wi_index_of(wi, t)].posts@, i)
    } else {
        0
    }
}

/// No two entries index the same term.
pub open spec fn wi_distinct(wi: Seq<WordEntry>) -> bool {
    forall|j: int, l: int|
        #![trigger wi[j].term, wi[l].term]
        0 <= j < l < wi.len() ==> wi[j].term@ != wi[l].term@
}

/// Every entry is non-empty, and every posting stays below the position
/// bound and carries a positive weight.
pub open spec fn wi_shape(wi: Seq<WordEntry>, n: int) -> bool {
    forall|j: int|
        0 <= j < wi.len() ==> ((#[trigger] wi[j]).posts@.len() > 0 && forall|m: int|
            0 <= m < wi[j].posts@.len() ==> ((#[trigger] wi[j].posts@[m]).pos as int) < n
                && wi[j].posts@[m].weight >= 1)
}

/// The word index is exactly the one the documents induce.
pub open spec fn wi_ok(docs: Seq<DocV>, wi: Seq<WordEntry>) -> bool {
    &&& wi_distinct(wi)
    &&& wi_shape(wi, docs.len() as int)
    &&& forall|t: Seq<char>, i: int|
        0 <= i < docs.len() ==> #[trigger] wsum(wi, t, i) == term_weight(docs[i], t)
}

/// With distinct terms, an entry's own term looks up that entry.
pub proof fn lemma_wsum_at(wi: Seq<WordEntry>, j: int, i: int)
    requires
        wi_distinct(wi),
        0 <= j < wi.len(),
    ensures
        wsum(wi, wi[j].term@, i) == fsum(wi[j].posts@, i),
{
    let t = wi[j].term@;
    assert(wi_has(wi, t));
    let j2 = wi_index_of(wi, t);
    assert(0 <= j2 < wi.len() && wi[j2].term@ == t);
    if j2 != j {
        assert(wi[j].term@ != wi[j2].term@);
    }
}

/// Whether some entry indexes the keyword.
pub open spec fn ki_has(ki: Seq<KwEntry>, t: Seq<char>) -> bool {
    exists|j: int| 0 <= j < ki.len() && (#[trigger] ki[j]).term@ == t
}

pub open spec fn ki_index_of(ki: Seq<KwEntry>, t: Seq<char>) -> int {
    choose|j: int| 0 <= j < ki.len() && (#[trigger] ki[j]).term@ == t
}

/// The positions the keyword index lists under a keyword, in order; empty
/// when the keyword is not indexed.
pub open spec fn klist(ki: Seq<KwEntry>, t: Seq<char>) -> Seq<int> {
    if ki_has(ki, t) {
        ki[ki_index_of(ki, t)].posts@.map_values(|p: usize| p as int)
    } else {
        Seq::empty()
    }
}

pub open spec fn ki_distinct(ki: Seq<KwEntry>) -> bool {
    forall|j: int, l: int|
        #![trigger ki[j].term, ki[l].term]
        0 <= j < l < ki.len() ==> ki[j].term@ != ki[l].term@
}

pub open spec fn ki_shape(ki: Seq<KwEntry>) -> bool {
    forall|j: int| 0 <= j < ki.len() ==> (#[trigger] ki[j]).posts@.len() > 0
}

/// The keyword index is exactly the one the documents induce.
pub open spec fn ki_ok(docs: Seq<DocV>, ki: Seq<KwEntry>) -> bool {
    &&& ki_distinct(ki)
    &&& ki_shape(ki)
    &&& forall|t: Seq<char>| #[trigger] klist(ki, t) == kpostings(docs, t)
}

pub proof fn lemma_klist_at(ki: Seq<KwEntry>, j: int)
    requires
        ki_distinct(ki),
        0 <= j < ki.len(),
    ensures
        klist(ki, ki[j].term@) == ki[j].posts@.map_values(|p: usize| p as int),
{
    let t = ki[j].term@;
    assert(ki_has(ki, t));
    let j2 = ki_index_of(ki, t);
    assert(0 <= j2 < ki.len() && ki[j2].term@ == t);
    if j2 != j {
        assert(ki[j].term@ != ki[j2].term@);
    }
}

/// The entry indexing the term, if any.
pub fn find_word(wi: &Vec<WordEntry>, t: &Vec<char>) -> (r: Option<usize>)
    ensures
        match r {
            Some(j) => j < wi@.len() && wi@[j as int].term@ == t@,
            None => !wi_has(wi@, t@),
        },
{
    let mut j: usize = 0;
    while j < wi.len()
        invariant
            j <= wi@.len(),
            forall|l: int| 0 <= l < j ==> (#[trigger] wi@[l]).term@ != t@,
        decreases wi@.len() - j,
    {
        if eq_chars(&wi[j].term, t) {
            return Some(j);
        }
        j = j + 1;
    }
    None
}

/// The entry indexing the keyword, if any.
pub fn find_kw(ki: &Vec<KwEntry>, t: &Vec<char>) -> (r: Option<usize>)
    ensures
        match r {
            Some(j) => j < ki@.len() && ki@[j as int].term@ == t@,
            None => !ki_has(ki@, t@),
        },
{
    let mut j: usize = 0;
    while j < ki.len()
        invariant
            j <= ki@.len(),
            forall|l: int| 0 <= l < j ==> (#[trigger] ki@[l]).term@ != t@,
        decreases ki@.len() - j,
    {
        if eq_chars(&ki[j].term, t) {
            return Some(j);
        }
        j = j + 1;
    }
    None
}


/// Postings with non-negative weights sum to non-negative values.
pub proof fn lemma_fsum_nonneg(ps: Seq<Posting>, i: int)
    ensures
        fsum(ps, i) >= 0,
    decreases ps.len(),
{
    if ps.len() > 0 {
        lemma_fsum_nonneg(ps.drop_last(), i);
    }
}

/// With positive weights, a postings list sums to something at a position
/// exactly when it mentions that position.
pub proof fn lemma_fsum_pos(ps: Seq<Posting>, i: int)
    requires
        forall|m: int| 0 <= m < ps.len() ==> (#[trigger] ps[m]).weight >= 1,
    ensures
        fsum(ps, i) != 0 <==> exists|m: int| 0 <= m < ps.len() && (#[trigger] ps[m]).pos == i,
    decreases ps.len(),
{
    if ps.len() > 0 {
        let p = ps.drop_last();
        assert(forall|m: int| 0 <= m < p.len() ==> p[m] == ps[m]);
        lemma_fsum_pos(p, i);
        lemma_fsum_nonneg(p, i);
        if fsum(ps, i) != 0 {
            if fsum(p, i) != 0 {
                let m = choose|m: int| 0 <= m < p.len() && (#[trigger] p[m]).pos == i;
                assert(ps[m].pos == i);
            } else {
                assert(ps.last().pos == i);
                assert(ps[ps.len() - 1].pos == i);
            }
        }
        if exists|m: int| 0 <= m < ps.len() && (#[trigger] ps[m]).pos == i {
            let m = choose|m: int| 0 <= m < ps.len() && (#[trigger] ps[m]).pos == i;
            if m < ps.len() - 1 {
                assert(p[m].pos == i);
                assert(fsum(p, i) != 0);
            } else {
                assert(ps.last().weight >= 1);
            }
        }
    }
}

/// Record one occurrence of a term at position `n` with weight `w`: the
/// term's entry gains one posting, created first if the term is new.
pub fn add_occurrence(wi: &mut Vec<WordEntry>, t: &Vec<char>, n: usize, w: u64)
    requires
        wi_distinct(old(wi)@),
        wi_shape(old(wi)@, n + 1),
        1 <= w,
    ensures
        wi_distinct(final(wi)@),
        wi_shape(final(wi)@, n + 1),
        forall|tt: Seq<char>| wi_has(final(wi)@, tt) <==> (wi_has(old(wi)@, tt) || tt == t@),
        forall|tt: Seq<char>, i: int|
            #[trigger] wsum(final(wi)@, tt, i) == wsum(old(wi)@, tt, i) + if tt == t@ && i == n {
                w as int
            } else {
                0
            },
        final(wi)@.len() == old(wi)@.len() + if wi_has(old(wi)@, t@) {
            0int
        } else {
            1int
        },
{
    let ghost wi0 = wi@;
    let p = Posting { pos: n, weight: w };
    match find_word(wi, t) {
        Some(j) => {
            let mut e = wi.remove(j);
            e.posts.push(p);
            let ghost e1 = e;
            wi.insert(j, e);
            proof {
                assert(wi@ =~= wi0.update(j as int, e1));
                assert(forall|l: int|
                    0 <= l < wi@.len() ==> (#[trigger] wi@[l]).term@ == wi0[l].term@);
                assert(wi_distinct(wi@));
                assert forall|tt: Seq<char>| wi_has(wi@, tt) <==> (wi_has(wi0, tt) || tt
                    == t@) by {
                    if wi_has(wi0, tt) {
                        let l = wi_index_of(wi0, tt);
                        assert(0 <= l < wi0.len() && wi0[l].term@ == tt);
                        assert(wi@[l].term@ == tt);
                    }
                    if wi_has(wi@, tt) {
                        let l = choose|l: int|
                            0 <= l < wi@.len() && (#[trigger] wi@[l]).term@ == tt;
                        assert(wi0[l].term@ == tt);
                    }
                    if tt == t@ {
                        assert(wi@[j as int].term@ == tt);
                    }
                }
                assert(wi_shape(wi@, n + 1)) by {
                    assert(forall|m: int|
                        0 <= m < e1.posts@.len() - 1 ==> e1.posts@[m] == wi0[j as int].posts@[m]);
                    assert(e1.posts@.last() == p);
                }
                assert forall|tt: Seq<char>, i: int| #[trigger] wsum(wi@, tt, i) == wsum(
                    wi0,
                    tt,
                    i,
                ) + (if tt == t@ && i == n {
                    w as int
                } else {
                    0int
                }) by {
                    if tt == t@ {
                        lemma_wsum_at(wi@, j as int, i);
                        lemma_wsum_at(wi0, j as int, i);
                        lemma_fsum_push(wi0[j as int].posts@, p, i);
                    } else if wi_has(wi0, tt) {
                        let l = wi_index_of(wi0, tt);
                        assert(0 <= l < wi0.len() && wi0[l].term@ == tt);
                        assert(l != j);
                        assert(wi@[l] == wi0[l]);
                        lemma_wsum_at(wi@, l, i);
                        lemma_wsum_at(wi0, l, i);
                    } else {
                        assert(!wi_has(wi@, tt));
                    }
                }
            }
        },
        None => {
            let mut posts: Vec<Posting> = Vec::new();
            posts.push(p);
            let term = t.clone();
            wi.push(WordEntry { term, posts });
            proof {
                let ghost e1 = wi@.last();
                assert(wi@ =~= wi0.push(e1));
                assert(e1.term@ == t@);
                assert(e1.posts@ =~= seq![p]);
                assert(forall|l: int| 0 <= l < wi0.len() ==> wi@[l] == wi0[l]);
                assert(wi_distinct(wi@)) by {
                    assert(forall|l: int|
                        0 <= l < wi0.len() ==> (#[trigger] wi0[l]).term@ != t@);
                }
                assert(wi_shape(wi@, n + 1)) by {
                    assert(e1.posts@[0] == p);
                }
                assert forall|tt: Seq<char>, i: int| #[trigger] wsum(wi@, tt, i) == wsum(
                    wi0,
                    tt,
                    i,
                ) + (if tt == t@ && i == n {
                    w as int
                } else {
                    0int
                }) by {
                    if tt == t@ {
                        assert(wi@[wi0.len() as int].term@ == tt);
                        assert(wi_has(wi@, tt));
                        lemma_wsum_at(wi@, wi0.len() as int, i);
                        assert(fsum(e1.posts@, i) == if p.pos == i {
                            w as int
                        } else {
                            0int
                        }) by {
                            assert(e1.posts@.drop_last() =~= Seq::<Posting>::empty());
                            assert(e1.posts@.last() == p);
                            assert(fsum(Seq::<Posting>::empty(), i) == 0);
                        }
                    } else if wi_has(wi0, tt) {
                        let l = wi_index_of(wi0, tt);
                        assert(0 <= l < wi0.len() && wi0[l].term@ == tt);
                        assert(wi@[l] == wi0[l]);
                        assert(wi_has(wi@, tt));
                        lemma_wsum_at(wi@, l, i);
                        lemma_wsum_at(wi0, l, i);
                    } else {
                        if wi_has(wi@, tt) {
                            let l = choose|l: int|
                                0 <= l < wi@.len() && (#[trigger] wi@[l]).term@ == tt;
                            assert(l < wi0.len());
                            assert(wi0[l].term@ == tt);
                            assert(false);
                        }
                    }
                }
            }
        },
    }
}


/// A postings list mentioning a position nowhere sums to zero there.
pub proof fn lemma_fsum_zero(ps: Seq<Posting>, i: int)
    requires
        forall|m: int| 0 <= m < ps.len() ==> ((#[trigger] ps[m]).pos as int) != i,
    ensures
        fsum(ps, i) == 0,
    decreases ps.len(),
{
    if ps.len() > 0 {
        assert(forall|m: int| 0 <= m < ps.len() - 1 ==> ps.drop_last()[m] == ps[m]);
        lemma_fsum_zero(ps.drop_last(), i);
    }
}

/// Nothing is counted in an empty list.
pub proof fn lemma_cnt_empty(t: Seq<char>)
    ensures
        cnt(Seq::empty(), t) == 0,
{
    reveal_with_fuel(Seq::<_>::filter, 1);
}

/// Record one keyword occurrence at position `n`: the keyword's entry gains
/// that position at its end, created first if the keyword is new.
pub fn add_kw_pos(ki: &mut Vec<KwEntry>, t: &Vec<char>, n: usize)
    requires
        ki_distinct(old(ki)@),
        ki_shape(old(ki)@),
    ensures
        ki_distinct(final(ki)@),
        ki_shape(final(ki)@),
        forall|tt: Seq<char>| ki_has(final(ki)@, tt) <==> (ki_has(old(ki)@, tt) || tt == t@),
        forall|tt: Seq<char>|
            tt != t@ ==> #[trigger] klist(final(ki)@, tt) == klist(old(ki)@, tt),
        klist(final(ki)@, t@) == klist(old(ki)@, t@).push(n as int),
        final(ki)@.len() == old(ki)@.len() + if ki_has(old(ki)@, t@) {
            0int
        } else {
            1int
        },
{
    let ghost ki0 = ki@;
    let ghost f = |p: usize| p as int;
    match find_kw(ki, t) {
        Some(j) => {
            let mut e = ki.remove(j);
            e.posts.push(n);
            let ghost e1 = e;
            ki.insert(j, e);
            proof {
                assert(ki@ =~= ki0.update(j as int, e1));
                assert(forall|l: int|
                    0 <= l < ki@.len() ==> (#[trigger] ki@[l]).term@ == ki0[l].term@);
                assert(ki_distinct(ki@));
                assert forall|tt: Seq<char>| ki_has(ki@, tt) <==> (ki_has(ki0, tt) || tt
                    == t@) by {
                    if ki_has(ki0, tt) {
                        let l = ki_index_of(ki0, tt);
                        assert(0 <= l < ki0.len() && ki0[l].term@ == tt);
                        assert(ki@[l].term@ == tt);
                    }
                    if ki_has(ki@, tt) {
                        let l = choose|l: int|
                            0 <= l < ki@.len() && (#[trigger] ki@[l]).term@ == tt;
                        assert(ki0[l].term@ == tt);
                    }
                    if tt == t@ {
                        assert(ki@[j as int].term@ == tt);
                    }
                }
                assert forall|tt: Seq<char>|
                    tt != t@ implies #[trigger] klist(ki@, tt) == klist(ki0, tt) by {
                    if ki_has(ki0, tt) {
                        let l = ki_index_of(ki0, tt);
                        assert(0 <= l < ki0.len() && ki0[l].term@ == tt);
                        assert(l != j);
                        assert(ki@[l] == ki0[l]);
                        lemma_klist_at(ki@, l);
                        lemma_klist_at(ki0, l);
                    }
                }
                assert(klist(ki@, t@) == klist(ki0, t@).push(n as int)) by {
                    lemma_klist_at(ki@, j as int);
                    lemma_klist_at(ki0, j as int);
                    assert(e1.posts@ == ki0[j as int].posts@.push(n));
                    assert(e1.posts@.map_values(f) =~= ki0[j as int].posts@.map_values(f).push(
                        n as int,
                    ));
                }
            }
        },
        None => {
            let mut posts: Vec<usize> = Vec::new();
            posts.push(n);
            let term = t.clone();
            ki.push(KwEntry { term, posts });
            proof {
                let ghost e1 = ki@.last();
                assert(ki@ =~= ki0.push(e1));
                assert(e1.term@ == t@);
                assert(e1.posts@ =~= seq![n]);
                assert(forall|l: int| 0 <= l < ki0.len() ==> ki@[l] == ki0[l]);
                assert(ki_distinct(ki@)) by {
                    assert(forall|l: int|
                        0 <= l < ki0.len() ==> (#[trigger] ki0[l]).term@ != t@);
                }
                assert forall|tt: Seq<char>|
                    tt != t@ implies #[trigger] klist(ki@, tt) == klist(ki0, tt) by {
                    if ki_has(ki0, tt) {
                        let l = ki_index_of(ki0, tt);
                        assert(0 <= l < ki0.len() && ki0[l].term@ == tt);
                        assert(ki@[l] == ki0[l]);
                        assert(ki_has(ki@, tt));
                        lemma_klist_at(ki@, l);
                        lemma_klist_at(ki0, l);
                    } else {
                        if ki_has(ki@, tt) {
                            let l = choose|l: int|
                                0 <= l < ki@.len() && (#[trigger] ki@[l]).term@ == tt;
                            assert(l < ki0.len());
                            assert(ki0[l].term@ == tt);
                            assert(false);
                        }
                    }
                }
                assert(klist(ki@, t@) == klist(ki0, t@).push(n as int)) by {
                    assert(ki@[ki0.len() as int].term@ == t@);
                    assert(ki_has(ki@, t@));
                    lemma_klist_at(ki@, ki0.len() as int);
                    assert(e1.posts@.map_values(f) =~= Seq::<int>::empty().push(n as int));
                    assert(klist(ki0, t@) == Seq::<int>::empty());
                }
                assert forall|tt: Seq<char>| ki_has(ki@, tt) <==> (ki_has(ki0, tt) || tt
                    == t@) by {
                    if ki_has(ki0, tt) {
                        let l = ki_index_of(ki0, tt);
                        assert(0 <= l < ki0.len() && ki0[l].term@ == tt);
                        assert(ki@[l].term@ == tt);
                    }
                    if ki_has(ki@, tt) && tt != t@ {
                        let l = choose|l: int|
                            0 <= l < ki@.len() && (#[trigger] ki@[l]).term@ == tt;
                        assert(l < ki0.len());
                        assert(ki0[l].term@ == tt);
                    }
                    if tt == t@ {
                        assert(ki@[ki0.len() as int].term@ == tt);
                    }
                }
            }
        },
    }
}


/// Index one document at position `n`: title tokens at weight 10,
/// description tokens at weight 5, then each keyword, normalized whole, at
/// weight 20 in the word index and once in the keyword index.
pub fn index_post(
    cache: &mut NormCache,
    wi: &mut Vec<WordEntry>,
    ki: &mut Vec<KwEntry>,
    post: &PostData,
    n: usize,
    Ghost(docs): Ghost<Seq<DocV>>,
)
    requires
        old(cache).wf(),
        wi_ok(docs, old(wi)@),
        ki_ok(docs, old(ki)@),
        n == docs.len(),
    ensures
        final(cache).wf(),
        wi_ok(docs.push(post@), final(wi)@),
        ki_ok(docs.push(post@), final(ki)@),
{
    let ghost d = post@;
    let ghost docs2 = docs.push(d);
    proof {
        assert forall|tt: Seq<char>| wsum(wi@, tt, n as int) == 0 by {
            if wi_has(wi@, tt) {
                let j = wi_index_of(wi@, tt);
                assert(0 <= j < wi@.len() && wi@[j].term@ == tt);
                lemma_fsum_zero(wi@[j].posts@, n as int);
            }
        }
        assert forall|tt: Seq<char>|
            klist(ki@, tt) == kpostings(docs, tt) + rep_idx(n as int, cnt(
                kw_norms(d).take(0),
                tt,
            )) by {
            assert(kw_norms(d).take(0) =~= Seq::<Seq<char>>::empty());
            lemma_cnt_empty(tt);
            assert(kpostings(docs, tt) + rep_idx(n as int, 0) =~= kpostings(docs, tt));
        }
    }
    // title tokens, weight 10
    let toks = cache.tokenize(post.title.as_str());
    let mut k: usize = 0;
    proof {
        assert(dview(toks@) == title_toks(d));
        assert forall|tt: Seq<char>|
            wsum(wi@, tt, n as int) == 10 * cnt(title_toks(d).take(0), tt) by {
            assert(title_toks(d).take(0) =~= Seq::<Seq<char>>::empty());
            lemma_cnt_empty(tt);
        }
    }
    while k < toks.len()
        invariant
            cache.wf(),
            k <= toks@.len(),
            dview(toks@) == title_toks(d),
            n == docs.len(),
            wi_distinct(wi@),
            wi_shape(wi@, n + 1),
            forall|tt: Seq<char>, i: int|
                0 <= i < docs.len() ==> #[trigger] wsum(wi@, tt, i) == term_weight(docs[i], tt),
            forall|tt: Seq<char>|
                #[trigger] wsum(wi@, tt, n as int) == 10 * cnt(title_toks(d).take(k as int), tt),
        decreases toks@.len() - k,
    {
        add_occurrence(wi, &toks[k], n, 10);
        proof {
            let ghost t0 = toks@[k as int]@;
            assert(title_toks(d)[k as int] == t0);
            assert(title_toks(d).take(k + 1) =~= title_toks(d).take(k as int).push(t0));
            assert forall|tt: Seq<char>|
                #[trigger] wsum(wi@, tt, n as int) == 10 * cnt(title_toks(d).take(k + 1), tt) by {
                lemma_cnt_push(title_toks(d).take(k as int), t0, tt);
            }
        }
        k = k + 1;
    }
    proof {
        assert(title_toks(d).take(toks@.len() as int) =~= title_toks(d));
    }
    // description tokens, weight 5
    let ghost dt = desc_toks(d);
    match &post.description {
        Some(dsc) => {
            let dtoks = cache.tokenize(dsc.as_str());
            proof {
                assert(dview(dtoks@) == dt);
                assert(dt.take(0) =~= Seq::<Seq<char>>::empty());
                assert forall|tt: Seq<char>|
                    wsum(wi@, tt, n as int) == 10 * cnt(title_toks(d), tt) + 5 * cnt(
                        dt.take(0),
                        tt,
                    ) by {
                    lemma_cnt_empty(tt);
                }
            }
            let mut k2: usize = 0;
            while k2 < dtoks.len()
                invariant
                    cache.wf(),
                    k2 <= dtoks@.len(),
                    dview(dtoks@) == dt,
                    n == docs.len(),
                    wi_distinct(wi@),
                    wi_shape(wi@, n + 1),
                    forall|tt: Seq<char>, i: int|
                        0 <= i < docs.len() ==> #[trigger] wsum(wi@, tt, i) == term_weight(
                            docs[i],
                            tt,
                        ),
                    forall|tt: Seq<char>|
                        #[trigger] wsum(wi@, tt, n as int) == 10 * cnt(title_toks(d), tt) + 5
                            * cnt(dt.take(k2 as int), tt),
                decreases dtoks@.len() - k2,
            {
                add_occurrence(wi, &dtoks[k2], n, 5);
                proof {
                    let ghost t0 = dtoks@[k2 as int]@;
                    assert(dt[k2 as int] == t0);
                    assert(dt.take(k2 + 1) =~= dt.take(k2 as int).push(t0));
                    assert forall|tt: Seq<char>|
                        #[trigger] wsum(wi@, tt, n as int) == 10 * cnt(title_toks(d), tt) + 5
                            * cnt(dt.take(k2 + 1), tt) by {
                        lemma_cnt_push(dt.take(k2 as int), t0, tt);
                    }
                }
                k2 = k2 + 1;
            }
            proof {
                assert(dt.take(dtoks@.len() as int) =~= dt);
            }
        },
        None => {
            proof {
                assert(dt =~= Seq::<Seq<char>>::empty());
                assert forall|tt: Seq<char>| cnt(dt, tt) == 0 by {
                    lemma_cnt_empty(tt);
                }
            }
        },
    }
    // keywords: weight 20 in the word index, one keyword posting each
    let ghost kn = kw_norms(d);
    proof {
        assert(kn.take(0) =~= Seq::<Seq<char>>::empty());
        assert forall|tt: Seq<char>|
            wsum(wi@, tt, n as int) == 10 * cnt(title_toks(d), tt) + 5 * cnt(desc_toks(d), tt)
                + 20 * cnt(kn.take(0), tt) by {
            lemma_cnt_empty(tt);
        }
    }
    let mut k3: usize = 0;
    while k3 < post.keywords.len()
        invariant
            cache.wf(),
            k3 <= post.keywords@.len(),
            kn == kw_norms(d),
            kn.len() == post.keywords@.len(),
            d == post@,
            n == docs.len(),
            wi_distinct(wi@),
            wi_shape(wi@, n + 1),
            ki_distinct(ki@),
            ki_shape(ki@),
            forall|tt: Seq<char>, i: int|
                0 <= i < docs.len() ==> #[trigger] wsum(wi@, tt, i) == term_weight(docs[i], tt),
            forall|tt: Seq<char>|
                #[trigger] wsum(wi@, tt, n as int) == 10 * cnt(title_toks(d), tt) + 5 * cnt(
                    desc_toks(d),
                    tt,
                ) + 20 * cnt(kn.take(k3 as int), tt),
            forall|tt: Seq<char>|
                #[trigger] klist(ki@, tt) == kpostings(docs, tt) + rep_idx(n as int, cnt(
                    kn.take(k3 as int),
                    tt,
                )),
        decreases post.keywords@.len() - k3,
    {
        let kw = &post.keywords[k3];
        let nk = cache.norm_chars(kw.as_str());
        proof {
            assert(d.keywords[k3 as int] == post.keywords@[k3 as int]@);
            assert(kn[k3 as int] == norm_spec(d.keywords[k3 as int]));
            assert(nk@ == kn[k3 as int]);
        }
        let ghost ki_before = ki@;
        add_kw_pos(ki, &nk, n);
        add_occurrence(wi, &nk, n, 20);
        proof {
            let ghost t0 = kn[k3 as int];
            assert(kn.take(k3 + 1) =~= kn.take(k3 as int).push(t0));
            assert forall|tt: Seq<char>|
                #[trigger] wsum(wi@, tt, n as int) == 10 * cnt(title_toks(d), tt) + 5 * cnt(
                    desc_toks(d),
                    tt,
                ) + 20 * cnt(kn.take(k3 + 1), tt) by {
                lemma_cnt_push(kn.take(k3 as int), t0, tt);
            }
            assert forall|tt: Seq<char>|
                #[trigger] klist(ki@, tt) == kpostings(docs, tt) + rep_idx(n as int, cnt(
                    kn.take(k3 + 1),
                    tt,
                )) by {
                lemma_cnt_push(kn.take(k3 as int), t0, tt);
                if tt == t0 {
                    let c0 = cnt(kn.take(k3 as int), tt);
                    assert(klist(ki@, tt) == klist(ki_before, tt).push(n as int));
                    assert(rep_idx(n as int, c0 + 1) =~= rep_idx(n as int, c0).push(n as int));
                    assert((kpostings(docs, tt) + rep_idx(n as int, c0)).push(n as int)
                        =~= kpostings(docs, tt) + rep_idx(n as int, c0 + 1));
                }
            }
        }
        k3 = k3 + 1;
    }
    proof {
        assert(kn.take(post.keywords@.len() as int) =~= kn);
        assert(docs2.drop_last() =~= docs);
        assert(docs2.last() == d);
        // the word index now matches the extended document sequence
        assert forall|tt: Seq<char>, i: int|
            0 <= i < docs2.len() implies #[trigger] wsum(wi@, tt, i) == term_weight(
            docs2[i],
            tt,
        ) by {
            if i < docs.len() {
                assert(docs2[i] == docs[i]);
                assert(wsum(wi@, tt, i) == term_weight(docs[i], tt));
            } else {
                assert(i == n as int);
                assert(docs2[i] == d);
            }
        }
        assert(wi_ok(docs2, wi@));
        assert forall|tt: Seq<char>| #[trigger] klist(ki@, tt) == kpostings(docs2, tt) by {
            assert(kpostings(docs2, tt) == kpostings(docs, tt) + rep_idx(n as int, cnt(kn, tt)));
        }
        assert(ki_ok(docs2, ki@));
    }
}

} // verus!
