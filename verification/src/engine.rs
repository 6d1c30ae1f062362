//! The search engine: an append-only document store, the inverted index
//! built at ingestion, and the ranked search, exact tag lookup, statistics
//! and reset operations. Every public operation's result is pinned as a
//! function of the stored documents and the inputs alone; the normalization
//! cache can change only the cost of a call, never its outcome.
use vstd::prelude::*;
use crate::cache::NormCache;
use crate::index::{
    find_kw, index_post, ki_has, ki_ok, klist, lemma_fsum_pos, lemma_klist_at, lemma_wsum_at,
    wi_has, wi_ok, wsum, KwEntry, WordEntry,
};
use crate::model::{
    cands_spec, docs_view, kpostings, lemma_cands_props, lemma_kpostings_bounds, occurs,
    term_weight, CandV, DocV, PostData, ResultV, SearchResult, SearchStats,
};
use crate::norm::{dview, norm_spec, qterms_of};
use crate::rank::{cand_before, lemma_rank_spec, pos_distinct, rank_cands, rank_spec};
use crate::score::{build_cands, cands_view, flags_pass, phrase_pass, score_pass};
use crate::snippet::{make_snippet, snippet_spec};

verus! {

/// The result record a ranked candidate denotes, snippet attached. The
/// snippet is looked up by the result's id, so with duplicate ids it comes
/// from the first document carrying that id.
pub open spec fn result_of(docs: Seq<DocV>, c: CandV, qs: Seq<Seq<char>>) -> ResultV {
    ResultV {
        id: docs[c.pos].id,
        score: c.score,
        title_match: c.tm,
        description_match: c.dm,
        keyword_matches: c.kws,
        snippet: snippet_spec(docs, docs[c.pos].id, qs),
    }
}

/// Everything a search returns, as a function of the stored documents, the
/// query and the result limit: score and classify the touched documents,
/// rank them, truncate, and attach snippets. A query with no terms returns
/// nothing.
pub open spec fn search_spec(docs: Seq<DocV>, q: Seq<char>, max: int) -> Seq<ResultV> {
    let qs = qterms_of(q);
    if qs.len() == 0 {
        Seq::empty()
    } else {
        let sorted = rank_spec(cands_spec(docs, qs));
        let cut = if max < sorted.len() {
            sorted.take(max)
        } else {
            sorted
        };
        cut.map_values(|c: CandV| result_of(docs, c, qs))
    }
}

/// The result record of one keyword posting: a fixed score of 100, no field
/// flags, the raw tag echoed back, and no snippet.
pub open spec fn tag_result(docs: Seq<DocV>, i: int, tag: Seq<char>) -> ResultV {
    ResultV {
        id: docs[i].id,
        score: 100,
        title_match: false,
        description_match: false,
        keyword_matches: seq![tag],
        snippet: None,
    }
}

/// Everything an exact tag lookup returns: one result per keyword posting
/// under the normalized tag, in posting order.
pub open spec fn tag_spec(docs: Seq<DocV>, tag: Seq<char>) -> Seq<ResultV> {
    kpostings(docs, norm_spec(tag)).map_values(|i: int| tag_result(docs, i, tag))
}

/// The views of a result list.
pub open spec fn results_view(rs: Seq<SearchResult>) -> Seq<ResultV> {
    rs.map_values(|r: SearchResult| r@)
}

/// An in-memory full-text search engine over short documents.
pub struct SearchEngine {
    posts: Vec<PostData>,
    word_index: Vec<WordEntry>,
    keyword_index: Vec<KwEntry>,
    cache: NormCache,
}

impl SearchEngine {
    /// The stored documents, in insertion order.
    pub closed spec fn docs(self) -> Seq<DocV> {
        docs_view(self.posts@)
    }

    /// The distinct indexed terms, one per word-index entry.
    pub closed spec fn word_terms(self) -> Seq<Seq<char>> {
        self.word_index@.map_values(|e: WordEntry| e.term@)
    }

    /// The distinct indexed keywords, one per keyword-index entry.
    pub closed spec fn keyword_terms(self) -> Seq<Seq<char>> {
        self.keyword_index@.map_values(|e: KwEntry| e.term@)
    }

    /// Both index structures are exactly the ones the stored documents
    /// induce, and every cache entry holds the normalization of its key.
    pub closed spec fn wf(self) -> bool {
        &&& self.cache.wf()
        &&& wi_ok(self.docs(), self.word_index@)
        &&& ki_ok(self.docs(), self.keyword_index@)
    }

    /// An empty engine.
    pub fn new() -> (r: SearchEngine)
        ensures
            r.wf(),
            r.docs() == Seq::<DocV>::empty(),
    {
        let r = SearchEngine {
            posts: Vec::new(),
            word_index: Vec::new(),
            keyword_index: Vec::new(),
            cache: NormCache::new(),
        };
        proof {
            assert(r.docs() =~= Seq::<DocV>::empty());
            assert(wi_ok(r.docs(), r.word_index@));
            assert forall|t: Seq<char>| #[trigger] klist(r.keyword_index@, t) == kpostings(
                r.docs(),
                t,
            ) by {
                assert(!ki_has(r.keyword_index@, t));
            }
            assert(ki_ok(r.docs(), r.keyword_index@));
        }
        r
    }

    /// Store one document and index it: each title token at weight 10, each
    /// description token at weight 5, each keyword (normalized whole) at
    /// weight 20 plus a keyword posting. The post count grows by exactly one.
    pub fn add_post(&mut self, post: PostData)
        requires
            old(self).wf(),
        ensures
            final(self).wf(),
            final(self).docs() == old(self).docs().push(post@),
    {
        let ghost docs0 = docs_view(self.posts@);
        let n = self.posts.len();
        proof {
            assert(docs0.len() == n);
        }
        index_post(
            &mut self.cache,
            &mut self.word_index,
            &mut self.keyword_index,
            &post,
            n,
            Ghost(docs0),
        );
        self.posts.push(post);
        proof {
            assert(docs_view(self.posts@) =~= docs0.push(self.posts@[n as int]@));
        }
    }

    /// Ranked free-text search: split the normalized query into terms, score
    /// every document touched by a term, apply the phrase bonus, rank by
    /// score (descending; ties in insertion order), truncate to
    /// `max_results`, and attach a snippet to each result. An empty or
    /// whitespace-only query returns an empty list; scores never decrease
    /// along the returned list, which never exceeds `max_results` entries.
    pub fn search(&mut self, query: &str, max_results: usize) -> (r: Vec<SearchResult>)
        requires
            old(self).wf(),
        ensures
            final(self).wf(),
            final(self).docs() == old(self).docs(),
            results_view(r@) == search_spec(old(self).docs(), query@, max_results as int),
            r@.len() <= max_results,
            forall|i: int, j: int| 0 <= i < j < r@.len() ==> r@[i].score >= r@[j].score,
    {
        let ghost docs = docs_view(self.posts@);
        let qs = self.cache.query_terms(query);
        let ghost qsv = dview(qs@);
        proof {
            assert(qsv.len() == qs@.len());
        }
        if qs.len() == 0 {
            let r: Vec<SearchResult> = Vec::new();
            proof {
                assert(results_view(r@) =~= search_spec(docs, query@, max_results as int));
            }
            return r;
        }
        let n = self.posts.len();
        proof {
            assert(docs.len() == n);
        }
        let st = score_pass(&self.word_index, n, &qs, Ghost(docs));
        let mut scores = st.0;
        let touch = st.1;
        let fl = flags_pass(&mut self.cache, &self.posts, &self.word_index, &qs);
        let tf = fl.0;
        let df = fl.1;
        let kws = fl.2;
        phrase_pass(&mut self.cache, &self.posts, &touch, &mut scores, &qs);
        let cands = build_cands(&scores, &touch, &tf, &df, kws, Ghost(docs), Ghost(qsv));
        let ghost cv = cands_spec(docs, qsv);
        let ghost sorted = rank_spec(cv);
        proof {
            lemma_cands_props(docs, qsv);
            assert(pos_distinct(cv));
            lemma_rank_spec(cv);
        }
        let mut top = rank_cands(cands);
        if top.len() > max_results {
            top.truncate(max_results);
            proof {
                assert(cands_view(top@) =~= sorted.take(max_results as int));
            }
        }
        let ghost cut = if (max_results as int) < sorted.len() {
            sorted.take(max_results as int)
        } else {
            sorted
        };
        proof {
            assert(cands_view(top@) == cut);
            assert(cut.len() <= max_results);
            // every listed candidate is a candidate of some touched document
            assert forall|l: int| 0 <= l < cut.len() implies 0 <= (#[trigger] cut[l]).pos
                < docs.len() by {
                if (max_results as int) < sorted.len() {
                    assert(cut[l] == sorted[l]);
                }
                assert(cv.contains(sorted[l]));
                let m = choose|m: int| 0 <= m < cv.len() && cv[m] == sorted[l];
                assert(0 <= cv[m].pos < docs.len());
            }
            // ranked order carries over to the truncation
            assert forall|i: int, j: int| 0 <= i < j < cut.len() implies cand_before(
                #[trigger] cut[i],
                #[trigger] cut[j],
            ) by {
                if (max_results as int) < sorted.len() {
                    assert(cut[i] == sorted[i] && cut[j] == sorted[j]);
                }
                assert(cand_before(sorted[i], sorted[j]));
            }
        }
        let ghost mapped = cut.map_values(|c: CandV| result_of(docs, c, qsv));
        let mut out: Vec<SearchResult> = Vec::new();
        let mut rest = top;
        let m = rest.len();
        let mut i: usize = 0;
        proof {
            assert(cands_view(rest@) =~= cut.skip(0));
            assert(results_view(out@) =~= mapped.take(0));
        }
        while i < m
            invariant
                i <= m,
                m == cut.len(),
                docs == docs_view(self.posts@),
                self.cache.wf(),
                wi_ok(docs, self.word_index@),
                ki_ok(docs, self.keyword_index@),
                qsv == dview(qs@),
                cands_view(rest@) == cut.skip(i as int),
                mapped == cut.map_values(|c: CandV| result_of(docs, c, qsv)),
                mapped.len() == m,
                forall|l: int| 0 <= l < cut.len() ==> 0 <= (#[trigger] cut[l]).pos < docs.len(),
                results_view(out@) == mapped.take(i as int),
            decreases m - i,
        {
            let ghost r0 = rest@;
            proof {
                assert(cands_view(rest@).len() == rest@.len());
                assert(cands_view(rest@)[0] == rest@[0]@);
                assert(cut.skip(i as int)[0] == cut[i as int]);
            }
            let c = rest.remove(0);
            proof {
                assert(c@ == cut[i as int]);
                assert forall|l: int|
                    0 <= l < cands_view(rest@).len() implies cands_view(rest@)[l] == cut.skip(
                    i + 1,
                )[l] by {
                    assert(rest@[l] == r0[l + 1]);
                    assert(cands_view(r0)[l + 1] == r0[l + 1]@);
                    assert(cut.skip(i as int)[l + 1] == cut[i + 1 + l]);
                }
                assert(cands_view(rest@).len() == rest@.len());
                assert(cands_view(rest@) =~= cut.skip(i + 1));
                assert(0 <= (c.pos as int) < docs.len());
                assert(docs[c.pos as int] == self.posts@[c.pos as int]@);
            }
            let id = self.posts[c.pos].id.clone();
            let snip = make_snippet(&mut self.cache, &self.posts, &id, &qs);
            let sr = SearchResult {
                id,
                score: c.score,
                title_match: c.tm,
                description_match: c.dm,
                keyword_matches: c.kws,
                snippet: snip,
            };
            proof {
                assert(sr@.snippet == snippet_spec(docs, docs[c.pos as int].id, qsv)) by {
                    match sr.snippet {
                        Some(s) => {},
                        None => {},
                    }
                }
                assert(sr@ == result_of(docs, cut[i as int], qsv));
                assert(mapped[i as int] == result_of(docs, cut[i as int], qsv));
            }
            out.push(sr);
            proof {
                assert(mapped.take(i + 1) =~= mapped.take(i as int).push(mapped[i as int]));
                assert(results_view(out@) =~= mapped.take(i + 1));
            }
            i = i + 1;
        }
        proof {
            assert(mapped.take(m as int) =~= mapped);
            assert(results_view(out@) == search_spec(docs, query@, max_results as int));
            assert forall|i2: int, j2: int| 0 <= i2 < j2 < out@.len() implies out@[i2].score
                >= out@[j2].score by {
                assert(cand_before(cut[i2], cut[j2]));
                assert(results_view(out@)[i2] == out@[i2]@);
                assert(results_view(out@)[j2] == out@[j2]@);
                assert(mapped[i2] == result_of(docs, cut[i2], qsv));
                assert(mapped[j2] == result_of(docs, cut[j2], qsv));
            }
        }
        out
    }

    /// Exact tag lookup: one result per stored keyword equal (after
    /// normalization) to the tag, each with score 100, no field flags, the
    /// raw tag echoed back, and no snippet. An unknown tag yields an empty
    /// list.
    pub fn search_by_tag(&mut self, tag: &str) -> (r: Vec<SearchResult>)
        requires
            old(self).wf(),
        ensures
            final(self).wf(),
            final(self).docs() == old(self).docs(),
            results_view(r@) == tag_spec(old(self).docs(), tag@),
    {
        let ghost docs = docs_view(self.posts@);
        let nt = self.cache.norm_chars(tag);
        let ghost kp = kpostings(docs, norm_spec(tag@));
        let ghost mapped = kp.map_values(|i: int| tag_result(docs, i, tag@));
        proof {
            assert(klist(self.keyword_index@, nt@) == kp);
            lemma_kpostings_bounds(docs, norm_spec(tag@));
        }
        let mut out: Vec<SearchResult> = Vec::new();
        match find_kw(&self.keyword_index, &nt) {
            None => {
                proof {
                    assert(!ki_has(self.keyword_index@, nt@));
                    assert(kp.len() == 0);
                    assert(results_view(out@) =~= mapped);
                }
            },
            Some(j) => {
                proof {
                    lemma_klist_at(self.keyword_index@, j as int);
                }
                let ghost ps = self.keyword_index@[j as int].posts@;
                proof {
                    assert(ps.map_values(|p: usize| p as int) == kp);
                    assert(ps.len() == kp.len());
                }
                let pn = self.keyword_index[j].posts.len();
                let mut m: usize = 0;
                proof {
                    assert(results_view(out@) =~= mapped.take(0));
                }
                while m < pn
                    invariant
                        m <= pn,
                        j < self.keyword_index@.len(),
                        ps == self.keyword_index@[j as int].posts@,
                        pn == ps.len(),
                        docs == docs_view(self.posts@),
                        kp == kpostings(docs, norm_spec(tag@)),
                        ps.map_values(|p: usize| p as int) == kp,
                        mapped == kp.map_values(|i: int| tag_result(docs, i, tag@)),
                        mapped.len() == kp.len(),
                        forall|l: int| 0 <= l < kp.len() ==> 0 <= #[trigger] kp[l] < docs.len(),
                        results_view(out@) == mapped.take(m as int),
                    decreases pn - m,
                {
                    let pos = self.keyword_index[j].posts[m];
                    proof {
                        assert(ps.map_values(|p: usize| p as int)[m as int] == ps[m as int] as int);
                        assert(kp[m as int] == pos as int);
                        assert((pos as int) < docs.len());
                        assert(docs[pos as int] == self.posts@[pos as int]@);
                    }
                    let id = self.posts[pos].id.clone();
                    let mut kwm: Vec<String> = Vec::new();
                    kwm.push(tag.to_owned());
                    let sr = SearchResult {
                        id,
                        score: 100,
                        title_match: false,
                        description_match: false,
                        keyword_matches: kwm,
                        snippet: None,
                    };
                    proof {
                        assert(sr@.keyword_matches =~= seq![tag@]);
                        assert(sr@ == tag_result(docs, kp[m as int], tag@));
                        assert(mapped[m as int] == tag_result(docs, kp[m as int], tag@));
                    }
                    out.push(sr);
                    proof {
                        assert(mapped.take(m + 1) =~= mapped.take(m as int).push(
                            mapped[m as int],
                        ));
                        assert(results_view(out@) =~= mapped.take(m + 1));
                    }
                    m = m + 1;
                }
                proof {
                    assert(mapped.take(pn as int) =~= mapped);
                }
            },
        }
        out
    }

    /// The index size counters: how many documents are stored, and how many
    /// distinct terms and keywords are indexed.
    pub fn get_stats(&self) -> (r: SearchStats)
        ensures
            r.total_posts == self.docs().len(),
            r.indexed_words == self.word_terms().len(),
            r.indexed_keywords == self.keyword_terms().len(),
    {
        let r = SearchStats {
            total_posts: self.posts.len(),
            indexed_words: self.word_index.len(),
            indexed_keywords: self.keyword_index.len(),
        };
        proof {
            assert(self.docs().len() == self.posts@.len());
            assert(self.word_terms().len() == self.word_index@.len());
            assert(self.keyword_terms().len() == self.keyword_index@.len());
        }
        r
    }

    /// Drop every document, both index structures and the cache. Idempotent.
    pub fn clear(&mut self)
        ensures
            final(self).wf(),
            final(self).docs() == Seq::<DocV>::empty(),
            final(self).word_terms() == Seq::<Seq<char>>::empty(),
            final(self).keyword_terms() == Seq::<Seq<char>>::empty(),
    {
        self.posts.clear();
        self.word_index.clear();
        self.keyword_index.clear();
        self.cache.reset();
        proof {
            assert(self.docs() =~= Seq::<DocV>::empty());
            assert(self.word_terms() =~= Seq::<Seq<char>>::empty());
            assert(self.keyword_terms() =~= Seq::<Seq<char>>::empty());
            assert(wi_ok(self.docs(), self.word_index@));
            assert forall|t: Seq<char>| #[trigger] klist(self.keyword_index@, t) == kpostings(
                self.docs(),
                t,
            ) by {
                assert(!ki_has(self.keyword_index@, t));
            }
            assert(ki_ok(self.docs(), self.keyword_index@));
        }
    }

    /// The statistics counters count exactly the distinct terms that occur
    /// in the stored documents: the indexed terms are distinct, a term is
    /// indexed exactly when some document gives it weight, and a keyword is
    /// indexed exactly when some document carries it.
    pub proof fn lemma_terms_characterization(self)
        requires
            self.wf(),
        ensures
            forall|i: int, j: int|
                0 <= i < j < self.word_terms().len() ==> self.word_terms()[i]
                    != self.word_terms()[j],
            forall|t: Seq<char>| self.word_terms().contains(t) <==> occurs(self.docs(), t),
            forall|i: int, j: int|
                0 <= i < j < self.keyword_terms().len() ==> self.keyword_terms()[i]
                    != self.keyword_terms()[j],
            forall|t: Seq<char>|
                self.keyword_terms().contains(t) <==> kpostings(self.docs(), t).len() > 0,
    {
        let wi = self.word_index@;
        let ki = self.keyword_index@;
        let docs = self.docs();
        assert(forall|i: int|
            0 <= i < self.word_terms().len() ==> self.word_terms()[i] == (#[trigger] wi[i]).term@);
        assert(forall|i: int|
            0 <= i < self.keyword_terms().len() ==> self.keyword_terms()[i] == (
            #[trigger] ki[i]).term@);
        assert forall|t: Seq<char>| self.word_terms().contains(t) <==> occurs(docs, t) by {
            if self.word_terms().contains(t) {
                let j = choose|j: int|
                    0 <= j < self.word_terms().len() && self.word_terms()[j] == t;
                assert(wi[j].term@ == t);
                let ps = wi[j].posts@;
                assert(ps.len() > 0);
                assert(ps[0].pos < docs.len() && ps[0].weight >= 1);
                assert(forall|m: int| 0 <= m < ps.len() ==> (#[trigger] ps[m]).weight >= 1) by {
                    assert(forall|m: int| 0 <= m < ps.len() ==> ps[m] == wi[j].posts@[m]);
                }
                lemma_fsum_pos(ps, ps[0].pos as int);
                assert(exists|m: int| 0 <= m < ps.len() && (#[trigger] ps[m]).pos == ps[0].pos)
                    by {
                    assert(ps[0].pos == ps[0].pos);
                }
                lemma_wsum_at(wi, j, ps[0].pos as int);
                assert(wsum(wi, t, ps[0].pos as int) != 0);
                assert(term_weight(docs[ps[0].pos as int], t) != 0);
            }
            if occurs(docs, t) {
                let i = choose|i: int| 0 <= i < docs.len() && #[trigger] term_weight(docs[i], t)
                    != 0;
                assert(wsum(wi, t, i) == term_weight(docs[i], t));
                assert(wi_has(wi, t));
                let j = choose|j: int| 0 <= j < wi.len() && (#[trigger] wi[j]).term@ == t;
                assert(self.word_terms()[j] == t);
            }
        }
        assert forall|t: Seq<char>|
            self.keyword_terms().contains(t) <==> kpostings(docs, t).len() > 0 by {
            if self.keyword_terms().contains(t) {
                let j = choose|j: int|
                    0 <= j < self.keyword_terms().len() && self.keyword_terms()[j] == t;
                assert(ki[j].term@ == t);
                lemma_klist_at(ki, j);
                assert(klist(ki, t).len() > 0);
                assert(klist(ki, t) == kpostings(docs, t));
            }
            if kpostings(docs, t).len() > 0 {
                assert(klist(ki, t) == kpostings(docs, t));
                assert(ki_has(ki, t));
                let j = choose|j: int| 0 <= j < ki.len() && (#[trigger] ki[j]).term@ == t;
                assert(self.keyword_terms()[j] == t);
            }
        }
    }

    /// Cache transparency: what a search returns is a function of the
    /// stored documents, the query and the limit alone. Two engines holding
    /// the same documents answer every search identically, whatever their
    /// caches hold.
    pub proof fn lemma_cache_transparency(e1: SearchEngine, e2: SearchEngine, q: Seq<char>, max: int)
        requires
            e1.docs() == e2.docs(),
        ensures
            search_spec(e1.docs(), q, max) == search_spec(e2.docs(), q, max),
            tag_spec(e1.docs(), q) == tag_spec(e2.docs(), q),
    {
    }
}

/// Score sanity: every result a search can return carries a finite,
/// non-negative score. Scores are whole numbers, so there is no
/// not-a-number or infinity to sanitize away.
pub proof fn lemma_scores_bounded(docs: Seq<DocV>, q: Seq<char>, max: int)
    requires
        max >= 0,
    ensures
        forall|i: int|
            0 <= i < search_spec(docs, q, max).len() ==> 0 <= (#[trigger] search_spec(
                docs,
                q,
                max,
            )[i]).score <= u64::MAX,
{
    let qs = qterms_of(q);
    if qs.len() != 0 {
        let cv = cands_spec(docs, qs);
        let sorted = rank_spec(cv);
        let cut = if max < sorted.len() {
            sorted.take(max)
        } else {
            sorted
        };
        lemma_cands_props(docs, qs);
        assert(pos_distinct(cv));
        lemma_rank_spec(cv);
        assert forall|i: int| 0 <= i < search_spec(docs, q, max).len() implies 0 <= (
        #[trigger] search_spec(docs, q, max)[i]).score <= u64::MAX by {
            assert(search_spec(docs, q, max)[i] == result_of(docs, cut[i], qs));
            if max < sorted.len() {
                assert(cut[i] == sorted[i]);
            }
            assert(cv.contains(sorted[i]));
            let m = choose|m: int| 0 <= m < cv.len() && cv[m] == sorted[i];
            let d = docs[cv[m].pos];
            assert(cv[m] == crate::model::cand_of(d, cv[m].pos, qs));
            assert(cv[m].score == crate::model::clamp(crate::model::raw_score(d, qs)));
            crate::model::lemma_doc_base_nonneg(d, qs);
            assert(crate::model::doc_bonus(d, qs) >= 0);
        }
    }
}

/// Searching an engine that stores nothing returns nothing, for every query
/// and limit.
pub proof fn lemma_search_empty(q: Seq<char>, max: int)
    requires
        max >= 0,
    ensures
        search_spec(Seq::empty(), q, max) == Seq::<ResultV>::empty(),
        tag_spec(Seq::empty(), q) == Seq::<ResultV>::empty(),
{
    let qs = qterms_of(q);
    assert(cands_spec(Seq::empty(), qs) == Seq::<CandV>::empty());
    assert(rank_spec(Seq::<CandV>::empty()) == Seq::<CandV>::empty());
    if qs.len() != 0 {
        assert(search_spec(Seq::empty(), q, max) =~= Seq::<ResultV>::empty());
    }
    assert(kpostings(Seq::empty(), norm_spec(q)) == Seq::<int>::empty());
    assert(tag_spec(Seq::empty(), q) =~= Seq::<ResultV>::empty());
}

} // verus!
