//! The mathematical model of the engine: document views, the weighted
//! scoring rules (title 10, description 5, keyword 20 per occurrence; phrase
//! bonuses 50 and 25), match classification, and the candidate set a query
//! produces. All public contracts speak in terms of these functions.
use vstd::prelude::*;
use crate::norm::{join_sp, norm_spec, tokens_of};
use crate::text::contains_sub;

verus! {

/// A stored document: caller-supplied id, title, optional description and
/// keyword tags. Ids need not be unique; duplicates are indexed independently.
#[derive(Clone)]
pub struct PostData {
    pub id: String,
    pub title: String,
    pub description: Option<String>,
    pub keywords: Vec<String>,
}

/// The mathematical view of a document.
pub struct DocV {
    pub id: Seq<char>,
    pub title: Seq<char>,
    pub description: Option<Seq<char>>,
    pub keywords: Seq<Seq<char>>,
}

impl View for PostData {
    type V = DocV;

    open spec fn view(&self) -> DocV {
        DocV {
            id: self.id@,
            title: self.title@,
            description: match self.description {
                Some(d) => Some(d@),
                None => None,
            },
            keywords: self.keywords.deep_view(),
        }
    }
}

/// One search hit: the document's id, its relevance score, which fields the
/// query was found in, the keywords it matched, and an optional excerpt.
/// Scores are whole numbers by construction, so they are always finite and
/// non-negative; no not-a-number or infinite score can arise.
pub struct SearchResult {
    pub id: String,
    pub score: u64,
    pub title_match: bool,
    pub description_match: bool,
    pub keyword_matches: Vec<String>,
    pub snippet: Option<String>,
}

/// The mathematical view of a search hit.
pub struct ResultV {
    pub id: Seq<char>,
    pub score: int,
    pub title_match: bool,
    pub description_match: bool,
    pub keyword_matches: Seq<Seq<char>>,
    pub snippet: Option<Seq<char>>,
}

impl View for SearchResult {
    type V = ResultV;

    open spec fn view(&self) -> ResultV {
        ResultV {
            id: self.id@,
            score: self.score as int,
            title_match: self.title_match,
            description_match: self.description_match,
            keyword_matches: self.keyword_matches.deep_view(),
            snippet: match self.snippet {
                Some(s) => Some(s@),
                None => None,
            },
        }
    }
}

/// Index size counters.
pub struct SearchStats {
    pub total_posts: usize,
    pub indexed_words: usize,
    pub indexed_keywords: usize,
}

/// How many entries of `ws` equal `t`.
pub open spec fn cnt(ws: Seq<Seq<char>>, t: Seq<char>) -> int {
    ws.filter(|w: Seq<char>| w == t).len() as int
}

/// Counting distributes over appending one entry.
pub proof fn lemma_cnt_push(ws: Seq<Seq<char>>, x: Seq<char>, t: Seq<char>)
    ensures
        cnt(ws.push(x), t) == cnt(ws, t) + if x == t {
            1int
        } else {
            0int
        },
{
    reveal_with_fuel(Seq::<_>::filter, 2);
    assert(ws.push(x).drop_last() =~= ws);
    assert(ws.push(x).last() == x);
}

pub proof fn lemma_cnt_nonneg(ws: Seq<Seq<char>>, t: Seq<char>)
    ensures
        cnt(ws, t) >= 0,
{
}

/// The indexed tokens of a document's title.
pub open spec fn title_toks(d: DocV) -> Seq<Seq<char>> {
    tokens_of(d.title)
}

/// The indexed tokens of a document's description, if it has one.
pub open spec fn desc_toks(d: DocV) -> Seq<Seq<char>> {
    match d.description {
        Some(t) => tokens_of(t),
        None => Seq::empty(),
    }
}

/// Each keyword, normalized whole (not split into words).
pub open spec fn kw_norms(d: DocV) -> Seq<Seq<char>> {
    d.keywords.map_values(|k: Seq<char>| norm_spec(k))
}

/// The weight a single term contributes to a document: 10 per title token
/// occurrence, 5 per description token occurrence, 20 per keyword whose
/// normalized form equals the term.
pub open spec fn term_weight(d: DocV, t: Seq<char>) -> int {
    10 * cnt(title_toks(d), t) + 5 * cnt(desc_toks(d), t) + 20 * cnt(kw_norms(d), t)
}

/// The summed index weight of all query terms for a document; a term
/// occurring twice in the query contributes twice.
pub open spec fn doc_base(d: DocV, qs: Seq<Seq<char>>) -> int
    decreases qs.len(),
{
    if qs.len() == 0 {
        0
    } else {
        doc_base(d, qs.drop_last()) + term_weight(d, qs.last())
    }
}

/// The phrase bonus: for multi-term queries whose terms, joined by single
/// spaces, appear verbatim in the normalized title (+50) or description (+25).
pub open spec fn doc_bonus(d: DocV, qs: Seq<Seq<char>>) -> int {
    if qs.len() > 1 {
        (if contains_sub(norm_spec(d.title), join_sp(qs)) {
            50int
        } else {
            0int
        }) + (match d.description {
            Some(t) => if contains_sub(norm_spec(t), join_sp(qs)) {
                25int
            } else {
                0int
            },
            None => 0int,
        })
    } else {
        0
    }
}

/// Whether any query term has an index posting for the document. Only such
/// documents appear in the result set.
pub open spec fn touched(d: DocV, qs: Seq<Seq<char>>) -> bool {
    exists|k: int| 0 <= k < qs.len() && #[trigger] term_weight(d, qs[k]) != 0
}

/// A document's full raw score for a query.
pub open spec fn raw_score(d: DocV, qs: Seq<Seq<char>>) -> int {
    doc_base(d, qs) + doc_bonus(d, qs)
}

/// Scores saturate at the largest representable value rather than overflow;
/// in practice they never come near it.
pub open spec fn clamp(x: int) -> int {
    if x > u64::MAX {
        u64::MAX as int
    } else {
        x
    }
}

/// Whether the query was found, by literal substring containment of some
/// term with an index posting, in the document's normalized title.
pub open spec fn title_flag(d: DocV, qs: Seq<Seq<char>>) -> bool {
    exists|k: int|
        0 <= k < qs.len() && #[trigger] term_weight(d, qs[k]) != 0 && contains_sub(
            norm_spec(d.title),
            qs[k],
        )
}

/// The same containment check against the normalized description.
pub open spec fn desc_flag(d: DocV, qs: Seq<Seq<char>>) -> bool {
    exists|k: int|
        0 <= k < qs.len() && #[trigger] term_weight(d, qs[k]) != 0 && (match d.description {
            Some(t) => contains_sub(norm_spec(t), qs[k]),
            None => false,
        })
}

/// One scan of a document's keywords for one term: each keyword whose
/// normalized form contains the term is appended, raw, unless already listed.
pub open spec fn kw_scan(acc: Seq<Seq<char>>, kws: Seq<Seq<char>>, t: Seq<char>) -> Seq<Seq<char>>
    decreases kws.len(),
{
    if kws.len() == 0 {
        acc
    } else {
        let a = kw_scan(acc, kws.drop_last(), t);
        if contains_sub(norm_spec(kws.last()), t) && !a.contains(kws.last()) {
            a.push(kws.last())
        } else {
            a
        }
    }
}

/// The matched keywords of a document: for each query term with an index
/// posting, in query order, the document's keywords are scanned in order.
pub open spec fn kw_all(d: DocV, qs: Seq<Seq<char>>) -> Seq<Seq<char>>
    decreases qs.len(),
{
    if qs.len() == 0 {
        Seq::empty()
    } else {
        let a = kw_all(d, qs.drop_last());
        if term_weight(d, qs.last()) != 0 {
            kw_scan(a, d.keywords, qs.last())
        } else {
            a
        }
    }
}

/// A scored, classified candidate: the document's position and everything
/// of its result record except the snippet.
pub struct CandV {
    pub pos: int,
    pub score: int,
    pub tm: bool,
    pub dm: bool,
    pub kws: Seq<Seq<char>>,
}

/// The candidate a touched document produces.
pub open spec fn cand_of(d: DocV, i: int, qs: Seq<Seq<char>>) -> CandV {
    CandV {
        pos: i,
        score: clamp(raw_score(d, qs)),
        tm: title_flag(d, qs),
        dm: desc_flag(d, qs),
        kws: kw_all(d, qs),
    }
}

/// The candidates of a query: one per touched document, in position order.
pub open spec fn cands_spec(docs: Seq<DocV>, qs: Seq<Seq<char>>) -> Seq<CandV>
    decreases docs.len(),
{
    if docs.len() == 0 {
        Seq::empty()
    } else {
        let p = cands_spec(docs.drop_last(), qs);
        let d = docs.last();
        if touched(d, qs) {
            p.push(cand_of(d, docs.len() - 1, qs))
        } else {
            p
        }
    }
}

/// How many keywords of a document normalize exactly to a tag.
pub open spec fn kcnt(d: DocV, t: Seq<char>) -> int {
    cnt(kw_norms(d), t)
}

/// The same position, repeated.
pub open spec fn rep_idx(i: int, n: int) -> Seq<int> {
    Seq::new(if n >= 0 {
        n as nat
    } else {
        0
    }, |j: int| i)
}

/// The keyword postings of a tag: each document's position, once per
/// keyword that normalizes to the tag, in insertion order.
pub open spec fn kpostings(docs: Seq<DocV>, t: Seq<char>) -> Seq<int>
    decreases docs.len(),
{
    if docs.len() == 0 {
        Seq::empty()
    } else {
        kpostings(docs.drop_last(), t) + rep_idx(docs.len() - 1, kcnt(docs.last(), t))
    }
}

/// Keyword postings point at stored documents.
pub proof fn lemma_kpostings_bounds(docs: Seq<DocV>, t: Seq<char>)
    ensures
        forall|j: int|
            0 <= j < kpostings(docs, t).len() ==> 0 <= #[trigger] kpostings(docs, t)[j]
                < docs.len(),
    decreases docs.len(),
{
    if docs.len() > 0 {
        lemma_kpostings_bounds(docs.drop_last(), t);
        lemma_cnt_nonneg(kw_norms(docs.last()), t);
        let p = kpostings(docs.drop_last(), t);
        let r = rep_idx(docs.len() - 1, kcnt(docs.last(), t));
        assert forall|j: int| 0 <= j < kpostings(docs, t).len() implies 0 <= #[trigger] kpostings(
            docs,
            t,
        )[j] < docs.len() by {
            if j < p.len() {
                assert(kpostings(docs, t)[j] == p[j]);
            } else {
                assert(kpostings(docs, t)[j] == r[j - p.len()]);
            }
        }
    }
}


/// The documents a stored post list denotes.
pub open spec fn docs_view(posts: Seq<PostData>) -> Seq<DocV> {
    posts.map_values(|p: PostData| p@)
}

/// Whether a term occurs anywhere in the stored documents.
pub open spec fn occurs(docs: Seq<DocV>, t: Seq<char>) -> bool {
    exists|i: int| 0 <= i < docs.len() && #[trigger] term_weight(docs[i], t) != 0
}

pub proof fn lemma_doc_base_push(d: DocV, qs: Seq<Seq<char>>, t: Seq<char>)
    ensures
        doc_base(d, qs.push(t)) == doc_base(d, qs) + term_weight(d, t),
{
    assert(qs.push(t).drop_last() =~= qs);
    assert(qs.push(t).last() == t);
}

pub proof fn lemma_touched_push(d: DocV, qs: Seq<Seq<char>>, t: Seq<char>)
    ensures
        touched(d, qs.push(t)) <==> (touched(d, qs) || term_weight(d, t) != 0),
{
    let q2 = qs.push(t);
    if touched(d, qs) {
        let k = choose|k: int| 0 <= k < qs.len() && #[trigger] term_weight(d, qs[k]) != 0;
        assert(q2[k] == qs[k]);
        assert(term_weight(d, q2[k]) != 0);
    }
    if term_weight(d, t) != 0 {
        assert(q2[qs.len() as int] == t);
        assert(term_weight(d, q2[qs.len() as int]) != 0);
    }
    if touched(d, q2) {
        let k = choose|k: int| 0 <= k < q2.len() && #[trigger] term_weight(d, q2[k]) != 0;
        if k < qs.len() {
            assert(q2[k] == qs[k]);
        } else {
            assert(q2[k] == t);
        }
    }
}

pub proof fn lemma_title_flag_push(d: DocV, qs: Seq<Seq<char>>, t: Seq<char>)
    ensures
        title_flag(d, qs.push(t)) <==> (title_flag(d, qs) || (term_weight(d, t) != 0
            && contains_sub(norm_spec(d.title), t))),
{
    let q2 = qs.push(t);
    if title_flag(d, qs) {
        let k = choose|k: int|
            0 <= k < qs.len() && #[trigger] term_weight(d, qs[k]) != 0 && contains_sub(
                norm_spec(d.title),
                qs[k],
            );
        assert(q2[k] == qs[k]);
        assert(term_weight(d, q2[k]) != 0 && contains_sub(norm_spec(d.title), q2[k]));
    }
    if term_weight(d, t) != 0 && contains_sub(norm_spec(d.title), t) {
        assert(q2[qs.len() as int] == t);
        assert(term_weight(d, q2[qs.len() as int]) != 0 && contains_sub(
            norm_spec(d.title),
            q2[qs.len() as int],
        ));
    }
    if title_flag(d, q2) {
        let k = choose|k: int|
            0 <= k < q2.len() && #[trigger] term_weight(d, q2[k]) != 0 && contains_sub(
                norm_spec(d.title),
                q2[k],
            );
        if k < qs.len() {
            assert(q2[k] == qs[k]);
        } else {
            assert(q2[k] == t);
        }
    }
}

pub proof fn lemma_desc_flag_push(d: DocV, qs: Seq<Seq<char>>, t: Seq<char>)
    ensures
        desc_flag(d, qs.push(t)) <==> (desc_flag(d, qs) || (term_weight(d, t) != 0
            && (match d.description {
            Some(tx) => contains_sub(norm_spec(tx), t),
            None => false,
        }))),
{
    let q2 = qs.push(t);
    if desc_flag(d, qs) {
        let k = choose|k: int|
            0 <= k < qs.len() && #[trigger] term_weight(d, qs[k]) != 0 && (match d.description {
                Some(tx) => contains_sub(norm_spec(tx), qs[k]),
                None => false,
            });
        assert(q2[k] == qs[k]);
        assert(term_weight(d, q2[k]) != 0 && (match d.description {
            Some(tx) => contains_sub(norm_spec(tx), q2[k]),
            None => false,
        }));
    }
    if term_weight(d, t) != 0 && (match d.description {
        Some(tx) => contains_sub(norm_spec(tx), t),
        None => false,
    }) {
        assert(q2[qs.len() as int] == t);
        assert(term_weight(d, q2[qs.len() as int]) != 0 && (match d.description {
            Some(tx) => contains_sub(norm_spec(tx), q2[qs.len() as int]),
            None => false,
        }));
    }
    if desc_flag(d, q2) {
        let k = choose|k: int|
            0 <= k < q2.len() && #[trigger] term_weight(d, q2[k]) != 0 && (match d.description {
                Some(tx) => contains_sub(norm_spec(tx), q2[k]),
                None => false,
            });
        if k < qs.len() {
            assert(q2[k] == qs[k]);
        } else {
            assert(q2[k] == t);
        }
    }
}

pub proof fn lemma_kw_all_push(d: DocV, qs: Seq<Seq<char>>, t: Seq<char>)
    ensures
        kw_all(d, qs.push(t)) == if term_weight(d, t) != 0 {
            kw_scan(kw_all(d, qs), d.keywords, t)
        } else {
            kw_all(d, qs)
        },
{
    assert(qs.push(t).drop_last() =~= qs);
    assert(qs.push(t).last() == t);
}

pub proof fn lemma_cands_push(docs: Seq<DocV>, d: DocV, qs: Seq<Seq<char>>)
    ensures
        cands_spec(docs.push(d), qs) == if touched(d, qs) {
            cands_spec(docs, qs).push(cand_of(d, docs.len() as int, qs))
        } else {
            cands_spec(docs, qs)
        },
{
    assert(docs.push(d).drop_last() =~= docs);
    assert(docs.push(d).last() == d);
}

/// Every quantity in the scoring model is non-negative.
pub proof fn lemma_doc_base_nonneg(d: DocV, qs: Seq<Seq<char>>)
    ensures
        doc_base(d, qs) >= 0,
        forall|t: Seq<char>| #[trigger] term_weight(d, t) >= 0,
    decreases qs.len(),
{
    assert forall|t: Seq<char>| #[trigger] term_weight(d, t) >= 0 by {
        lemma_cnt_nonneg(title_toks(d), t);
        lemma_cnt_nonneg(desc_toks(d), t);
        lemma_cnt_nonneg(kw_norms(d), t);
    }
    if qs.len() > 0 {
        lemma_doc_base_nonneg(d, qs.drop_last());
    }
}

/// Candidates are listed in strictly increasing position order, within
/// bounds, and each is the candidate of the document at its position.
pub proof fn lemma_cands_props(docs: Seq<DocV>, qs: Seq<Seq<char>>)
    ensures
        forall|j: int|
            0 <= j < cands_spec(docs, qs).len() ==> 0 <= (#[trigger] cands_spec(docs, qs)[j]).pos
                < docs.len() && cands_spec(docs, qs)[j] == cand_of(
                docs[cands_spec(docs, qs)[j].pos],
                cands_spec(docs, qs)[j].pos,
                qs,
            ) && touched(docs[cands_spec(docs, qs)[j].pos], qs),
        forall|j: int, l: int|
            0 <= j < l < cands_spec(docs, qs).len() ==> cands_spec(docs, qs)[j].pos < cands_spec(
                docs,
                qs,
            )[l].pos,
        cands_spec(docs, qs).len() <= docs.len(),
    decreases docs.len(),
{
    if docs.len() > 0 {
        lemma_cands_props(docs.drop_last(), qs);
        let p = cands_spec(docs.drop_last(), qs);
        assert(forall|j: int|
            0 <= j < p.len() ==> docs.drop_last()[(#[trigger] p[j]).pos] == docs[p[j].pos]);
        if touched(docs.last(), qs) {
            let c2 = cands_spec(docs, qs);
            assert(c2 == p.push(cand_of(docs.last(), docs.len() - 1, qs)));
            assert(forall|j: int| 0 <= j < c2.len() - 1 ==> c2[j] == p[j]);
            assert(c2[c2.len() - 1] == cand_of(docs.last(), docs.len() - 1, qs));
            assert(docs[docs.len() - 1] == docs.last());
        }
    }
}

} // verus!
