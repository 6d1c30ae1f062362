//! The bounded normalization cache: a least-recently-used map from raw text
//! to its normalized form. The cache is an optimization only; every entry
//! holds exactly what normalizing afresh would return, so a hit and a miss
//! are indistinguishable to callers.
use vstd::prelude::*;
use crate::norm::{collapse_keep, dview, keep_long, norm_spec, qterms_of, split_white, tokens_of};
use crate::text::{chars_vec, lowercase, string_of};

verus! {

#[verifier::external_type_specification]
#[verifier::external_body]
#[verifier::reject_recursive_types(K)]
#[verifier::reject_recursive_types(V)]
#[verifier::reject_recursive_types(S)]
pub struct ExLruCache<K, V, S>(lru::LruCache<K, V, S>);

/// A cache with nothing in it.
pub open spec fn no_entries() -> Map<Seq<char>, Seq<char>> {
    Map::empty()
}

/// The key-value pairs a cache holds, as a map of character sequences.
pub uninterp spec fn cache_contents(c: lru::LruCache<String, String>) -> Map<Seq<char>, Seq<char>>;

/// Relies on lru::LruCache::new: a new cache starts empty.
#[verifier::external_body]
fn cache_new(cap: usize) -> (c: lru::LruCache<String, String>)
    requires
        cap >= 1,
    ensures
        cache_contents(c) == no_entries(),
{
    lru::LruCache::new(std::num::NonZeroUsize::new(cap).unwrap())
}

/// Relies on lru::LruCache::get: returns the value under the key, if any;
/// it refreshes the entry's recency but leaves the contents unchanged.
#[verifier::external_body]
fn cache_get(c: &mut lru::LruCache<String, String>, k: &str) -> (r: Option<String>)
    ensures
        cache_contents(*final(c)) == cache_contents(*old(c)),
        match r {
            Some(v) => cache_contents(*old(c)).contains_key(k@) && v@ == cache_contents(
                *old(c),
            )[k@],
            None => !cache_contents(*old(c)).contains_key(k@),
        },
{
    c.get(k).cloned()
}

/// Relies on lru::LruCache::put: inserts the pair; when the cache is full it
/// also evicts the least-recently-used entry, so the new contents are some
/// sub-map of the old contents plus the inserted pair.
#[verifier::external_body]
fn cache_put(c: &mut lru::LruCache<String, String>, k: String, v: String)
    ensures
        cache_contents(*final(c)).contains_pair(k@, v@),
        forall|k2: Seq<char>|
            #[trigger] cache_contents(*final(c)).contains_key(k2) ==> cache_contents(
                *old(c),
            ).insert(k@, v@).contains_key(k2) && cache_contents(*final(c))[k2] == cache_contents(
                *old(c),
            ).insert(k@, v@)[k2],
{
    c.put(k, v);
}

/// Relies on lru::LruCache::clear: removes every entry.
#[verifier::external_body]
fn cache_clear(c: &mut lru::LruCache<String, String>)
    ensures
        cache_contents(*final(c)) == no_entries(),
{
    c.clear();
}

/// A bounded least-recently-used cache of normalized text.
pub struct NormCache {
    inner: lru::LruCache<String, String>,
}

impl NormCache {
    /// Every cached value is the normalization of its key.
    pub closed spec fn wf(self) -> bool {
        forall|k: Seq<char>| #[trigger]
            cache_contents(self.inner).contains_key(k) ==> cache_contents(self.inner)[k]
                == norm_spec(k)
    }

    /// An empty cache, bounded to a thousand entries.
    pub fn new() -> (c: NormCache)
        ensures
            c.wf(),
    {
        NormCache { inner: cache_new(1000) }
    }

    /// The normalized form of a text: lowercased, stripped of everything but
    /// alphanumerics, whitespace and hyphens, whitespace collapsed and
    /// trimmed. A cache hit returns exactly what computing afresh would.
    pub fn norm(&mut self, text: &str) -> (r: String)
        requires
            old(self).wf(),
        ensures
            final(self).wf(),
            r@ == norm_spec(text@),
    {
        let hit = cache_get(&mut self.inner, text);
        match hit {
            Some(v) => v,
            None => {
                let lowered = lowercase(text);
                let lv = chars_vec(lowered.as_str());
                let nv = collapse_keep(&lv);
                let out = string_of(&nv);
                cache_put(&mut self.inner, text.to_owned(), out.clone());
                out
            },
        }
    }

    /// The normalized form of a text, as characters.
    pub fn norm_chars(&mut self, text: &str) -> (r: Vec<char>)
        requires
            old(self).wf(),
        ensures
            final(self).wf(),
            r@ == norm_spec(text@),
    {
        let s = self.norm(text);
        chars_vec(s.as_str())
    }

    /// The index tokens of a text: its normalized words, dropping words
    /// shorter than two characters.
    pub fn tokenize(&mut self, text: &str) -> (r: Vec<Vec<char>>)
        requires
            old(self).wf(),
        ensures
            final(self).wf(),
            dview(r@) == tokens_of(text@),
    {
        let nv = self.norm_chars(text);
        keep_long(split_white(&nv))
    }

    /// The query terms of a query: its normalized words, unfiltered.
    pub fn query_terms(&mut self, text: &str) -> (r: Vec<Vec<char>>)
        requires
            old(self).wf(),
        ensures
            final(self).wf(),
            dview(r@) == qterms_of(text@),
    {
        let nv = self.norm_chars(text);
        split_white(&nv)
    }

    /// Drop every cached entry.
    pub fn reset(&mut self)
        ensures
            final(self).wf(),
    {
        cache_clear(&mut self.inner);
    }
}

} // verus!
