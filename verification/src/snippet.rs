//! The snippet generator: slide a twenty-word window over the normalized
//! description (or title), pick the first window containing the most
//! distinct query terms, and cut the window text to 150 characters at a
//! whitespace boundary, with an ellipsis.
use vstd::prelude::*;
use crate::cache::NormCache;
use crate::model::{docs_view, DocV, PostData};
use crate::norm::{dview, join_sp, lemma_join_push, norm_spec, split_white, words_of};
use crate::text::{contains_chars, contains_sub, eq_chars, string_of};

verus! {

/// The position of the first stored document with this id, or -1.
pub open spec fn first_with_id(docs: Seq<DocV>, id: Seq<char>) -> int
    decreases docs.len(),
{
    if docs.len() == 0 {
        -1
    } else if docs[0].id == id {
        0
    } else {
        let r = first_with_id(docs.drop_first(), id);
        if r < 0 {
            -1
        } else {
            r + 1
        }
    }
}

/// What the first-match position means.
pub proof fn lemma_first_with_id(docs: Seq<DocV>, id: Seq<char>)
    ensures
        first_with_id(docs, id) < 0 ==> forall|l: int|
            0 <= l < docs.len() ==> (#[trigger] docs[l]).id != id,
        first_with_id(docs, id) >= 0 ==> first_with_id(docs, id) < docs.len() && docs[first_with_id(
            docs,
            id,
        )].id == id && forall|l: int| 0 <= l < first_with_id(docs, id) ==> (#[trigger] docs[l]).id
            != id,
    decreases docs.len(),
{
    if docs.len() > 0 && docs[0].id != id {
        let rest = docs.drop_first();
        lemma_first_with_id(rest, id);
        assert(forall|l: int| 0 <= l < rest.len() ==> rest[l] == docs[l + 1]);
        let fr = first_with_id(rest, id);
        if fr < 0 {
            assert forall|l: int| 0 <= l < docs.len() implies (#[trigger] docs[l]).id != id by {
                if l > 0 {
                    assert(rest[l - 1] == docs[l]);
                    assert(rest[l - 1].id != id);
                }
            }
        } else {
            assert(first_with_id(docs, id) == fr + 1);
            assert(docs[fr + 1] == rest[fr]);
            assert forall|l: int| 0 <= l < fr + 1 implies (#[trigger] docs[l]).id != id by {
                if l > 0 {
                    assert(rest[l - 1] == docs[l]);
                    assert(rest[l - 1].id != id);
                }
            }
        }
    }
}

/// The window of up to twenty words starting at `i`.
pub open spec fn window_of(ws: Seq<Seq<char>>, i: int) -> Seq<Seq<char>> {
    ws.subrange(
        i,
        if i + 20 <= ws.len() {
            i + 20
        } else {
            ws.len() as int
        },
    )
}

/// How many distinct query terms are contained in a text.
pub open spec fn dcount(qs: Seq<Seq<char>>, txt: Seq<char>) -> int
    decreases qs.len(),
{
    if qs.len() == 0 {
        0
    } else {
        dcount(qs.drop_last(), txt) + if contains_sub(txt, qs.last()) && !qs.drop_last().contains(
            qs.last(),
        ) {
            1int
        } else {
            0int
        }
    }
}

/// The distinct query terms contained in the window starting at `i`.
pub open spec fn win_count(ws: Seq<Seq<char>>, qs: Seq<Seq<char>>, i: int) -> int {
    dcount(qs, join_sp(window_of(ws, i)))
}

/// The best window start among the first `i` windows, and its term count:
/// the maximum count, at the earliest window achieving it.
pub open spec fn best_start(ws: Seq<Seq<char>>, qs: Seq<Seq<char>>, i: int) -> (int, int)
    decreases i,
{
    if i <= 0 {
        (0, 0)
    } else {
        let prev = best_start(ws, qs, i - 1);
        let c = win_count(ws, qs, i - 1);
        if c > prev.1 {
            (i - 1, c)
        } else {
            prev
        }
    }
}

/// The position of the last space in a text, or -1.
pub open spec fn last_space(t: Seq<char>) -> int
    decreases t.len(),
{
    if t.len() == 0 {
        -1
    } else if t.last() == ' ' {
        t.len() - 1
    } else {
        last_space(t.drop_last())
    }
}

/// Cut a text to 150 characters: over-long text is truncated, then cut back
/// to the last space within the truncation, and given an ellipsis.
pub open spec fn clip150(s: Seq<char>) -> Seq<char> {
    if s.len() <= 150 {
        s
    } else {
        let t = s.take(150);
        let u = if last_space(t) >= 0 {
            t.take(last_space(t))
        } else {
            t
        };
        u + seq!['.', '.', '.']
    }
}

/// The snippet for the first document with this id: its description when
/// present, else its title, normalized; the best window's text, clipped.
pub open spec fn snippet_spec(docs: Seq<DocV>, id: Seq<char>, qs: Seq<Seq<char>>) -> Option<
    Seq<char>,
> {
    let ix = first_with_id(docs, id);
    if ix < 0 {
        None
    } else {
        let d = docs[ix];
        let text = match d.description {
            Some(t) => t,
            None => d.title,
        };
        let ws = words_of(norm_spec(text));
        let bp = best_start(ws, qs, ws.len() as int).0;
        Some(clip150(join_sp(window_of(ws, bp))))
    }
}

/// Append the characters of `w`.
fn append_chars(r: &mut Vec<char>, w: &Vec<char>)
    ensures
        final(r)@ == old(r)@ + w@,
{
    let ghost r0 = r@;
    let mut c: usize = 0;
    while c < w.len()
        invariant
            c <= w@.len(),
            r@ == r0 + w@.take(c as int),
        decreases w@.len() - c,
    {
        r.push(w[c]);
        c = c + 1;
        proof {
            assert(w@.take(c as int) =~= w@.take(c - 1).push(w@[c - 1]));
            assert(r0 + w@.take(c - 1).push(w@[c - 1]) =~= (r0 + w@.take(c - 1)).push(
                w@[c - 1],
            ));
        }
    }
    proof {
        assert(w@.take(w@.len() as int) =~= w@);
    }
}

/// The words from `from` (inclusive) to `to` (exclusive), space-joined.
fn join_window(ws: &Vec<Vec<char>>, from: usize, to: usize) -> (r: Vec<char>)
    requires
        from <= to <= ws@.len(),
    ensures
        r@ == join_sp(dview(ws@).subrange(from as int, to as int)),
{
    let ghost d = dview(ws@);
    let mut r: Vec<char> = Vec::new();
    let mut l = from;
    proof {
        assert(d.subrange(from as int, from as int) =~= Seq::<Seq<char>>::empty());
    }
    while l < to
        invariant
            from <= l <= to,
            to <= ws@.len(),
            d == dview(ws@),
            r@ == join_sp(d.subrange(from as int, l as int)),
        decreases to - l,
    {
        proof {
            assert(d.subrange(from as int, l + 1) =~= d.subrange(from as int, l as int).push(
                d[l as int],
            ));
            lemma_join_push(d.subrange(from as int, l as int), d[l as int]);
        }
        if l > from {
            let ghost r0 = r@;
            r.push(' ');
            append_chars(&mut r, &ws[l]);
            proof {
                assert(d.subrange(from as int, l as int).len() > 0);
                assert(r@ =~= join_sp(d.subrange(from as int, l as int)) + seq![' ']
                    + d[l as int]);
            }
        } else {
            append_chars(&mut r, &ws[l]);
            proof {
                assert(d.subrange(from as int, l as int).len() == 0);
                assert(r@ =~= d[l as int]);
            }
        }
        l = l + 1;
    }
    r
}

/// How many distinct query terms this text contains.
fn count_distinct(qs: &Vec<Vec<char>>, txt: &Vec<char>) -> (r: usize)
    ensures
        r as int == dcount(dview(qs@), txt@),
{
    let ghost q = dview(qs@);
    let mut r: usize = 0;
    let mut k: usize = 0;
    proof {
        assert(q.take(0) =~= Seq::<Seq<char>>::empty());
    }
    while k < qs.len()
        invariant
            k <= qs@.len(),
            q == dview(qs@),
            r <= k,
            r as int == dcount(q.take(k as int), txt@),
        decreases qs@.len() - k,
    {
        // does this term appear earlier in the query?
        let mut dup = false;
        let mut l: usize = 0;
        while l < k
            invariant
                l <= k,
                k < qs@.len(),
                q == dview(qs@),
                dup <==> exists|m: int| 0 <= m < l && q.take(k as int)[m] == q[k as int],
            decreases k - l,
        {
            if eq_chars(&qs[l], &qs[k]) {
                proof {
                    assert(q.take(k as int)[l as int] == q[k as int]);
                }
                dup = true;
                l = k;
            } else {
                proof {
                    assert(forall|m: int|
                        0 <= m < l + 1 && q.take(k as int)[m] == q[k as int] ==> m < l);
                }
                l = l + 1;
            }
        }
        proof {
            assert(q.take(k + 1) =~= q.take(k as int).push(q[k as int]));
            assert(q.take(k + 1).drop_last() =~= q.take(k as int));
            assert(q.take(k + 1).last() == q[k as int]);
            assert(dup <==> q.take(k as int).contains(q[k as int]));
        }
        if !dup && contains_chars(txt, &qs[k]) {
            r = r + 1;
        }
        k = k + 1;
    }
    proof {
        assert(q.take(q.len() as int) =~= q);
    }
    r
}

/// Cut to 150 characters at a whitespace boundary, with an ellipsis.
fn clip_chars(v: Vec<char>) -> (r: Vec<char>)
    ensures
        r@ == clip150(v@),
{
    let ghost s = v@;
    let mut v = v;
    if v.len() <= 150 {
        return v;
    }
    v.truncate(150);
    let ghost t = v@;
    proof {
        assert(t == s.take(150));
    }
    let mut j: usize = v.len();
    proof {
        assert(t.take(j as int) =~= t);
    }
    while j > 0 && v[j - 1] != ' '
        invariant
            j <= t.len(),
            v@ == t,
            last_space(t) == last_space(t.take(j as int)),
        decreases j,
    {
        proof {
            assert(t.take(j as int).last() == t[j - 1]);
            assert(t.take(j as int).drop_last() =~= t.take(j - 1));
        }
        j = j - 1;
    }
    if j == 0 {
        proof {
            assert(t.take(0) =~= Seq::<char>::empty());
            assert(last_space(t) == -1);
        }
        v.push('.');
        v.push('.');
        v.push('.');
        proof {
            assert(v@ =~= t + seq!['.', '.', '.']);
        }
        v
    } else {
        proof {
            assert(t.take(j as int).last() == t[j - 1]);
            assert(t[j - 1] == ' ');
            assert(last_space(t.take(j as int)) == j - 1);
        }
        v.truncate(j - 1);
        proof {
            assert(v@ == t.take(j - 1));
        }
        v.push('.');
        v.push('.');
        v.push('.');
        proof {
            assert(v@ =~= t.take(j - 1) + seq!['.', '.', '.']);
        }
        v
    }
}

/// The first stored document with this id, if any.
fn find_first_id(posts: &Vec<PostData>, id: &String) -> (r: Option<usize>)
    ensures
        match r {
            Some(ix) => ix < posts@.len() && docs_view(posts@)[ix as int].id == id@ && forall|
                l: int,
            | 0 <= l < ix ==> (#[trigger] docs_view(posts@)[l]).id != id@,
            None => forall|l: int|
                0 <= l < posts@.len() ==> (#[trigger] docs_view(posts@)[l]).id != id@,
        },
{
    let ghost docs = docs_view(posts@);
    let n = posts.len();
    let mut i: usize = 0;
    while i < n
        invariant
            i <= n,
            n == posts@.len(),
            docs == docs_view(posts@),
            forall|l: int| 0 <= l < i ==> (#[trigger] docs[l]).id != id@,
        decreases n - i,
    {
        proof {
            assert(docs[i as int] == posts@[i as int]@);
        }
        if posts[i].id.eq(id) {
            return Some(i);
        }
        i = i + 1;
    }
    None
}

/// The snippet for a result: the best twenty-word window of the first
/// matching document's description (or title), clipped to 150 characters.
pub fn make_snippet(
    cache: &mut NormCache,
    posts: &Vec<PostData>,
    id: &String,
    qs: &Vec<Vec<char>>,
) -> (r: Option<String>)
    requires
        old(cache).wf(),
    ensures
        final(cache).wf(),
        match r {
            Some(s) => snippet_spec(docs_view(posts@), id@, dview(qs@)) == Some(s@),
            None => snippet_spec(docs_view(posts@), id@, dview(qs@)) is None,
        },
{
    let ghost docs = docs_view(posts@);
    let ghost q = dview(qs@);
    proof {
        lemma_first_with_id(docs, id@);
        assert(docs.len() == posts@.len());
    }
    let ix_opt = find_first_id(posts, id);
    let ix = match ix_opt {
        None => {
            proof {
                if first_with_id(docs, id@) >= 0 {
                    assert(docs[first_with_id(docs, id@)].id == id@);
                    assert(false);
                }
            }
            return None;
        },
        Some(ix) => ix,
    };
    proof {
        assert(docs[ix as int].id == id@);
        assert(first_with_id(docs, id@) == ix as int) by {
            let f = first_with_id(docs, id@);
            if f < 0 {
                assert(docs[ix as int].id != id@);
            } else {
                if f < ix as int {
                    assert(docs[f].id != id@);
                } else if f > ix as int {
                    assert(docs[ix as int].id != id@);
                }
            }
        }
    }
    let ghost d = docs[ix as int];
    let nt = match &posts[ix].description {
        Some(dsc) => cache.norm_chars(dsc.as_str()),
        None => cache.norm_chars(posts[ix].title.as_str()),
    };
    proof {
        assert(d == posts@[ix as int]@);
        assert(nt@ == norm_spec(match d.description {
            Some(t) => t,
            None => d.title,
        }));
    }
    let ws = split_white(&nt);
    let ghost wsv = words_of(nt@);
    proof {
        assert(dview(ws@) == wsv);
        assert(dview(ws@).len() == ws@.len());
    }
    let wlen = ws.len();
    let mut best_pos: usize = 0;
    let mut max_cnt: usize = 0;
    let mut i2: usize = 0;
    while i2 < wlen
        invariant
            i2 <= wlen,
            wlen == ws@.len(),
            wsv == dview(ws@),
            q == dview(qs@),
            best_pos as int == best_start(wsv, q, i2 as int).0,
            max_cnt as int == best_start(wsv, q, i2 as int).1,
            best_pos <= i2,
        decreases wlen - i2,
    {
        let end = if wlen - i2 > 20 {
            i2 + 20
        } else {
            wlen
        };
        let wt = join_window(&ws, i2, end);
        proof {
            assert(dview(ws@).subrange(i2 as int, end as int) =~= window_of(wsv, i2 as int));
        }
        let c = count_distinct(qs, &wt);
        proof {
            assert(c as int == win_count(wsv, q, i2 as int));
        }
        if c > max_cnt {
            max_cnt = c;
            best_pos = i2;
        }
        i2 = i2 + 1;
    }
    let end = if wlen - best_pos > 20 {
        best_pos + 20
    } else {
        wlen
    };
    let win = join_window(&ws, best_pos, end);
    proof {
        assert(dview(ws@).subrange(best_pos as int, end as int) =~= window_of(
            wsv,
            best_pos as int,
        ));
    }
    let clipped = clip_chars(win);
    let out = string_of(&clipped);
    Some(out)
}

} // verus!
