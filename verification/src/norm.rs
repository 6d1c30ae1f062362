//! Text normalization: lowercase the input, retain only alphanumerics,
//! whitespace and hyphens, then collapse whitespace runs into single spaces
//! and trim the ends. The canonical form is specified as joining the
//! whitespace-delimited words of the filtered text with single spaces.
use vstd::prelude::*;
use crate::text::{chars_vec, is_alnum, is_white, lower_of, is_alnum_char, is_white_char};

verus! {

/// Characters that normalization retains.
pub open spec fn keep_char(c: char) -> bool {
    is_alnum(c) || is_white(c) || c == '-'
}

/// The retained characters of a text, in order.
pub open spec fn kept(s: Seq<char>) -> Seq<char> {
    s.filter(|c: char| keep_char(c))
}

/// The whitespace-delimited words of a text, in order, each non-empty.
pub open spec fn words_of(s: Seq<char>) -> Seq<Seq<char>>
    decreases s.len(),
{
    if s.len() == 0 {
        Seq::empty()
    } else {
        let p = s.drop_last();
        let c = s.last();
        let ws = words_of(p);
        if is_white(c) {
            ws
        } else if p.len() > 0 && !is_white(p.last()) {
            ws.update(ws.len() - 1, ws.last().push(c))
        } else {
            ws.push(seq![c])
        }
    }
}

/// Words joined by single spaces.
pub open spec fn join_sp(ws: Seq<Seq<char>>) -> Seq<char>
    decreases ws.len(),
{
    if ws.len() == 0 {
        Seq::empty()
    } else if ws.len() == 1 {
        ws[0]
    } else {
        join_sp(ws.drop_last()) + seq![' '] + ws.last()
    }
}

/// The whitespace-collapsing stage of normalization: filter, split, rejoin.
pub open spec fn canon(s: Seq<char>) -> Seq<char> {
    join_sp(words_of(kept(s)))
}

/// The normalized form of a text: its lowercase form, canonicalized.
pub open spec fn norm_spec(s: Seq<char>) -> Seq<char> {
    canon(lower_of(s))
}

/// Words of at least two characters.
pub open spec fn long_words(ws: Seq<Seq<char>>) -> Seq<Seq<char>> {
    ws.filter(|w: Seq<char>| w.len() >= 2)
}

/// The index tokens of a text: normalized words at least two characters long.
pub open spec fn tokens_of(s: Seq<char>) -> Seq<Seq<char>> {
    long_words(words_of(norm_spec(s)))
}

/// The query terms of a query: its normalized words, unfiltered.
pub open spec fn qterms_of(q: Seq<char>) -> Seq<Seq<char>> {
    words_of(norm_spec(q))
}

pub open spec fn no_white(w: Seq<char>) -> bool {
    forall|j: int| 0 <= j < w.len() ==> !is_white(w[j])
}

pub open spec fn all_kept(w: Seq<char>) -> bool {
    forall|j: int| 0 <= j < w.len() ==> keep_char(w[j])
}

/// How the retained characters grow with the text.
pub proof fn lemma_kept_push(s: Seq<char>, c: char)
    ensures
        kept(s.push(c)) == if keep_char(c) {
            kept(s).push(c)
        } else {
            kept(s)
        },
{
    reveal_with_fuel(Seq::<_>::filter, 2);
    assert(s.push(c).drop_last() =~= s);
    assert(s.push(c).last() == c);
}

/// How the word list grows with the text.
pub proof fn lemma_words_push(s: Seq<char>, c: char)
    ensures
        words_of(s.push(c)) == if is_white(c) {
            words_of(s)
        } else if s.len() > 0 && !is_white(s.last()) {
            words_of(s).update(words_of(s).len() - 1, words_of(s).last().push(c))
        } else {
            words_of(s).push(seq![c])
        },
{
    assert(s.push(c).drop_last() =~= s);
    assert(s.push(c).last() == c);
}

/// Every word is non-empty and free of whitespace, and a text ending in a
/// non-whitespace character has that character at the end of its last word.
pub proof fn lemma_words_shape(s: Seq<char>)
    ensures
        forall|i: int|
            0 <= i < words_of(s).len() ==> (#[trigger] words_of(s)[i]).len() > 0 && no_white(
                words_of(s)[i],
            ),
        s.len() > 0 && !is_white(s.last()) ==> words_of(s).len() > 0 && words_of(s).last().len()
            > 0 && words_of(s).last().last() == s.last(),
    decreases s.len(),
{
    if s.len() > 0 {
        let p = s.drop_last();
        let c = s.last();
        lemma_words_shape(p);
        let ws = words_of(p);
        if is_white(c) {
        } else if p.len() > 0 && !is_white(p.last()) {
            assert(ws.len() > 0);
            assert(ws[ws.len() - 1].len() > 0 && no_white(ws[ws.len() - 1]));
            let w2 = ws.last().push(c);
            assert(no_white(w2)) by {
                assert(forall|j: int| 0 <= j < w2.len() - 1 ==> w2[j] == ws.last()[j]);
                assert(w2[w2.len() - 1] == c);
            }
            let ws2 = ws.update(ws.len() - 1, w2);
            assert(words_of(s) == ws2);
            assert(forall|i: int| 0 <= i < ws2.len() - 1 ==> ws2[i] == ws[i]);
            assert(ws2[ws2.len() - 1] == w2);
        } else {
            let w2 = seq![c];
            assert(w2.len() > 0 && no_white(w2)) by {
                assert(w2[0] == c);
            }
            let ws2 = ws.push(w2);
            assert(words_of(s) == ws2);
            assert(forall|i: int| 0 <= i < ws2.len() - 1 ==> ws2[i] == ws[i]);
            assert(ws2[ws2.len() - 1] == w2);
        }
    }
}

/// Words drawn from retained characters hold only retained characters.
pub proof fn lemma_words_all_kept(s: Seq<char>)
    requires
        all_kept(s),
    ensures
        forall|i: int| 0 <= i < words_of(s).len() ==> all_kept(#[trigger] words_of(s)[i]),
    decreases s.len(),
{
    if s.len() > 0 {
        assert(all_kept(s.drop_last())) by {
            assert(forall|j: int| 0 <= j < s.len() - 1 ==> s.drop_last()[j] == s[j]);
        }
        lemma_words_all_kept(s.drop_last());
        let p = s.drop_last();
        let c = s.last();
        assert(keep_char(c));
        let ws = words_of(p);
        if !is_white(c) && p.len() > 0 && !is_white(p.last()) {
            lemma_words_shape(p);
            assert(ws.len() > 0);
            assert(all_kept(ws[ws.len() - 1]));
            let w2 = ws.last().push(c);
            assert(all_kept(w2)) by {
                assert(forall|j: int| 0 <= j < w2.len() - 1 ==> w2[j] == ws.last()[j]);
            }
        }
    }
}

/// Filtering a text of retained characters changes nothing.
pub proof fn lemma_kept_id(s: Seq<char>)
    requires
        all_kept(s),
    ensures
        kept(s) == s,
    decreases s.len(),
{
    reveal_with_fuel(Seq::<_>::filter, 2);
    if s.len() > 0 {
        assert(all_kept(s.drop_last())) by {
            assert(forall|j: int| 0 <= j < s.len() - 1 ==> s.drop_last()[j] == s[j]);
        }
        lemma_kept_id(s.drop_last());
        assert(kept(s) =~= s);
    }
}

/// Appending a word to the list appends it to the join, space-separated.
pub proof fn lemma_join_push(ws: Seq<Seq<char>>, w: Seq<char>)
    ensures
        join_sp(ws.push(w)) == if ws.len() == 0 {
            w
        } else {
            join_sp(ws) + seq![' '] + w
        },
{
    assert(ws.push(w).drop_last() =~= ws);
    if ws.len() == 0 {
        assert(join_sp(ws.push(w)) == ws.push(w)[0]);
        assert(ws.push(w)[0] == w);
    }
}

/// Extending the last word extends the join by that character.
pub proof fn lemma_join_update_last(ws: Seq<Seq<char>>, c: char)
    requires
        ws.len() > 0,
    ensures
        join_sp(ws.update(ws.len() - 1, ws.last().push(c))) == join_sp(ws).push(c),
{
    let ws2 = ws.update(ws.len() - 1, ws.last().push(c));
    assert(ws2.drop_last() =~= ws.drop_last());
    assert(ws2.last() == ws.last().push(c));
    if ws.len() == 1 {
        assert(join_sp(ws2) == ws2[0]);
        assert(join_sp(ws) == ws[0]);
        assert(ws2[0] == ws[0].push(c));
    } else {
        assert(join_sp(ws2) == join_sp(ws.drop_last()) + seq![' '] + ws.last().push(c));
        assert(join_sp(ws) == join_sp(ws.drop_last()) + seq![' '] + ws.last());
        assert(join_sp(ws.drop_last()) + seq![' '] + ws.last().push(c) =~= (join_sp(ws.drop_last())
            + seq![' '] + ws.last()).push(c));
    }
}

/// The characters of a join of retained words are all retained.
pub proof fn lemma_join_all_kept(ws: Seq<Seq<char>>)
    requires
        forall|i: int| 0 <= i < ws.len() ==> all_kept(#[trigger] ws[i]),
    ensures
        all_kept(join_sp(ws)),
    decreases ws.len(),
{
    if ws.len() > 1 {
        assert(forall|i: int|
            0 <= i < ws.drop_last().len() ==> all_kept(#[trigger] ws.drop_last()[i]));
        lemma_join_all_kept(ws.drop_last());
        let j = join_sp(ws.drop_last()) + seq![' '] + ws.last();
        assert(all_kept(j)) by {
            let a = join_sp(ws.drop_last());
            assert(forall|k: int| 0 <= k < a.len() ==> j[k] == a[k]);
            assert(j[a.len() as int] == ' ');
            assert(forall|k: int|
                a.len() + 1 <= k < j.len() ==> j[k] == ws.last()[k - a.len() - 1]);
            assert(all_kept(ws.last()));
        }
    }
}

/// A single whitespace-free word splits into itself.
pub proof fn lemma_single_word(w: Seq<char>)
    requires
        w.len() > 0,
        no_white(w),
    ensures
        words_of(w) == seq![w],
    decreases w.len(),
{
    let p = w.drop_last();
    let c = w.last();
    assert(!is_white(c));
    if p.len() == 0 {
        assert(words_of(w) =~~= seq![w]) by {
            assert(words_of(p) == Seq::<Seq<char>>::empty());
            assert(seq![c] =~= w);
        }
    } else {
        assert(no_white(p)) by {
            assert(forall|j: int| 0 <= j < p.len() ==> p[j] == w[j]);
        }
        lemma_single_word(p);
        assert(!is_white(p.last()));
        assert(words_of(w) == words_of(p).update(0, p.push(c)));
        assert(p.push(c) =~= w);
        assert(words_of(w) =~~= seq![w]);
    }
}

/// Appending a space and a word to a text appends the word to its word list.
pub proof fn lemma_words_chunk(t: Seq<char>, w: Seq<char>)
    requires
        w.len() > 0,
        no_white(w),
    ensures
        words_of(t + seq![' '] + w) == words_of(t).push(w),
    decreases w.len(),
{
    let p = w.drop_last();
    let c = w.last();
    assert(!is_white(c));
    if p.len() == 0 {
        let s = t + seq![' '] + w;
        assert(s.drop_last() =~= t + seq![' ']);
        assert(s.last() == c);
        assert((t + seq![' ']).last() == ' ');
        assert(is_white(' '));
        assert((t + seq![' ']).drop_last() =~= t);
        assert(words_of(t + seq![' ']) == words_of(t));
        assert(words_of(s) == words_of(t).push(seq![c]));
        assert(seq![c] =~= w);
    } else {
        assert(no_white(p)) by {
            assert(forall|j: int| 0 <= j < p.len() ==> p[j] == w[j]);
        }
        lemma_words_chunk(t, p);
        let s = t + seq![' '] + w;
        let s0 = t + seq![' '] + p;
        assert(s.drop_last() =~= s0);
        assert(s.last() == c);
        assert(s0.len() > 0 && s0.last() == p.last());
        assert(!is_white(s0.last()));
        let ws0 = words_of(s0);
        assert(ws0 == words_of(t).push(p));
        assert(ws0.len() > 0);
        assert(words_of(s) == ws0.update(ws0.len() - 1, ws0.last().push(c)));
        assert(ws0.last() == p);
        assert(p.push(c) =~= w);
        assert(ws0.update(ws0.len() - 1, p.push(c)) =~~= words_of(t).push(w));
    }
}

/// Splitting a space-joined list of whitespace-free words recovers the list.
pub proof fn lemma_words_join(ws: Seq<Seq<char>>)
    requires
        forall|i: int| 0 <= i < ws.len() ==> (#[trigger] ws[i]).len() > 0 && no_white(ws[i]),
    ensures
        words_of(join_sp(ws)) == ws,
    decreases ws.len(),
{
    if ws.len() == 0 {
        assert(words_of(join_sp(ws)) =~~= ws);
    } else if ws.len() == 1 {
        lemma_single_word(ws[0]);
        assert(join_sp(ws) == ws[0]);
        assert(words_of(join_sp(ws)) =~~= ws);
    } else {
        let p = ws.drop_last();
        assert(forall|i: int|
            0 <= i < p.len() ==> (#[trigger] p[i]).len() > 0 && no_white(p[i]));
        lemma_words_join(p);
        lemma_words_chunk(join_sp(p), ws.last());
        assert(join_sp(ws) == join_sp(p) + seq![' '] + ws.last());
        assert(words_of(join_sp(ws)) == words_of(join_sp(p)).push(ws.last()));
        assert(p.push(ws.last()) =~~= ws);
    }
}

/// The whitespace-collapsing stage is idempotent: filtering and re-splitting
/// an already canonical text reproduces it.
pub proof fn lemma_canon_idempotent(s: Seq<char>)
    ensures
        canon(canon(s)) == canon(s),
{
    let ws = words_of(kept(s));
    assert(all_kept(kept(s))) by {
        broadcast use vstd::seq_lib::group_filter_ensures;

        assert(forall|j: int|
            0 <= j < kept(s).len() ==> keep_char(#[trigger] kept(s)[j]));
    }
    lemma_words_shape(kept(s));
    lemma_words_all_kept(kept(s));
    lemma_join_all_kept(ws);
    lemma_kept_id(join_sp(ws));
    lemma_words_join(ws);
}

/// Normalization is idempotent, provided lowercasing leaves the normalized
/// text unchanged (its characters have no further lowercase mapping).
pub proof fn lemma_normalize_idempotent(s: Seq<char>)
    requires
        lower_of(norm_spec(s)) == norm_spec(s),
    ensures
        norm_spec(norm_spec(s)) == norm_spec(s),
{
    lemma_canon_idempotent(lower_of(s));
}


/// The character views of a list of character vectors.
pub open spec fn dview(ws: Seq<Vec<char>>) -> Seq<Seq<char>> {
    ws.map_values(|w: Vec<char>| w@)
}

/// Whether normalization retains this character.
pub fn is_keep_char(c: char) -> (r: bool)
    ensures
        r == keep_char(c),
{
    is_alnum_char(c) || is_white_char(c) || c == '-'
}

/// The whitespace-collapsing stage, in one pass: drop characters that are
/// not retained, and join the whitespace-delimited words with single spaces.
pub fn collapse_keep(v: &Vec<char>) -> (r: Vec<char>)
    ensures
        r@ == canon(v@),
{
    let mut r: Vec<char> = Vec::new();
    let mut in_word = false;
    let mut i: usize = 0;
    while i < v.len()
        invariant
            i <= v@.len(),
            r@ == join_sp(words_of(kept(v@.take(i as int)))),
            in_word == (kept(v@.take(i as int)).len() > 0 && !is_white(
                kept(v@.take(i as int)).last(),
            )),
            r@.len() > 0 <==> words_of(kept(v@.take(i as int))).len() > 0,
        decreases v@.len() - i,
    {
        let c = v[i];
        let ghost pref = v@.take(i as int);
        let ghost ks = kept(pref);
        let ghost ws = words_of(ks);
        proof {
            assert(v@.take(i + 1) =~= pref.push(c));
            lemma_kept_push(pref, c);
        }
        let keepc = is_keep_char(c);
        let whitec = is_white_char(c);
        if keepc {
            proof {
                lemma_words_push(ks, c);
            }
            if whitec {
                in_word = false;
            } else {
                if in_word {
                    proof {
                        lemma_words_shape(ks);
                        lemma_join_update_last(ws, c);
                    }
                    r.push(c);
                } else {
                    proof {
                        lemma_join_push(ws, seq![c]);
                    }
                    if r.len() > 0 {
                        r.push(' ');
                        r.push(c);
                        proof {
                            assert(r@ =~= join_sp(ws) + seq![' '] + seq![c]);
                        }
                    } else {
                        r.push(c);
                        proof {
                            assert(r@ =~= seq![c]);
                        }
                    }
                }
                in_word = true;
                proof {
                    assert(kept(v@.take(i + 1)).last() == c);
                }
            }
        }
        i = i + 1;
    }
    proof {
        assert(v@.take(v@.len() as int) =~= v@);
    }
    r
}

/// Split a text at whitespace into its words.
pub fn split_white(v: &Vec<char>) -> (r: Vec<Vec<char>>)
    ensures
        dview(r@) == words_of(v@),
{
    let mut r: Vec<Vec<char>> = Vec::new();
    let mut in_word = false;
    let mut i: usize = 0;
    while i < v.len()
        invariant
            i <= v@.len(),
            dview(r@) == words_of(v@.take(i as int)),
            in_word == (v@.take(i as int).len() > 0 && !is_white(v@.take(i as int).last())),
            in_word ==> r@.len() > 0,
        decreases v@.len() - i,
    {
        let c = v[i];
        let ghost pref = v@.take(i as int);
        let ghost ws = words_of(pref);
        proof {
            assert(v@.take(i + 1) =~= pref.push(c));
            lemma_words_push(pref, c);
        }
        if is_white_char(c) {
            in_word = false;
        } else {
            if in_word {
                let mut w = r.pop().unwrap();
                w.push(c);
                r.push(w);
                proof {
                    assert(dview(r@) =~~= ws.update(ws.len() - 1, ws.last().push(c)));
                }
            } else {
                let mut w: Vec<char> = Vec::new();
                w.push(c);
                r.push(w);
                proof {
                    assert(dview(r@) =~~= ws.push(seq![c]));
                }
            }
            in_word = true;
        }
        i = i + 1;
    }
    proof {
        assert(v@.take(v@.len() as int) =~= v@);
    }
    r
}

/// Keep only words of at least two characters.
pub fn keep_long(ws: Vec<Vec<char>>) -> (r: Vec<Vec<char>>)
    ensures
        dview(r@) == long_words(dview(ws@)),
{
    let mut r: Vec<Vec<char>> = Vec::new();
    let mut i: usize = 0;
    while i < ws.len()
        invariant
            i <= ws@.len(),
            dview(r@) == long_words(dview(ws@.take(i as int))),
        decreases ws@.len() - i,
    {
        let ghost pref = dview(ws@.take(i as int));
        proof {
            reveal_with_fuel(Seq::<_>::filter, 2);
            assert(dview(ws@.take(i + 1)) =~= pref.push(ws@[i as int]@));
            assert(pref.push(ws@[i as int]@).drop_last() =~= pref);
        }
        if ws[i].len() >= 2 {
            let w = ws[i].clone();
            r.push(w);
            proof {
                assert(dview(r@) =~= long_words(pref).push(ws@[i as int]@));
            }
        }
        i = i + 1;
    }
    proof {
        assert(ws@.take(ws@.len() as int) =~= ws@);
    }
    r
}


/// How many whitespace-delimited words a raw text holds.
pub fn count_words(text: &str) -> (r: usize)
    ensures
        r == words_of(text@).len(),
{
    let v = chars_vec(text);
    let ws = split_white(&v);
    proof {
        assert(dview(ws@).len() == ws@.len());
    }
    ws.len()
}

} // verus!
