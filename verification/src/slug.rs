//! URL-friendly slugs: lowercase the text, keep alphanumerics, turn
//! whitespace, hyphens and underscores into hyphens, drop everything else,
//! then collapse hyphen runs into single hyphens and trim the ends.
use vstd::prelude::*;
use crate::text::{chars_vec, is_alnum, is_alnum_char, is_white, is_white_char, lower_of, lowercase, string_of};

verus! {

/// What the character-mapping stage makes of one character: alphanumerics
/// stay, separators become hyphens, the rest vanishes.
pub open spec fn slug_char(c: char) -> Option<char> {
    if is_alnum(c) {
        Some(c)
    } else if is_white(c) || c == '-' || c == '_' {
        Some('-')
    } else {
        None
    }
}

/// The mapped characters of a text, in order.
pub open spec fn slug_mapped(s: Seq<char>) -> Seq<char>
    decreases s.len(),
{
    if s.len() == 0 {
        Seq::empty()
    } else {
        slug_mapped(s.drop_last()) + match slug_char(s.last()) {
            Some(c) => seq![c],
            None => Seq::empty(),
        }
    }
}

/// The hyphen-delimited parts of a text, in order, each non-empty.
pub open spec fn parts_of(s: Seq<char>) -> Seq<Seq<char>>
    decreases s.len(),
{
    if s.len() == 0 {
        Seq::empty()
    } else {
        let p = s.drop_last();
        let c = s.last();
        let ps = parts_of(p);
        if c == '-' {
            ps
        } else if p.len() > 0 && p.last() != '-' {
            ps.update(ps.len() - 1, ps.last().push(c))
        } else {
            ps.push(seq![c])
        }
    }
}

/// Parts joined by single hyphens.
pub open spec fn join_dash(ps: Seq<Seq<char>>) -> Seq<char>
    decreases ps.len(),
{
    if ps.len() == 0 {
        Seq::empty()
    } else if ps.len() == 1 {
        ps[0]
    } else {
        join_dash(ps.drop_last()) + seq!['-'] + ps.last()
    }
}

/// The slug of a text.
pub open spec fn slug_spec(s: Seq<char>) -> Seq<char> {
    join_dash(parts_of(slug_mapped(lower_of(s))))
}

/// How the mapped characters grow with the text.
pub proof fn lemma_slug_mapped_push(s: Seq<char>, c: char)
    ensures
        slug_mapped(s.push(c)) == slug_mapped(s) + (match slug_char(c) {
            Some(m) => seq![m],
            None => Seq::<char>::empty(),
        }),
{
    assert(s.push(c).drop_last() =~= s);
    assert(s.push(c).last() == c);
}

/// How the part list grows with the text.
pub proof fn lemma_parts_push(s: Seq<char>, c: char)
    ensures
        parts_of(s.push(c)) == if c == '-' {
            parts_of(s)
        } else if s.len() > 0 && s.last() != '-' {
            parts_of(s).update(parts_of(s).len() - 1, parts_of(s).last().push(c))
        } else {
            parts_of(s).push(seq![c])
        },
{
    assert(s.push(c).drop_last() =~= s);
    assert(s.push(c).last() == c);
}

/// Every part is non-empty.
pub proof fn lemma_parts_shape(s: Seq<char>)
    ensures
        forall|i: int| 0 <= i < parts_of(s).len() ==> (#[trigger] parts_of(s)[i]).len() > 0,
        s.len() > 0 && s.last() != '-' ==> parts_of(s).len() > 0,
    decreases s.len(),
{
    if s.len() > 0 {
        let p = s.drop_last();
        let c = s.last();
        lemma_parts_shape(p);
        let ps = parts_of(p);
        if c == '-' {
        } else if p.len() > 0 && p.last() != '-' {
            let ps2 = ps.update(ps.len() - 1, ps.last().push(c));
            assert(parts_of(s) == ps2);
            assert(forall|i: int| 0 <= i < ps2.len() - 1 ==> ps2[i] == ps[i]);
            assert(ps2[ps2.len() - 1] == ps.last().push(c));
        } else {
            let ps2 = ps.push(seq![c]);
            assert(parts_of(s) == ps2);
            assert(forall|i: int| 0 <= i < ps2.len() - 1 ==> ps2[i] == ps[i]);
            assert(ps2[ps2.len() - 1].len() == 1);
        }
    }
}

/// Appending a part appends it to the join, hyphen-separated.
pub proof fn lemma_join_dash_push(ps: Seq<Seq<char>>, w: Seq<char>)
    ensures
        join_dash(ps.push(w)) == if ps.len() == 0 {
            w
        } else {
            join_dash(ps) + seq!['-'] + w
        },
{
    assert(ps.push(w).drop_last() =~= ps);
    if ps.len() == 0 {
        assert(join_dash(ps.push(w)) == ps.push(w)[0]);
        assert(ps.push(w)[0] == w);
    }
}

/// Extending the last part extends the join by that character.
pub proof fn lemma_join_dash_update_last(ps: Seq<Seq<char>>, c: char)
    requires
        ps.len() > 0,
    ensures
        join_dash(ps.update(ps.len() - 1, ps.last().push(c))) == join_dash(ps).push(c),
{
    let ps2 = ps.update(ps.len() - 1, ps.last().push(c));
    assert(ps2.drop_last() =~= ps.drop_last());
    assert(ps2.last() == ps.last().push(c));
    if ps.len() == 1 {
        assert(join_dash(ps2) == ps2[0]);
        assert(join_dash(ps) == ps[0]);
        assert(ps2[0] == ps[0].push(c));
    } else {
        assert(join_dash(ps2) == join_dash(ps.drop_last()) + seq!['-'] + ps.last().push(c));
        assert(join_dash(ps) == join_dash(ps.drop_last()) + seq!['-'] + ps.last());
        assert(join_dash(ps.drop_last()) + seq!['-'] + ps.last().push(c) =~= (join_dash(
            ps.drop_last(),
        ) + seq!['-'] + ps.last()).push(c));
    }
}

/// The slug of a text: lowercase, alphanumerics kept, separator runs
/// collapsed to single hyphens, ends trimmed.
pub fn make_slug(text: &str) -> (r: String)
    ensures
        r@ == slug_spec(text@),
{
    let lowered = lowercase(text);
    let lv = chars_vec(lowered.as_str());
    let mut r: Vec<char> = Vec::new();
    let mut in_part = false;
    let mut i: usize = 0;
    proof {
        assert(lv@.take(0) =~= Seq::<char>::empty());
    }
    while i < lv.len()
        invariant
            i <= lv@.len(),
            lv@ == lower_of(text@),
            r@ == join_dash(parts_of(slug_mapped(lv@.take(i as int)))),
            in_part == (slug_mapped(lv@.take(i as int)).len() > 0 && slug_mapped(
                lv@.take(i as int),
            ).last() != '-'),
            r@.len() > 0 <==> parts_of(slug_mapped(lv@.take(i as int))).len() > 0,
        decreases lv@.len() - i,
    {
        let c = lv[i];
        let ghost pref = lv@.take(i as int);
        let ghost ms = slug_mapped(pref);
        let ghost ps = parts_of(ms);
        proof {
            assert(lv@.take(i + 1) =~= pref.push(c));
            lemma_slug_mapped_push(pref, c);
        }
        let mc: Option<char> = if is_alnum_char(c) {
            Some(c)
        } else if is_white_char(c) || c == '-' || c == '_' {
            Some('-')
        } else {
            None
        };
        proof {
            assert(mc == slug_char(c));
        }
        match mc {
            None => {
                proof {
                    assert(slug_mapped(pref.push(c)) =~= ms);
                }
            },
            Some(m) => {
                proof {
                    assert(slug_mapped(pref.push(c)) =~= ms.push(m));
                    lemma_parts_push(ms, m);
                }
                if m == '-' {
                    in_part = false;
                } else {
                    if in_part {
                        proof {
                            lemma_parts_shape(ms);
                            lemma_join_dash_update_last(ps, m);
                        }
                        r.push(m);
                    } else {
                        proof {
                            lemma_join_dash_push(ps, seq![m]);
                        }
                        if r.len() > 0 {
                            r.push('-');
                            r.push(m);
                            proof {
                                assert(r@ =~= join_dash(ps) + seq!['-'] + seq![m]);
                            }
                        } else {
                            r.push(m);
                            proof {
                                assert(r@ =~= seq![m]);
                            }
                        }
                    }
                    in_part = true;
                    proof {
                        assert(slug_mapped(lv@.take(i + 1)).last() == m);
                    }
                }
            },
        }
        i = i + 1;
    }
    proof {
        assert(lv@.take(lv@.len() as int) =~= lv@);
    }
    string_of(&r)
}

} // verus!
