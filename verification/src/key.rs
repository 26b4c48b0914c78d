//! Deterministic derivation of a group key from a directive set: the rendered
//! texts of the conditional and linkage directives are sorted, sanitized into
//! identifier characters, joined with underscores, runs of underscores are
//! collapsed, and outer underscores trimmed.

use vstd::prelude::*;
use crate::directive::{DirectiveSet, DirectiveSetV, texts_of};
use crate::text::{chars_of, lex_leq_fn, sort_texts, sorted_texts, string_from_chars};

verus! {

broadcast use {crate::views::lemma_vec_deep_view_index, crate::views::lemma_vec_char_deep_view};

/// Whether a character counts as alphanumeric for sanitization.
pub uninterp spec fn alphanumeric(c: char) -> bool;

/// Relies on `char::is_alphanumeric`: whether the character is in one of the
/// Unicode alphabetic or numeric general categories, a property of the
/// character alone.
pub assume_specification[ char::is_alphanumeric ](c: char) -> (r: bool)
    ensures
        r == alphanumeric(c),
;

/// What one character of a directive text contributes to the key: `=` becomes
/// `_eq_`, alphanumeric characters and `_` stay, everything else becomes `_`.
pub open spec fn sanitize_char(c: char) -> Seq<char> {
    if c == '=' {
        seq!['_', 'e', 'q', '_']
    } else if alphanumeric(c) || c == '_' {
        seq![c]
    } else {
        seq!['_']
    }
}

/// The sanitized form of a whole text.
pub open spec fn sanitize_text(s: Seq<char>) -> Seq<char>
    decreases s.len(),
{
    if s.len() == 0 {
        Seq::empty()
    } else {
        sanitize_text(s.drop_last()) + sanitize_char(s.last())
    }
}

/// The parts joined with a single `_` between consecutive parts.
pub open spec fn join_underscore(parts: Seq<Seq<char>>) -> Seq<char>
    decreases parts.len(),
{
    if parts.len() == 0 {
        Seq::empty()
    } else if parts.len() == 1 {
        parts[0]
    } else {
        join_underscore(parts.drop_last()) + seq!['_'] + parts.last()
    }
}

/// The text with every run of consecutive `_` collapsed to a single `_`.
pub open spec fn collapse_underscores(s: Seq<char>) -> Seq<char>
    decreases s.len(),
{
    if s.len() == 0 {
        Seq::empty()
    } else {
        let p = collapse_underscores(s.drop_last());
        if s.last() == '_' && p.len() > 0 && p.last() == '_' {
            p
        } else {
            p.push(s.last())
        }
    }
}

/// The text with trailing `_` removed.
pub open spec fn trim_trailing(s: Seq<char>) -> Seq<char>
    decreases s.len(),
{
    if s.len() > 0 && s.last() == '_' {
        trim_trailing(s.drop_last())
    } else {
        s
    }
}

/// The text with leading `_` removed.
pub open spec fn trim_leading(s: Seq<char>) -> Seq<char>
    decreases s.len(),
{
    if s.len() > 0 && s.first() == '_' {
        trim_leading(s.drop_first())
    } else {
        s
    }
}

/// The text with leading and trailing `_` removed.
pub open spec fn trim_underscores(s: Seq<char>) -> Seq<char> {
    trim_leading(trim_trailing(s))
}

/// The key derived from a collection of directive texts: sort, sanitize each,
/// join with `_`, collapse runs of `_`, trim outer `_`.
pub open spec fn key_spec(texts: Seq<Seq<char>>) -> Seq<char> {
    trim_underscores(
        collapse_underscores(
            join_underscore(sorted_texts(texts).map_values(|t: Seq<char>| sanitize_text(t))),
        ),
    )
}

/// The key of a directive set: derived from the conditional and linkage texts
/// only; the other class never participates.
pub open spec fn key_of(s: DirectiveSetV) -> Seq<char> {
    key_spec(texts_of(s.conditional) + texts_of(s.linkage))
}

/// The sanitized form of one text.
fn sanitize_vec(t: &Vec<char>) -> (r: Vec<char>)
    ensures
        r@ == sanitize_text(t@),
{
    let mut r: Vec<char> = Vec::new();
    let mut i: usize = 0;
    while i < t.len()
        invariant
            i <= t@.len(),
            r@ == sanitize_text(t@.take(i as int)),
        decreases t@.len() - i,
    {
        let c = t[i];
        if c == '=' {
            r.push('_');
            r.push('e');
            r.push('q');
            r.push('_');
        } else if c.is_alphanumeric() || c == '_' {
            r.push(c);
        } else {
            r.push('_');
        }
        proof {
            crate::views::lemma_take_step(t@, i as int);
            assert(r@ =~= sanitize_text(t@.take(i as int)) + sanitize_char(t@[i as int]));
        }
        i += 1;
    }
    proof {
        assert(t@.take(t@.len() as int) =~= t@);
    }
    r
}

/// The texts of the conditional directives followed by those of the linkage
/// directives, as character vectors.
fn key_texts(set: &DirectiveSet) -> (r: Vec<Vec<char>>)
    ensures
        r.deep_view() == texts_of(set@.conditional) + texts_of(set@.linkage),
{
    let mut r: Vec<Vec<char>> = Vec::new();
    let mut i: usize = 0;
    while i < set.conditional.len()
        invariant
            i <= set.conditional@.len(),
            r.deep_view() == texts_of(set@.conditional.take(i as int)),
        decreases set.conditional@.len() - i,
    {
        let ghost pre = r.deep_view();
        r.push(chars_of(set.conditional[i].text.as_str()));
        proof {
            assert(r.deep_view() =~= pre.push(set@.conditional[i as int].text));
            assert(texts_of(set@.conditional.take(i + 1)) =~= texts_of(set@.conditional.take(i as int)).push(
                set@.conditional[i as int].text,
            ));
        }
        i += 1;
    }
    proof {
        assert(set@.conditional.take(set.conditional@.len() as int) =~= set@.conditional);
    }
    let mut j: usize = 0;
    while j < set.linkage.len()
        invariant
            j <= set.linkage@.len(),
            r.deep_view() == texts_of(set@.conditional) + texts_of(set@.linkage.take(j as int)),
        decreases set.linkage@.len() - j,
    {
        let ghost pre = r.deep_view();
        r.push(chars_of(set.linkage[j].text.as_str()));
        proof {
            assert(r.deep_view() =~= pre.push(set@.linkage[j as int].text));
            assert(texts_of(set@.linkage.take(j + 1)) =~= texts_of(set@.linkage.take(j as int)).push(
                set@.linkage[j as int].text,
            ));
            assert(texts_of(set@.conditional) + texts_of(set@.linkage.take(j + 1)) =~= (texts_of(
                set@.conditional,
            ) + texts_of(set@.linkage.take(j as int))).push(set@.linkage[j as int].text));
        }
        j += 1;
    }
    proof {
        assert(set@.linkage.take(set.linkage@.len() as int) =~= set@.linkage);
    }
    r
}

/// Derives the group key of a directive set with a non-empty conditional or
/// linkage class; calling it on an empty union is a caller error.
pub fn derive_group_key(set: &DirectiveSet) -> (r: String)
    requires
        set@.conditional.len() + set@.linkage.len() > 0,
    ensures
        r@ == key_of(set@),
{
    let texts = key_texts(set);
    let sorted = sort_texts(texts);
    let ghost sorted_view = sorted_texts(texts_of(set@.conditional) + texts_of(set@.linkage));
    let mut parts: Vec<Vec<char>> = Vec::new();
    let mut i: usize = 0;
    while i < sorted.len()
        invariant
            i <= sorted@.len(),
            sorted.deep_view() == sorted_view,
            parts.deep_view() == sorted_view.take(i as int).map_values(|t: Seq<char>| sanitize_text(t)),
        decreases sorted@.len() - i,
    {
        let ghost pre = parts.deep_view();
        parts.push(sanitize_vec(&sorted[i]));
        proof {
            assert(parts.deep_view() =~= pre.push(sanitize_text(sorted_view[i as int])));
            assert(sorted_view.take(i + 1).map_values(|t: Seq<char>| sanitize_text(t)) =~= sorted_view.take(
                i as int,
            ).map_values(|t: Seq<char>| sanitize_text(t)).push(sanitize_text(sorted_view[i as int])));
        }
        i += 1;
    }
    proof {
        assert(sorted_view.take(sorted_view.len() as int) =~= sorted_view);
    }
    let ghost parts_view = parts.deep_view();
    let mut joined: Vec<char> = Vec::new();
    let mut k: usize = 0;
    while k < parts.len()
        invariant
            k <= parts@.len(),
            parts.deep_view() == parts_view,
            joined@ == join_underscore(parts_view.take(k as int)),
        decreases parts@.len() - k,
    {
        if k > 0 {
            joined.push('_');
        }
        let part = &parts[k];
        let mut j: usize = 0;
        while j < part.len()
            invariant
                j <= part@.len(),
                k > 0 ==> joined@ == join_underscore(parts_view.take(k as int)) + seq!['_'] + part@.take(
                    j as int,
                ),
                k == 0 ==> joined@ == join_underscore(parts_view.take(k as int)) + part@.take(j as int),
            decreases part@.len() - j,
        {
            joined.push(part[j]);
            proof {
                assert(part@.take(j + 1) =~= part@.take(j as int).push(part@[j as int]));
                if k > 0 {
                    assert(joined@ =~= join_underscore(parts_view.take(k as int)) + seq!['_'] + part@.take(
                        j + 1,
                    ));
                } else {
                    assert(joined@ =~= join_underscore(parts_view.take(k as int)) + part@.take(j + 1));
                }
            }
            j += 1;
        }
        proof {
            assert(part@.take(part@.len() as int) =~= part@);
            assert(part@ == parts_view[k as int]);
            crate::views::lemma_take_step(parts_view, k as int);
            if k > 0 {
                assert(join_underscore(parts_view.take(k + 1)) == join_underscore(parts_view.take(
                    k as int,
                )) + seq!['_'] + parts_view[k as int]);
            } else {
                assert(parts_view.take(1).len() == 1);
                assert(join_underscore(parts_view.take(1)) == parts_view.take(1)[0]);
                assert(join_underscore(Seq::<Seq<char>>::empty()) + parts_view[0] =~= parts_view[0]);
                assert(joined@ =~= join_underscore(parts_view.take(k + 1)));
            }
        }
        k += 1;
    }
    proof {
        assert(parts_view.take(parts_view.len() as int) =~= parts_view);
    }
    let ghost joined_view = joined@;
    let mut collapsed: Vec<char> = Vec::new();
    let mut m: usize = 0;
    while m < joined.len()
        invariant
            m <= joined@.len(),
            joined@ == joined_view,
            collapsed@ == collapse_underscores(joined_view.take(m as int)),
        decreases joined@.len() - m,
    {
        let c = joined[m];
        proof {
            crate::views::lemma_take_step(joined_view, m as int);
        }
        if c == '_' && collapsed.len() > 0 && collapsed[collapsed.len() - 1] == '_' {
        } else {
            collapsed.push(c);
        }
        m += 1;
    }
    proof {
        assert(joined_view.take(joined_view.len() as int) =~= joined_view);
    }
    let ghost collapsed_view = collapsed@;
    let mut trimmed = collapsed;
    while trimmed.len() > 0 && trimmed[trimmed.len() - 1] == '_'
        invariant
            trim_trailing(trimmed@) == trim_trailing(collapsed_view),
        decreases trimmed@.len(),
    {
        let ghost pre = trimmed@;
        trimmed.pop();
        proof {
            assert(trimmed@ =~= pre.drop_last());
        }
    }
    proof {
        assert(trim_trailing(trimmed@) == trimmed@);
    }
    let ghost after_trailing = trimmed@;
    while trimmed.len() > 0 && trimmed[0] == '_'
        invariant
            trim_leading(trimmed@) == trim_leading(after_trailing),
        decreases trimmed@.len(),
    {
        let ghost pre = trimmed@;
        trimmed.remove(0);
        proof {
            assert(trimmed@ =~= pre.drop_first());
        }
    }
    proof {
        assert(trim_leading(trimmed@) == trimmed@);
        assert(trimmed@ == key_of(set@));
    }
    string_from_chars(&trimmed)
}

/// Deriving a key is invariant under reordering of the contributing texts:
/// any two text collections with the same members, however arranged, yield
/// the same key.
pub proof fn lemma_key_order_invariant(a: Seq<Seq<char>>, b: Seq<Seq<char>>)
    requires
        a.to_multiset() == b.to_multiset(),
    ensures
        key_spec(a) == key_spec(b),
{
    crate::text::lemma_lex_total_ordering();
    a.lemma_sort_by_ensures(lex_leq_fn());
    b.lemma_sort_by_ensures(lex_leq_fn());
    vstd::seq_lib::lemma_sorted_unique(a.sort_by(lex_leq_fn()), b.sort_by(lex_leq_fn()), lex_leq_fn());
    assert(sorted_texts(a) == sorted_texts(b));
}

} // verus!
