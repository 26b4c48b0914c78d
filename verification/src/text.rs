//! Character-level text utilities: conversions between `String` and `Vec<char>`
//! and a lexicographic order on character sequences, with a verified sort.

use vstd::prelude::*;
use vstd::relations::{antisymmetric, reflexive, sorted_by, strongly_connected, total_ordering, transitive};
use vstd::seq_lib::lemma_sorted_unique;
use vstd::seq_lib::lemma_multiset_commutative;
use vstd::string::StrSliceExecFns;
use vstd::multiset::Multiset;

verus! {

broadcast use {
    vstd::seq_lib::group_to_multiset_ensures,
    crate::views::lemma_vec_char_deep_view,
    crate::views::lemma_vec_texts_deep_view,
};

/// The characters of `s`, in order.
pub fn chars_of(s: &str) -> (r: Vec<char>)
    ensures
        r@ == s@,
{
    let n = s.unicode_len();
    let mut r: Vec<char> = Vec::new();
    let mut i: usize = 0;
    while i < n
        invariant
            n == s@.len(),
            i <= n,
            r@ == s@.take(i as int),
        decreases n - i,
    {
        r.push(s.get_char(i));
        assert(s@.take(i + 1) == s@.take(i as int).push(s@[i as int]));
        i += 1;
    }
    assert(s@.take(n as int) == s@);
    r
}

/// Relies on `String: FromIterator<char>`: collecting characters builds the
/// string made of exactly those characters, in order.
#[verifier::external_body]
pub fn string_from_chars(v: &Vec<char>) -> (r: String)
    ensures
        r@ == v@,
{
    v.iter().collect()
}

/// Lexicographic "less than or equal" on character sequences, comparing
/// characters by their scalar values; a proper prefix precedes its extensions.
pub open spec fn lex_leq(a: Seq<char>, b: Seq<char>) -> bool
    decreases a.len(),
{
    if a.len() == 0 {
        true
    } else if b.len() == 0 {
        false
    } else if a.first() != b.first() {
        (a.first() as u32) < (b.first() as u32)
    } else {
        lex_leq(a.drop_first(), b.drop_first())
    }
}

/// `lex_leq` as a binary relation value.
pub open spec fn lex_leq_fn() -> spec_fn(Seq<char>, Seq<char>) -> bool {
    |a: Seq<char>, b: Seq<char>| lex_leq(a, b)
}

pub proof fn lemma_lex_refl(a: Seq<char>)
    ensures
        lex_leq(a, a),
    decreases a.len(),
{
    if a.len() > 0 {
        lemma_lex_refl(a.drop_first());
    }
}

pub proof fn lemma_lex_antisym(a: Seq<char>, b: Seq<char>)
    requires
        lex_leq(a, b),
        lex_leq(b, a),
    ensures
        a == b,
    decreases a.len(),
{
    if a.len() == 0 {
        assert(b.len() == 0);
        assert(a =~= b);
    } else {
        assert(b.len() > 0);
        if a.first() == b.first() {
            lemma_lex_antisym(a.drop_first(), b.drop_first());
            assert(a.subrange(1, a.len() as int) == b.subrange(1, b.len() as int));
            assert(a.subrange(1, a.len() as int).len() == a.len() - 1);
            assert(b.subrange(1, b.len() as int).len() == b.len() - 1);
            assert(a.len() == b.len());
            assert forall|i: int| 0 <= i < a.len() implies a[i] == b[i] by {
                if i > 0 {
                    assert(a.subrange(1, a.len() as int)[i - 1] == a[i]);
                    assert(b.subrange(1, b.len() as int)[i - 1] == b[i]);
                }
            }
            assert(a =~= b);
        }
    }
}

pub proof fn lemma_lex_trans(a: Seq<char>, b: Seq<char>, c: Seq<char>)
    requires
        lex_leq(a, b),
        lex_leq(b, c),
    ensures
        lex_leq(a, c),
    decreases a.len(),
{
    if a.len() == 0 {
    } else {
        assert(b.len() > 0);
        assert(c.len() > 0);
        if a.first() == b.first() && b.first() == c.first() {
            assert(lex_leq(a.drop_first(), b.drop_first()));
            assert(lex_leq(b.drop_first(), c.drop_first()));
            lemma_lex_trans(a.drop_first(), b.drop_first(), c.drop_first());
            assert(a.first() == c.first());
        } else if a.first() == b.first() {
            assert((b.first() as u32) < (c.first() as u32));
            assert((a.first() as u32) < (c.first() as u32));
            assert(a.first() != c.first());
        } else if b.first() == c.first() {
            assert((a.first() as u32) < (b.first() as u32));
            assert((a.first() as u32) < (c.first() as u32));
            assert(a.first() != c.first());
        } else {
            assert((a.first() as u32) < (b.first() as u32));
            assert((b.first() as u32) < (c.first() as u32));
            assert((a.first() as u32) < (c.first() as u32));
            assert(a.first() != c.first());
        }
    }
}

pub proof fn lemma_lex_connected(a: Seq<char>, b: Seq<char>)
    ensures
        lex_leq(a, b) || lex_leq(b, a),
    decreases a.len(),
{
    if a.len() > 0 && b.len() > 0 {
        if a.first() == b.first() {
            lemma_lex_connected(a.drop_first(), b.drop_first());
        } else {
            crate::views::lemma_char_neq_u32(a.first(), b.first());
        }
    }
}

/// The lexicographic order is a total order on character sequences.
pub proof fn lemma_lex_total_ordering()
    ensures
        total_ordering(lex_leq_fn()),
{
    let leq = lex_leq_fn();
    assert forall|a: Seq<char>| #[trigger] leq(a, a) by {
        lemma_lex_refl(a);
    }
    assert(reflexive(leq));
    assert forall|a: Seq<char>, b: Seq<char>| #[trigger] leq(a, b) && #[trigger] leq(b, a) implies a == b by {
        lemma_lex_antisym(a, b);
    }
    assert(antisymmetric(leq));
    assert forall|a: Seq<char>, b: Seq<char>, c: Seq<char>|
        #[trigger] leq(a, b) && #[trigger] leq(b, c) implies leq(a, c) by {
        lemma_lex_trans(a, b, c);
    }
    assert(transitive(leq));
    assert forall|a: Seq<char>, b: Seq<char>| !(#[trigger] leq(a, b)) implies leq(b, a) by {
        lemma_lex_connected(a, b);
    }
    assert(strongly_connected(leq));
}

/// Whether the common prefix of length `i` is equal; under that assumption the
/// comparison of `a` and `b` reduces to the comparison of their tails.
proof fn lemma_lex_skip(a: Seq<char>, b: Seq<char>, i: int)
    requires
        0 <= i <= a.len(),
        0 <= i <= b.len(),
        forall|j: int| 0 <= j < i ==> a[j] == b[j],
    ensures
        lex_leq(a, b) == lex_leq(a.skip(i), b.skip(i)),
    decreases i,
{
    if i > 0 {
        assert(a.len() > 0 && b.len() > 0);
        assert(a.first() == b.first());
        assert(a.drop_first() =~= a.skip(1));
        assert(b.drop_first() =~= b.skip(1));
        lemma_lex_skip(a.skip(1), b.skip(1), i - 1);
        assert(a.skip(1).skip(i - 1) =~= a.skip(i));
        assert(b.skip(1).skip(i - 1) =~= b.skip(i));
    } else {
        assert(a.skip(0) =~= a);
        assert(b.skip(0) =~= b);
    }
}

/// Decides the lexicographic order on two character vectors.
pub fn lex_le(a: &Vec<char>, b: &Vec<char>) -> (r: bool)
    ensures
        r == lex_leq(a@, b@),
{
    let mut i: usize = 0;
    loop
        invariant
            i <= a@.len(),
            i <= b@.len(),
            forall|j: int| 0 <= j < i ==> a@[j] == b@[j],
        decreases a@.len() - i,
    {
        proof {
            lemma_lex_skip(a@, b@, i as int);
        }
        if i == a.len() {
            assert(a@.skip(i as int).len() == 0);
            return true;
        }
        if i == b.len() {
            assert(b@.skip(i as int).len() == 0);
            assert(a@.skip(i as int).len() > 0);
            return false;
        }
        let ca = a[i];
        let cb = b[i];
        assert(a@.skip(i as int).first() == a@[i as int]);
        assert(b@.skip(i as int).first() == b@[i as int]);
        if ca != cb {
            return (ca as u32) < (cb as u32);
        }
        i += 1;
    }
}

/// The input sequence sorted into lexicographic order.
pub open spec fn sorted_texts(ts: Seq<Seq<char>>) -> Seq<Seq<char>> {
    ts.sort_by(lex_leq_fn())
}

/// Sorts the vector's character sequences into lexicographic order.
pub fn sort_texts(v: Vec<Vec<char>>) -> (r: Vec<Vec<char>>)
    ensures
        r.deep_view() == sorted_texts(v.deep_view()),
{
    proof {
        lemma_lex_total_ordering();
    }
    let ghost orig: Seq<Seq<char>> = v.deep_view();
    let mut v = v;
    let mut out: Vec<Vec<char>> = Vec::new();
    proof {
        broadcast use vstd::seq_lib::group_to_multiset_ensures;
    }
    while v.len() > 0
        invariant
            sorted_by(out.deep_view(), lex_leq_fn()),
            out.deep_view().to_multiset().add(v.deep_view().to_multiset()) == orig.to_multiset(),
        decreases v.len(),
    {
        let ghost pre_v: Seq<Seq<char>> = v.deep_view();
        let x = v.pop().unwrap();
        proof {
            assert(pre_v.drop_last().push(pre_v.last()) =~= pre_v);
            assert(pre_v.drop_last().push(pre_v.last()).to_multiset() == pre_v.drop_last().to_multiset().insert(
                pre_v.last(),
            ));
            assert(v.deep_view() =~= pre_v.drop_last());
            assert(x.deep_view() == pre_v.last());
        }
        insert_sorted(&mut out, x);
        proof {
            assert(out.deep_view().to_multiset().add(v.deep_view().to_multiset()) =~= orig.to_multiset());
        }
    }
    proof {
        assert(v.deep_view() =~= Seq::<Seq<char>>::empty());
        assert(v.deep_view().to_multiset() =~= Multiset::<Seq<char>>::empty());
        assert(out.deep_view().to_multiset() =~= orig.to_multiset());
        orig.lemma_sort_by_ensures(lex_leq_fn());
        lemma_sorted_unique(out.deep_view(), orig.sort_by(lex_leq_fn()), lex_leq_fn());
        assert(out.deep_view() =~= sorted_texts(orig));
    }
    out
}

/// Inserts `x` into the sorted vector `out`, keeping it sorted.
#[verifier::rlimit(50)]
fn insert_sorted(out: &mut Vec<Vec<char>>, x: Vec<char>)
    requires
        sorted_by(old(out).deep_view(), lex_leq_fn()),
    ensures
        sorted_by(final(out).deep_view(), lex_leq_fn()),
        final(out).deep_view().to_multiset() == old(out).deep_view().to_multiset().insert(x@),
{
    proof {
        lemma_lex_total_ordering();
        broadcast use vstd::seq_lib::group_to_multiset_ensures;
    }
    let mut j: usize = 0;
    loop
        invariant
            j <= out@.len(),
            *out == *old(out),
            sorted_by(old(out).deep_view(), lex_leq_fn()),
            forall|i: int| 0 <= i < j ==> lex_leq(old(out).deep_view()[i], x@),
        ensures
            j <= out@.len(),
            *out == *old(out),
            forall|i: int| 0 <= i < j ==> lex_leq(old(out).deep_view()[i], x@),
            j < out@.len() ==> !lex_leq(out.deep_view()[j as int], x@),
        decreases out@.len() - j,
    {
        if j == out.len() {
            break;
        }
        if !lex_le(&out[j], &x) {
            proof {
                assert(out.deep_view()[j as int] == out@[j as int]@);
            }
            break;
        }
        j += 1;
    }
    let ghost s = old(out).deep_view();
    proof {
        if j < out@.len() {
            assert(s[j as int] == out@[j as int]@);
            lemma_lex_connected(s[j as int], x@);
            assert(lex_leq(x@, s[j as int]));
        }
        assert forall|i1: int, i2: int| 0 <= i1 < i2 < s.len() implies lex_leq(s[i1], s[i2]) by {
            assert(lex_leq_fn()(s[i1], s[i2]));
        }
        assert forall|i: int| j <= i < s.len() implies lex_leq(x@, s[i]) by {
            if i > j {
                assert(lex_leq(s[j as int], s[i]));
                lemma_lex_trans(x@, s[j as int], s[i]);
            }
        }
    }
    out.insert(j, x);
    proof {
        let t = out.deep_view();
        assert(t.len() == s.len() + 1);
        assert(out@ == old(out)@.insert(j as int, x));
        old(out)@.insert_ensures(j as int, x);
        assert forall|i: int| 0 <= i < t.len() implies t[i] == (if i < j { s[i] } else if i == j { x@ } else { s[i - 1] }) by {
            assert(t[i] == out@[i]@);
            if i < j {
                assert(out@[i] == old(out)@[i]);
            } else if i > j {
                assert(out@[(i - 1) + 1] == old(out)@[i - 1]);
            }
        }
        assert forall|i1: int, i2: int| 0 <= i1 < i2 < s.len() implies lex_leq(s[i1], s[i2]) by {
            assert(lex_leq_fn()(s[i1], s[i2]));
        }
        assert forall|i1: int, i2: int| 0 <= i1 < i2 < t.len() implies lex_leq_fn()(t[i1], t[i2]) by {
            lemma_lex_refl(x@);
            assert(lex_leq(t[i1], t[i2]));
        }
        assert(sorted_by(t, lex_leq_fn()));
        assert(t =~= s.take(j as int) + seq![x@] + s.skip(j as int));
        lemma_multiset_commutative(s.take(j as int) + seq![x@], s.skip(j as int));
        lemma_multiset_commutative(s.take(j as int), seq![x@]);
        assert(seq![x@].to_multiset() =~= Multiset::<Seq<char>>::empty().insert(x@)) by {
            assert(seq![x@].drop_last() =~= Seq::<Seq<char>>::empty());
        }
        lemma_multiset_commutative(s.take(j as int), s.skip(j as int));
        assert(s.take(j as int) + s.skip(j as int) =~= s);
        assert(t.to_multiset() =~= s.to_multiset().insert(x@));
    }
}

} // verus!
