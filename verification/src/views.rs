//! Helper lemmas connecting deep views with ordinary views.

use vstd::prelude::*;

verus! {

/// The deep view of a vector of characters is its ordinary view.
pub broadcast proof fn lemma_vec_char_deep_view(v: Vec<char>)
    ensures
        #[trigger] v.deep_view() == v@,
{
    assert(v.deep_view() =~= v@);
}

/// The deep view of a vector of character vectors indexes elementwise.
pub broadcast proof fn lemma_vec_texts_deep_view(v: Vec<Vec<char>>, i: int)
    requires
        0 <= i < v@.len(),
    ensures
        #[trigger] v.deep_view()[i] == v@[i]@,
{
    assert(v@[i].deep_view() =~= v@[i]@);
}

/// The deep view of a vector indexes through the deep views of its elements.
pub broadcast proof fn lemma_vec_deep_view_index<T: DeepView>(v: Vec<T>, i: int)
    requires
        0 <= i < v@.len(),
    ensures
        #[trigger] v.deep_view()[i] == v@[i].deep_view(),
{
}

/// Taking one more element appends the element at that position.
pub proof fn lemma_take_step<T>(s: Seq<T>, i: int)
    requires
        0 <= i < s.len(),
    ensures
        s.take(i + 1).drop_last() == s.take(i),
        s.take(i + 1).last() == s[i],
{
    assert(s.take(i + 1).drop_last() =~= s.take(i));
}

/// Removing the front element drops the first element of the deep view.
pub proof fn lemma_deep_remove_front<T: DeepView>(a: Vec<T>, b: Vec<T>)
    requires
        a@.len() > 0,
        b@ == a@.remove(0),
    ensures
        b.deep_view() == a.deep_view().skip(1),
{
    assert(b@ =~= a@.subrange(1, a@.len() as int));
    assert forall|i: int| 0 <= i < b@.len() implies b.deep_view()[i] == a.deep_view()[i + 1] by {
        assert(b@[i] == a@[i + 1]);
        lemma_vec_deep_view_index(b, i);
        lemma_vec_deep_view_index(a, i + 1);
    }
    assert(b.deep_view() =~= a.deep_view().skip(1));
}

/// Distinct characters have distinct scalar values.
pub proof fn lemma_char_neq_u32(c: char, d: char)
    requires
        c != d,
    ensures
        (c as u32) != (d as u32),
{
    assert(0 <= (c as int) && (c as int) < 0x110000);
    assert(0 <= (d as int) && (d as int) < 0x110000);
    assert((c as int) != (d as int));
}

} // verus!
