//! Directives attached to declarations, and their partitioning into the
//! conditional-compilation, foreign-linkage and other classes.
//!
//! A directive has a name (the marker deciding its class) and a rendered text,
//! which is its identity: two directives are the same directive exactly when
//! their texts are equal.

use vstd::prelude::*;

verus! {

broadcast use {crate::views::lemma_vec_deep_view_index};

/// A single directive: its marker name and its full rendered text.
#[derive(Clone, PartialEq, Eq, Debug)]
pub struct Directive {
    pub name: String,
    pub text: String,
}

/// The mathematical value of a [`Directive`].
#[verifier::ext_equal]
pub struct DirectiveV {
    pub name: Seq<char>,
    pub text: Seq<char>,
}

impl View for Directive {
    type V = DirectiveV;

    open spec fn view(&self) -> DirectiveV {
        DirectiveV { name: self.name@, text: self.text@ }
    }
}

impl DeepView for Directive {
    type V = DirectiveV;

    open spec fn deep_view(&self) -> DirectiveV {
        self.view()
    }
}

/// The reserved marker of conditional-compilation directives.
pub open spec fn conditional_marker() -> Seq<char> {
    "cfg"@
}

/// The reserved marker of foreign-linkage directives.
pub open spec fn linkage_marker() -> Seq<char> {
    "link"@
}

/// Whether a directive is a conditional-compilation directive.
pub open spec fn is_conditional(d: DirectiveV) -> bool {
    d.name == conditional_marker()
}

/// Whether a directive is a foreign-linkage directive.
pub open spec fn is_linkage(d: DirectiveV) -> bool {
    !is_conditional(d) && d.name == linkage_marker()
}

/// Whether a directive belongs to neither reserved class.
pub open spec fn is_other(d: DirectiveV) -> bool {
    !is_conditional(d) && !is_linkage(d)
}

/// A directive list split into the three classes, each deduplicated by text.
#[derive(Clone, PartialEq, Eq, Debug)]
pub struct DirectiveSet {
    pub conditional: Vec<Directive>,
    pub linkage: Vec<Directive>,
    pub other: Vec<Directive>,
}

/// The mathematical value of a [`DirectiveSet`].
#[verifier::ext_equal]
pub struct DirectiveSetV {
    pub conditional: Seq<DirectiveV>,
    pub linkage: Seq<DirectiveV>,
    pub other: Seq<DirectiveV>,
}

impl View for DirectiveSet {
    type V = DirectiveSetV;

    open spec fn view(&self) -> DirectiveSetV {
        DirectiveSetV {
            conditional: self.conditional.deep_view(),
            linkage: self.linkage.deep_view(),
            other: self.other.deep_view(),
        }
    }
}

impl DeepView for DirectiveSet {
    type V = DirectiveSetV;

    open spec fn deep_view(&self) -> DirectiveSetV {
        self.view()
    }
}

/// The texts of the directives of `s`, in order.
pub open spec fn texts_of(s: Seq<DirectiveV>) -> Seq<Seq<char>> {
    s.map_values(|d: DirectiveV| d.text)
}

/// Whether some directive of `s` has text `t`.
pub open spec fn has_text(s: Seq<DirectiveV>, t: Seq<char>) -> bool {
    exists|i: int| 0 <= i < s.len() && s[i].text == t
}

/// Appends `d` unless a directive with the same text is already present.
pub open spec fn push_unique(s: Seq<DirectiveV>, d: DirectiveV) -> Seq<DirectiveV> {
    if has_text(s, d.text) {
        s
    } else {
        s.push(d)
    }
}

/// The empty directive set.
pub open spec fn empty_set() -> DirectiveSetV {
    DirectiveSetV { conditional: Seq::empty(), linkage: Seq::empty(), other: Seq::empty() }
}

/// Classifies one directive into `s`, deduplicating by text within its class.
pub open spec fn set_insert(s: DirectiveSetV, d: DirectiveV) -> DirectiveSetV {
    if is_conditional(d) {
        DirectiveSetV { conditional: push_unique(s.conditional, d), ..s }
    } else if is_linkage(d) {
        DirectiveSetV { linkage: push_unique(s.linkage, d), ..s }
    } else {
        DirectiveSetV { other: push_unique(s.other, d), ..s }
    }
}

/// Classifies every directive of `ds` into `s`, in order.
pub open spec fn partition_from(s: DirectiveSetV, ds: Seq<DirectiveV>) -> DirectiveSetV
    decreases ds.len(),
{
    if ds.len() == 0 {
        s
    } else {
        set_insert(partition_from(s, ds.drop_last()), ds.last())
    }
}

/// The three-way classification of a directive list.
pub open spec fn partition_spec(ds: Seq<DirectiveV>) -> DirectiveSetV {
    partition_from(empty_set(), ds)
}

/// Appends the members of `b` to `a`, skipping texts already present.
pub open spec fn extend_unique(a: Seq<DirectiveV>, b: Seq<DirectiveV>) -> Seq<DirectiveV>
    decreases b.len(),
{
    if b.len() == 0 {
        a
    } else {
        push_unique(extend_unique(a, b.drop_last()), b.last())
    }
}

/// The classwise union of two directive sets, deduplicated by text.
pub open spec fn union_spec(a: DirectiveSetV, b: DirectiveSetV) -> DirectiveSetV {
    DirectiveSetV {
        conditional: extend_unique(a.conditional, b.conditional),
        linkage: extend_unique(a.linkage, b.linkage),
        other: extend_unique(a.other, b.other),
    }
}

/// An exact copy of a directive.
pub fn copy_directive(d: &Directive) -> (r: Directive)
    ensures
        r@ == d@,
{
    Directive { name: d.name.clone(), text: d.text.clone() }
}

/// An exact copy of a directive list.
pub fn copy_directives(v: &Vec<Directive>) -> (r: Vec<Directive>)
    ensures
        r.deep_view() == v.deep_view(),
{
    let mut r: Vec<Directive> = Vec::new();
    let mut i: usize = 0;
    while i < v.len()
        invariant
            i <= v@.len(),
            r.deep_view() == v.deep_view().take(i as int),
        decreases v@.len() - i,
    {
        let ghost pre = r.deep_view();
        r.push(copy_directive(&v[i]));
        proof {
            assert(r.deep_view() =~= pre.push(v@[i as int]@));
            crate::views::lemma_take_step(v.deep_view(), i as int);
            assert(v.deep_view().take(i + 1) =~= v.deep_view().take(i as int).push(v.deep_view()[i as int]));
        }
        i += 1;
    }
    proof {
        assert(v.deep_view().take(v@.len() as int) =~= v.deep_view());
    }
    r
}

/// Whether some directive of `v` has text `t`.
pub fn has_text_vec(v: &Vec<Directive>, t: &String) -> (r: bool)
    ensures
        r == has_text(v.deep_view(), t@),
{
    let mut i: usize = 0;
    while i < v.len()
        invariant
            i <= v@.len(),
            forall|j: int| 0 <= j < i ==> v.deep_view()[j].text != t@,
        decreases v@.len() - i,
    {
        if v[i].text == *t {
            assert(v.deep_view()[i as int].text == t@);
            return true;
        }
        i += 1;
    }
    false
}

/// Appends `d` to `v` unless its text is already present.
pub fn push_unique_vec(v: &mut Vec<Directive>, d: Directive)
    ensures
        final(v).deep_view() == push_unique(old(v).deep_view(), d@),
{
    if !has_text_vec(v, &d.text) {
        let ghost pre = v.deep_view();
        v.push(d);
        proof {
            assert(v.deep_view() =~= pre.push(v@.last()@));
        }
    }
}

/// Classifies one directive into `set`.
pub fn insert_directive(set: &mut DirectiveSet, d: Directive)
    ensures
        final(set)@ == set_insert(old(set)@, d@),
{
    let cfg: String = "cfg".to_owned();
    let link: String = "link".to_owned();
    if d.name == cfg {
        push_unique_vec(&mut set.conditional, d);
        assert(set@ =~= set_insert(old(set)@, d@));
    } else if d.name == link {
        push_unique_vec(&mut set.linkage, d);
        assert(set@ =~= set_insert(old(set)@, d@));
    } else {
        push_unique_vec(&mut set.other, d);
        assert(set@ =~= set_insert(old(set)@, d@));
    }
}

/// Classifies every directive of `dirs` into `set`, in order.
pub fn partition_into(set: &mut DirectiveSet, dirs: &Vec<Directive>)
    ensures
        final(set)@ == partition_from(old(set)@, dirs.deep_view()),
{
    let mut i: usize = 0;
    while i < dirs.len()
        invariant
            i <= dirs@.len(),
            set@ == partition_from(old(set)@, dirs.deep_view().take(i as int)),
        decreases dirs@.len() - i,
    {
        insert_directive(set, copy_directive(&dirs[i]));
        proof {
            crate::views::lemma_take_step(dirs.deep_view(), i as int);
            assert(dirs.deep_view().take(i + 1).drop_last() == dirs.deep_view().take(i as int));
        }
        i += 1;
    }
    proof {
        assert(dirs.deep_view().take(dirs@.len() as int) =~= dirs.deep_view());
    }
}

/// The three-way classification of a directive list.
pub fn partition_directives(dirs: &Vec<Directive>) -> (r: DirectiveSet)
    ensures
        r@ == partition_spec(dirs.deep_view()),
{
    let mut r = DirectiveSet { conditional: Vec::new(), linkage: Vec::new(), other: Vec::new() };
    proof {
        assert(r@ =~= empty_set());
    }
    partition_into(&mut r, dirs);
    r
}

/// Extends `dst` with the members of `src`, skipping texts already present.
fn absorb_vec(dst: &mut Vec<Directive>, src: &Vec<Directive>)
    ensures
        final(dst).deep_view() == extend_unique(old(dst).deep_view(), src.deep_view()),
{
    let mut i: usize = 0;
    while i < src.len()
        invariant
            i <= src@.len(),
            dst.deep_view() == extend_unique(old(dst).deep_view(), src.deep_view().take(i as int)),
        decreases src@.len() - i,
    {
        push_unique_vec(dst, copy_directive(&src[i]));
        proof {
            crate::views::lemma_take_step(src.deep_view(), i as int);
        }
        i += 1;
    }
    proof {
        assert(src.deep_view().take(src@.len() as int) =~= src.deep_view());
    }
}

/// Unions `src` into `dst`, classwise, deduplicating by text.
pub fn absorb_set(dst: &mut DirectiveSet, src: &DirectiveSet)
    ensures
        final(dst)@ == union_spec(old(dst)@, src@),
{
    absorb_vec(&mut dst.conditional, &src.conditional);
    absorb_vec(&mut dst.linkage, &src.linkage);
    absorb_vec(&mut dst.other, &src.other);
    assert(dst@ =~= union_spec(old(dst)@, src@));
}

} // verus!
