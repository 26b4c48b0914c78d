//! The grouping pass: one forward traversal buckets declarations by the key
//! derived from their conditional and linkage directives, strips those
//! directives from the declarations, and re-emits each bucket as a gated
//! synthesized namespace followed by a gated wildcard re-export.

use vstd::prelude::*;
use crate::decl::{Decl, DeclV, ForeignDecl, ForeignDeclV, GroupMember, GroupMemberV};
use crate::directive::{
    DirectiveSet, DirectiveSetV, DirectiveV, copy_directives, empty_set, absorb_set,
    partition_directives, partition_from, partition_into, partition_spec, union_spec,
};
use crate::key::{derive_group_key, key_of};

verus! {

broadcast use {crate::views::lemma_vec_deep_view_index};

/// One group under construction: its key, its accumulated directive set and
/// its members in order of first encounter.
pub struct Bucket {
    pub key: String,
    pub set: DirectiveSet,
    pub members: Vec<GroupMember>,
}

/// The mathematical value of a [`Bucket`].
#[verifier::ext_equal]
pub struct BucketV {
    pub key: Seq<char>,
    pub set: DirectiveSetV,
    pub members: Seq<GroupMemberV>,
}

impl View for Bucket {
    type V = BucketV;

    open spec fn view(&self) -> BucketV {
        BucketV { key: self.key@, set: self.set@, members: self.members.deep_view() }
    }
}

impl DeepView for Bucket {
    type V = BucketV;

    open spec fn deep_view(&self) -> BucketV {
        self.view()
    }
}

/// The state of the forward pass: the passthrough output so far and the
/// buckets in order of first encounter.
#[verifier::ext_equal]
pub struct ScanStateV {
    pub pass: Seq<DeclV>,
    pub buckets: Seq<BucketV>,
}

/// The initial state of the pass.
pub open spec fn empty_state() -> ScanStateV {
    ScanStateV { pass: Seq::empty(), buckets: Seq::empty() }
}

/// The index of the bucket with the given key, or `-1` if there is none.
pub open spec fn find_bucket(bs: Seq<BucketV>, key: Seq<char>) -> int
    decreases bs.len(),
{
    if bs.len() == 0 {
        -1
    } else if bs.first().key == key {
        0
    } else {
        let r = find_bucket(bs.drop_first(), key);
        if r == -1 {
            -1
        } else {
            r + 1
        }
    }
}

/// `find_bucket` returns the first index holding the key, or `-1` exactly
/// when no bucket holds it.
pub proof fn lemma_find_bucket(bs: Seq<BucketV>, key: Seq<char>)
    ensures
        -1 <= find_bucket(bs, key) < bs.len(),
        find_bucket(bs, key) == -1 ==> forall|j: int| 0 <= j < bs.len() ==> bs[j].key != key,
        find_bucket(bs, key) >= 0 ==> bs[find_bucket(bs, key)].key == key,
        find_bucket(bs, key) >= 0 ==> forall|j: int| 0 <= j < find_bucket(bs, key) ==> bs[j].key != key,
    decreases bs.len(),
{
    if bs.len() > 0 && bs.first().key != key {
        lemma_find_bucket(bs.drop_first(), key);
        let r = find_bucket(bs.drop_first(), key);
        assert forall|j: int| 1 <= j < bs.len() implies bs[j] == bs.drop_first()[j - 1] by {}
        if r == -1 {
            assert forall|j: int| 0 <= j < bs.len() implies bs[j].key != key by {
                if j > 0 {
                    assert(bs.drop_first()[j - 1].key != key);
                }
            }
        }
    }
}

/// Adds a member with its directive set to the bucket of the given key,
/// creating the bucket at the end on first encounter and unioning the set
/// into an existing bucket otherwise.
pub open spec fn bucket_add(bs: Seq<BucketV>, key: Seq<char>, set: DirectiveSetV, m: GroupMemberV) -> Seq<
    BucketV,
> {
    let i = find_bucket(bs, key);
    if i == -1 {
        bs.push(BucketV { key, set, members: seq![m] })
    } else {
        bs.update(
            i,
            BucketV { key: bs[i].key, set: union_spec(bs[i].set, set), members: bs[i].members.push(m) },
        )
    }
}

/// One step of the pass for a nested foreign declaration: its effective
/// directive set is the classification of the block's directives followed by
/// its own; the declaration keeps only its own other-class directives. With
/// an empty conditional and linkage union it is re-wrapped as a one-member
/// foreign block keeping the block's other-class directives; otherwise it
/// joins the bucket of the effective set's key.
pub open spec fn step_foreign(st: ScanStateV, block_dirs: Seq<DirectiveV>, m: ForeignDeclV) -> ScanStateV {
    let eff = partition_spec(block_dirs + m.directives);
    let own = partition_spec(m.directives);
    let stripped = ForeignDeclV { directives: own.other, payload: m.payload };
    if eff.conditional.len() == 0 && eff.linkage.len() == 0 {
        let blk = partition_spec(block_dirs);
        ScanStateV {
            pass: st.pass.push(DeclV::ForeignBlock { directives: blk.other, members: seq![stripped] }),
            ..st
        }
    } else {
        ScanStateV {
            buckets: bucket_add(st.buckets, key_of(eff), eff, GroupMemberV::Foreign { decl: stripped }),
            ..st
        }
    }
}

/// The pass over the nested declarations of one foreign block, in order.
pub open spec fn scan_foreign(st: ScanStateV, block_dirs: Seq<DirectiveV>, ms: Seq<ForeignDeclV>) -> ScanStateV
    decreases ms.len(),
{
    if ms.len() == 0 {
        st
    } else {
        step_foreign(scan_foreign(st, block_dirs, ms.drop_last()), block_dirs, ms.last())
    }
}

/// One step of the pass for one top-level declaration. An ordinary
/// declaration with an empty conditional and linkage union passes through
/// unchanged; otherwise it is stripped to its other-class directives and
/// joins the bucket of its key. A foreign block is dissolved into its nested
/// declarations. Everything else passes through unchanged.
pub open spec fn step_decl(st: ScanStateV, d: DeclV) -> ScanStateV {
    match d {
        DeclV::Regular { kind, directives, payload } => {
            let p = partition_spec(directives);
            if p.conditional.len() == 0 && p.linkage.len() == 0 {
                ScanStateV { pass: st.pass.push(d), ..st }
            } else {
                let m = GroupMemberV::Regular { kind, directives: p.other, payload };
                ScanStateV { buckets: bucket_add(st.buckets, key_of(p), p, m), ..st }
            }
        },
        DeclV::ForeignBlock { directives, members } => scan_foreign(st, directives, members),
        _ => ScanStateV { pass: st.pass.push(d), ..st },
    }
}

/// The pass over a declaration list, in order.
pub open spec fn scan_decls(st: ScanStateV, ds: Seq<DeclV>) -> ScanStateV
    decreases ds.len(),
{
    if ds.len() == 0 {
        st
    } else {
        step_decl(scan_decls(st, ds.drop_last()), ds.last())
    }
}

/// What one finished bucket becomes: a synthesized namespace named by the
/// key, gated by the bucket's conditional directives and carrying its
/// linkage directives, followed by the gated wildcard re-export.
pub open spec fn emit_bucket(b: BucketV) -> Seq<DeclV> {
    seq![
        DeclV::SyntheticNamespace {
            name: b.key,
            conditionals: b.set.conditional,
            linkages: b.set.linkage,
            members: b.members,
        },
        DeclV::WildcardReexport { name: b.key, conditionals: b.set.conditional },
    ]
}

/// The synthesized declarations of all buckets, in first-encounter order.
pub open spec fn emit_buckets(bs: Seq<BucketV>) -> Seq<DeclV>
    decreases bs.len(),
{
    if bs.len() == 0 {
        Seq::empty()
    } else {
        emit_buckets(bs.drop_last()) + emit_bucket(bs.last())
    }
}

/// The whole grouping pass: the passthrough declarations in their original
/// relative order, then the synthesized namespaces.
pub open spec fn grouped(ds: Seq<DeclV>) -> Seq<DeclV> {
    let st = scan_decls(empty_state(), ds);
    st.pass + emit_buckets(st.buckets)
}

/// Classifying a concatenation classifies the first part, then the second.
pub proof fn lemma_partition_append(s: DirectiveSetV, a: Seq<DirectiveV>, b: Seq<DirectiveV>)
    ensures
        partition_from(s, a + b) == partition_from(partition_from(s, a), b),
    decreases b.len(),
{
    if b.len() == 0 {
        assert(a + b =~= a);
    } else {
        assert((a + b).drop_last() =~= a + b.drop_last());
        assert((a + b).last() == b.last());
        lemma_partition_append(s, a, b.drop_last());
    }
}

/// The index of the bucket with the given key, if any.
fn find_bucket_exec(buckets: &Vec<Bucket>, key: &String) -> (r: Option<usize>)
    ensures
        match r {
            Some(i) => i < buckets@.len() && find_bucket(buckets.deep_view(), key@) == i,
            None => find_bucket(buckets.deep_view(), key@) == -1,
        },
{
    proof {
        lemma_find_bucket(buckets.deep_view(), key@);
    }
    let mut i: usize = 0;
    while i < buckets.len()
        invariant
            i <= buckets@.len(),
            forall|j: int| 0 <= j < i ==> buckets.deep_view()[j].key != key@,
            find_bucket(buckets.deep_view(), key@) == -1 || find_bucket(buckets.deep_view(), key@)
                >= i || find_bucket(buckets.deep_view(), key@) < i && false,
        decreases buckets@.len() - i,
    {
        proof {
            lemma_find_bucket(buckets.deep_view(), key@);
        }
        if buckets[i].key == *key {
            proof {
                let f = find_bucket(buckets.deep_view(), key@);
                assert(buckets.deep_view()[i as int].key == key@);
                assert(f != -1);
                assert(f >= 0 && buckets.deep_view()[f].key == key@);
                assert(f >= i);
                if f > i {
                    assert(buckets.deep_view()[i as int].key != key@);
                }
            }
            return Some(i);
        }
        proof {
            let f = find_bucket(buckets.deep_view(), key@);
            assert(buckets.deep_view()[i as int].key != key@);
        }
        i += 1;
    }
    proof {
        lemma_find_bucket(buckets.deep_view(), key@);
        let f = find_bucket(buckets.deep_view(), key@);
        if f >= 0 {
            assert(buckets.deep_view()[f].key != key@);
            assert(false);
        }
    }
    None
}

/// Adds one member with its directive set under the given key.
fn bucket_add_exec(buckets: &mut Vec<Bucket>, key: String, set: DirectiveSet, m: GroupMember)
    ensures
        final(buckets).deep_view() == bucket_add(old(buckets).deep_view(), key@, set@, m@),
{
    let ghost bs = old(buckets).deep_view();
    match find_bucket_exec(buckets, &key) {
        Some(i) => {
            let mut b = buckets.remove(i);
            absorb_set(&mut b.set, &set);
            b.members.push(m);
            proof {
                assert(b.members.deep_view() =~= bs[i as int].members.push(m@));
            }
            buckets.insert(i, b);
            proof {
                let target = BucketV {
                    key: bs[i as int].key,
                    set: union_spec(bs[i as int].set, set@),
                    members: bs[i as int].members.push(m@),
                };
                assert(b@ =~= target);
                assert(buckets@ == old(buckets)@.remove(i as int).insert(i as int, b));
                old(buckets)@.remove(i as int).insert_ensures(i as int, b);
                assert forall|j: int| 0 <= j < buckets@.len() implies buckets@[j] == (if j == i {
                    b
                } else {
                    old(buckets)@[j]
                }) by {
                    if j < i {
                        assert(old(buckets)@.remove(i as int)[j] == old(buckets)@[j]);
                    } else if j > i {
                        assert(old(buckets)@.remove(i as int)[j - 1] == old(buckets)@[j]);
                    }
                }
                assert(buckets.deep_view() =~= bs.update(i as int, target));
            }
        },
        None => {
            let mut members: Vec<GroupMember> = Vec::new();
            members.push(m);
            let b = Bucket { key, set, members };
            proof {
                assert(b@.members =~= seq![m@]);
            }
            buckets.push(b);
            proof {
                assert(buckets.deep_view() =~= bs.push(
                    BucketV { key: b@.key, set: b@.set, members: seq![m@] },
                ));
                assert(BucketV { key: b@.key, set: b@.set, members: seq![m@] } =~= BucketV {
                    key: b@.key,
                    set: b@.set,
                    members: seq![m@],
                });
            }
        },
    }
}


/// Appends the synthesized declarations of every bucket to `pass`.
fn emit_buckets_exec(pass: &mut Vec<Decl>, buckets: Vec<Bucket>)
    ensures
        final(pass).deep_view() == old(pass).deep_view() + emit_buckets(buckets.deep_view()),
{
    let ghost bview = buckets.deep_view();
    let n = buckets.len();
    let mut buckets = buckets;
    let mut k: usize = 0;
    proof {
        assert(buckets.deep_view() =~= bview.skip(0));
        assert(pass.deep_view() =~= old(pass).deep_view() + emit_buckets(bview.take(0)));
    }
    while buckets.len() > 0
        invariant
            k <= n,
            n == bview.len(),
            k + buckets@.len() == n,
            buckets.deep_view() =~= bview.skip(k as int),
            pass.deep_view() == old(pass).deep_view() + emit_buckets(bview.take(k as int)),
        decreases buckets@.len(),
    {
        let ghost prevec = buckets;
        let b = buckets.remove(0);
        proof {
            crate::views::lemma_deep_remove_front(prevec, buckets);
            assert(b@ == prevec.deep_view()[0]);
            assert(bview.skip(k as int)[0] == bview[k as int]);
            assert(b@ == bview[k as int]);
            assert(bview.skip(k as int).skip(1) =~= bview.skip(k as int + 1));
        }
        let Bucket { key, set, members } = b;
        let DirectiveSet { conditional, linkage, other: _spares } = set;
        let name_again = key.clone();
        let cond_again = copy_directives(&conditional);
        let ghost prepass = pass.deep_view();
        pass.push(
            Decl::SyntheticNamespace { name: key, conditionals: conditional, linkages: linkage, members },
        );
        pass.push(Decl::WildcardReexport { name: name_again, conditionals: cond_again });
        proof {
            crate::views::lemma_take_step(bview, k as int);
            assert(emit_buckets(bview.take(k as int + 1)) == emit_buckets(bview.take(k as int))
                + emit_bucket(bview[k as int]));
            assert(pass.deep_view() =~= prepass + emit_bucket(bview[k as int]));
        }
        k += 1;
    }
    proof {
        assert(bview.take(bview.len() as int) =~= bview);
    }
}

/// Groups a declaration list. Declarations whose conditional and linkage
/// classes are both empty pass through unchanged in their original relative
/// order; every other declaration is stripped of those two classes and
/// gathered, in first-encounter order, into one synthesized namespace per
/// derived key, each namespace followed by its gated wildcard re-export.
/// Nested declarations of a foreign block are redistributed individually by
/// the union of the block's directives and their own.
pub fn merge_cfg_attributes(decls: Vec<Decl>) -> (r: Vec<Decl>)
    ensures
        r.deep_view() == grouped(decls.deep_view()),
{
    let ghost orig = decls.deep_view();
    let n = decls.len();
    let mut decls = decls;
    let mut pass: Vec<Decl> = Vec::new();
    let mut buckets: Vec<Bucket> = Vec::new();
    let mut k: usize = 0;
    proof {
        assert(decls.deep_view() =~= orig.skip(0));
        assert(orig.take(0) =~= Seq::<DeclV>::empty());
        assert(pass.deep_view() =~= scan_decls(empty_state(), orig.take(0)).pass);
        assert(buckets.deep_view() =~= scan_decls(empty_state(), orig.take(0)).buckets);
    }
    while decls.len() > 0
        invariant
            k <= n,
            n == orig.len(),
            k + decls@.len() == n,
            decls.deep_view() =~= orig.skip(k as int),
            pass.deep_view() == scan_decls(empty_state(), orig.take(k as int)).pass,
            buckets.deep_view() == scan_decls(empty_state(), orig.take(k as int)).buckets,
        decreases decls@.len(),
    {
        let ghost prevec = decls;
        let ghost st_pre = scan_decls(empty_state(), orig.take(k as int));
        let d = decls.remove(0);
        proof {
            crate::views::lemma_deep_remove_front(prevec, decls);
            assert(d@ == prevec.deep_view()[0]);
            assert(orig.skip(k as int)[0] == orig[k as int]);
            assert(d@ == orig[k as int]);
            assert(orig.skip(k as int).skip(1) =~= orig.skip(k as int + 1));
        }
        match d {
            Decl::Regular { kind, directives, payload } => {
                let p = partition_directives(&directives);
                if p.conditional.len() == 0 && p.linkage.len() == 0 {
                    let ghost prepass = pass.deep_view();
                    pass.push(Decl::Regular { kind, directives, payload });
                    proof {
                        assert(pass.deep_view() =~= prepass.push(orig[k as int]));
                        assert(pass.deep_view() == step_decl(st_pre, orig[k as int]).pass);
                        assert(buckets.deep_view() == step_decl(st_pre, orig[k as int]).buckets);
                    }
                } else {
                    let member_dirs = copy_directives(&p.other);
                    let key = derive_group_key(&p);
                    let ghost pv = p@;
                    let m = GroupMember::Regular { kind, directives: member_dirs, payload };
                    proof {
                        assert(m@ =~= GroupMemberV::Regular {
                            kind,
                            directives: pv.other,
                            payload: payload@,
                        });
                    }
                    bucket_add_exec(&mut buckets, key, p, m);
                    proof {
                        assert(pass.deep_view() == step_decl(st_pre, orig[k as int]).pass);
                        assert(buckets.deep_view() == step_decl(st_pre, orig[k as int]).buckets);
                    }
                }
            },
            Decl::ForeignBlock { directives: block_dirs, members } => {
                let ghost bdv = block_dirs.deep_view();
                let ghost mview = members.deep_view();
                let mn = members.len();
                let mut members = members;
                let mut j: usize = 0;
                proof {
                    assert(members.deep_view() =~= mview.skip(0));
                    assert(scan_foreign(st_pre, bdv, mview.take(0)) == st_pre);
                }
                while members.len() > 0
                    invariant
                        j <= mn,
                        mn == mview.len(),
                        j + members@.len() == mn,
                        members.deep_view() =~= mview.skip(j as int),
                        block_dirs.deep_view() == bdv,
                        pass.deep_view() == scan_foreign(st_pre, bdv, mview.take(j as int)).pass,
                        buckets.deep_view() == scan_foreign(st_pre, bdv, mview.take(j as int)).buckets,
                    decreases members@.len(),
                {
                    let ghost mprevec = members;
                    let ghost stf = scan_foreign(st_pre, bdv, mview.take(j as int));
                    let m = members.remove(0);
                    proof {
                        crate::views::lemma_deep_remove_front(mprevec, members);
                        assert(m@ == mprevec.deep_view()[0]);
                        assert(mview.skip(j as int)[0] == mview[j as int]);
                        assert(m@ == mview[j as int]);
                        assert(mview.skip(j as int).skip(1) =~= mview.skip(j as int + 1));
                    }
                    let ForeignDecl { directives: m_dirs, payload: m_payload } = m;
                    let mut eff = partition_directives(&block_dirs);
                    partition_into(&mut eff, &m_dirs);
                    proof {
                        lemma_partition_append(empty_set(), bdv, mview[j as int].directives);
                        assert(eff@ == partition_spec(bdv + mview[j as int].directives));
                    }
                    let own = partition_directives(&m_dirs);
                    let own_other = copy_directives(&own.other);
                    let stripped = ForeignDecl { directives: own_other, payload: m_payload };
                    let ghost strippedv = ForeignDeclV {
                        directives: partition_spec(mview[j as int].directives).other,
                        payload: mview[j as int].payload,
                    };
                    proof {
                        assert(stripped@ =~= strippedv);
                    }
                    if eff.conditional.len() == 0 && eff.linkage.len() == 0 {
                        let blk = partition_directives(&block_dirs);
                        let blk_other = copy_directives(&blk.other);
                        let mut ms: Vec<ForeignDecl> = Vec::new();
                        ms.push(stripped);
                        proof {
                            assert(ms.deep_view() =~= seq![strippedv]);
                        }
                        let ghost prepass = pass.deep_view();
                        pass.push(Decl::ForeignBlock { directives: blk_other, members: ms });
                        proof {
                            assert(pass.deep_view() =~= prepass.push(
                                DeclV::ForeignBlock {
                                    directives: partition_spec(bdv).other,
                                    members: seq![strippedv],
                                },
                            ));
                            assert(pass.deep_view() == step_foreign(stf, bdv, mview[j as int]).pass);
                            assert(buckets.deep_view() == step_foreign(stf, bdv, mview[j as int]).buckets);
                        }
                    } else {
                        let key = derive_group_key(&eff);
                        let ghost effv = eff@;
                        let gm = GroupMember::Foreign { decl: stripped };
                        proof {
                            assert(gm@ =~= GroupMemberV::Foreign { decl: strippedv });
                        }
                        bucket_add_exec(&mut buckets, key, eff, gm);
                        proof {
                            assert(pass.deep_view() == step_foreign(stf, bdv, mview[j as int]).pass);
                            assert(buckets.deep_view() == step_foreign(stf, bdv, mview[j as int]).buckets);
                        }
                    }
                    proof {
                        crate::views::lemma_take_step(mview, j as int);
                        assert(scan_foreign(st_pre, bdv, mview.take(j as int + 1)) == step_foreign(
                            stf,
                            bdv,
                            mview[j as int],
                        ));
                    }
                    j += 1;
                }
                proof {
                    assert(mview.take(mview.len() as int) =~= mview);
                    assert(orig[k as int] == DeclV::ForeignBlock { directives: bdv, members: mview });
                    assert(step_decl(st_pre, orig[k as int]) == scan_foreign(st_pre, bdv, mview));
                    assert(pass.deep_view() == step_decl(st_pre, orig[k as int]).pass);
                    assert(buckets.deep_view() == step_decl(st_pre, orig[k as int]).buckets);
                }
            },
            Decl::Opaque { payload } => {
                let ghost prepass = pass.deep_view();
                pass.push(Decl::Opaque { payload });
                proof {
                    assert(pass.deep_view() =~= prepass.push(orig[k as int]));
                    assert(pass.deep_view() == step_decl(st_pre, orig[k as int]).pass);
                    assert(buckets.deep_view() == step_decl(st_pre, orig[k as int]).buckets);
                }
            },
            Decl::SyntheticNamespace { name, conditionals, linkages, members } => {
                let ghost prepass = pass.deep_view();
                pass.push(Decl::SyntheticNamespace { name, conditionals, linkages, members });
                proof {
                    assert(pass.deep_view() =~= prepass.push(orig[k as int]));
                    assert(pass.deep_view() == step_decl(st_pre, orig[k as int]).pass);
                    assert(buckets.deep_view() == step_decl(st_pre, orig[k as int]).buckets);
                }
            },
            Decl::WildcardReexport { name, conditionals } => {
                let ghost prepass = pass.deep_view();
                pass.push(Decl::WildcardReexport { name, conditionals });
                proof {
                    assert(pass.deep_view() =~= prepass.push(orig[k as int]));
                    assert(pass.deep_view() == step_decl(st_pre, orig[k as int]).pass);
                    assert(buckets.deep_view() == step_decl(st_pre, orig[k as int]).buckets);
                }
            },
        }
        proof {
            crate::views::lemma_take_step(orig, k as int);
            assert(scan_decls(empty_state(), orig.take(k as int + 1)) == step_decl(st_pre, orig[k as int]));
        }
        k += 1;
    }
    proof {
        assert(orig.take(orig.len() as int) =~= orig);
    }
    emit_buckets_exec(&mut pass, buckets);
    pass
}

} // verus!
