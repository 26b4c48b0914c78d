//! Laws of the grouping pass: passthrough invariance, idempotence, and the
//! determinism and uniqueness facts behind grouping correctness.

use vstd::prelude::*;
use crate::decl::DeclV;
use crate::directive::{
    DirectiveSetV, DirectiveV, extend_unique, has_text, is_conditional, is_linkage, is_other,
    partition_from, partition_spec, texts_of, union_spec,
};
use crate::group::{
    BucketV, ScanStateV, bucket_add, emit_bucket, emit_buckets, empty_state, find_bucket, grouped,
    lemma_find_bucket, scan_decls, scan_foreign, step_decl, step_foreign,
};
use crate::key::{key_of, lemma_key_order_invariant};

verus! {

/// A declaration the pass hands through unchanged: anything but a foreign
/// block whose conditional and linkage classes are both empty.
pub open spec fn plain(d: DeclV) -> bool {
    match d {
        DeclV::Regular { directives, .. } => {
            let p = partition_spec(directives);
            p.conditional.len() == 0 && p.linkage.len() == 0
        },
        DeclV::ForeignBlock { .. } => false,
        _ => true,
    }
}

/// `plain` as a predicate value.
pub open spec fn plain_fn() -> spec_fn(DeclV) -> bool {
    |d: DeclV| plain(d)
}

/// Whether a declaration is not a foreign block.
pub open spec fn not_foreign(d: DeclV) -> bool {
    !(d is ForeignBlock)
}

/// `not_foreign` as a predicate value.
pub open spec fn not_foreign_fn() -> spec_fn(DeclV) -> bool {
    |d: DeclV| not_foreign(d)
}

/// The pass over a foreign block's members adds only foreign blocks to the
/// passthrough output and never touches what was already there.
proof fn lemma_foreign_pass_filter(st: ScanStateV, bd: Seq<DirectiveV>, ms: Seq<crate::decl::ForeignDeclV>)
    ensures
        scan_foreign(st, bd, ms).pass.filter(not_foreign_fn()) == st.pass.filter(not_foreign_fn()),
    decreases ms.len(),
{
    reveal(Seq::filter);
    if ms.len() > 0 {
        lemma_foreign_pass_filter(st, bd, ms.drop_last());
        let prev = scan_foreign(st, bd, ms.drop_last());
        let next = step_foreign(prev, bd, ms.last());
        if next.pass != prev.pass {
            let pushed = next.pass.last();
            assert(next.pass.drop_last() =~= prev.pass);
            assert(!not_foreign_fn()(pushed));
        }
    }
}

/// Passthrough invariance over any input: among the declarations the pass
/// hands through, those that are not foreign blocks are exactly the plain
/// declarations of the input, content untouched, relative order kept.
pub proof fn lemma_passthrough_invariance(ds: Seq<DeclV>)
    ensures
        scan_decls(empty_state(), ds).pass.filter(not_foreign_fn()) == ds.filter(plain_fn()),
{
    lemma_pass_filter(empty_state(), ds);
    reveal(Seq::filter);
    assert(empty_state().pass.filter(not_foreign_fn()) =~= Seq::<DeclV>::empty());
    assert(Seq::<DeclV>::empty() + ds.filter(plain_fn()) =~= ds.filter(plain_fn()));
}

/// The generalized induction behind [`lemma_passthrough_invariance`].
proof fn lemma_pass_filter(st: ScanStateV, ds: Seq<DeclV>)
    ensures
        scan_decls(st, ds).pass.filter(not_foreign_fn()) == st.pass.filter(not_foreign_fn()) + ds.filter(
            plain_fn(),
        ),
    decreases ds.len(),
{
    reveal(Seq::filter);
    if ds.len() == 0 {
        assert(st.pass.filter(not_foreign_fn()) + ds.filter(plain_fn()) =~= st.pass.filter(
            not_foreign_fn(),
        ));
    } else {
        lemma_pass_filter(st, ds.drop_last());
        let prev = scan_decls(st, ds.drop_last());
        let d = ds.last();
        let next = step_decl(prev, d);
        assert(ds.filter(plain_fn()) == if plain_fn()(d) {
            ds.drop_last().filter(plain_fn()).push(d)
        } else {
            ds.drop_last().filter(plain_fn())
        });
        match d {
            DeclV::Regular { directives, .. } => {
                let p = partition_spec(directives);
                if p.conditional.len() == 0 && p.linkage.len() == 0 {
                    assert(next.pass.drop_last() =~= prev.pass);
                    assert(next.pass.filter(not_foreign_fn()) == prev.pass.filter(not_foreign_fn()).push(d));
                    assert(prev.pass.filter(not_foreign_fn()).push(d) =~= st.pass.filter(not_foreign_fn())
                        + ds.filter(plain_fn()));
                } else {
                    assert(!plain(d));
                    assert(next.pass == prev.pass);
                }
            },
            DeclV::ForeignBlock { directives, members } => {
                lemma_foreign_pass_filter(prev, directives, members);
                assert(!plain(d));
            },
            _ => {
                assert(plain(d));
                assert(next.pass.drop_last() =~= prev.pass);
                assert(next.pass.filter(not_foreign_fn()) == prev.pass.filter(not_foreign_fn()).push(d));
                assert(prev.pass.filter(not_foreign_fn()).push(d) =~= st.pass.filter(not_foreign_fn())
                    + ds.filter(plain_fn()));
            },
        }
    }
}

/// A scan over plain declarations only appends them unchanged.
proof fn lemma_plain_scan(st: ScanStateV, ds: Seq<DeclV>)
    requires
        forall|i: int| 0 <= i < ds.len() ==> plain(#[trigger] ds[i]),
    ensures
        scan_decls(st, ds) == (ScanStateV { pass: st.pass + ds, buckets: st.buckets }),
    decreases ds.len(),
{
    if ds.len() == 0 {
        assert(st.pass + ds =~= st.pass);
        assert(scan_decls(st, ds) =~= ScanStateV { pass: st.pass + ds, buckets: st.buckets });
    } else {
        lemma_plain_scan(st, ds.drop_last());
        let prev = scan_decls(st, ds.drop_last());
        let d = ds.last();
        assert(plain(ds[ds.len() - 1]));
        let next = step_decl(prev, d);
        assert((st.pass + ds.drop_last()).push(d) =~= st.pass + ds);
        assert(next =~= ScanStateV { pass: st.pass + ds, buckets: st.buckets });
    }
}

/// Passthrough invariance, closed form: a declaration list in which every
/// declaration is plain comes back from the pass exactly as it went in.
pub proof fn lemma_passthrough_only(ds: Seq<DeclV>)
    requires
        forall|i: int| 0 <= i < ds.len() ==> plain(#[trigger] ds[i]),
    ensures
        grouped(ds) == ds,
{
    lemma_plain_scan(empty_state(), ds);
    assert(emit_buckets(Seq::<BucketV>::empty()) =~= Seq::<DeclV>::empty());
    assert(empty_state().pass + ds =~= ds);
    assert(grouped(ds) =~= ds);
}

/// Directives that are all of the other class, with pairwise distinct texts.
pub open spec fn all_other_distinct(ds: Seq<DirectiveV>) -> bool {
    &&& forall|i: int| 0 <= i < ds.len() ==> is_other(#[trigger] ds[i])
    &&& forall|i: int, j: int| 0 <= i < j < ds.len() ==> ds[i].text != ds[j].text
}

/// A declaration the pass maps to itself: a plain one, or a one-member
/// foreign block whose block-level and member-level directives are all of
/// the other class and deduplicated.
pub open spec fn stable(d: DeclV) -> bool {
    match d {
        DeclV::ForeignBlock { directives, members } => {
            &&& members.len() == 1
            &&& all_other_distinct(directives)
            &&& all_other_distinct(members[0].directives)
        },
        _ => plain(d),
    }
}

/// Classifying adds no conditional or linkage member beyond those already
/// present and those the directives carry.
proof fn lemma_partition_classes(s: DirectiveSetV, ds: Seq<DirectiveV>)
    ensures
        (partition_from(s, ds).conditional.len() == 0) <==> (s.conditional.len() == 0 && (forall|i: int|
            0 <= i < ds.len() ==> !is_conditional(#[trigger] ds[i]))),
        (partition_from(s, ds).linkage.len() == 0) <==> (s.linkage.len() == 0 && (forall|i: int|
            0 <= i < ds.len() ==> !is_linkage(#[trigger] ds[i]))),
    decreases ds.len(),
{
    if ds.len() > 0 {
        lemma_partition_classes(s, ds.drop_last());
        assert(ds[ds.len() - 1] == ds.last());
        assert(forall|i: int| 0 <= i < ds.len() - 1 ==> #[trigger] ds[i] == ds.drop_last()[i]);
    }
}

/// Classifying a deduplicated list of other-class directives returns it
/// unchanged as the other class, with both reserved classes empty.
proof fn lemma_partition_all_other(ds: Seq<DirectiveV>)
    requires
        all_other_distinct(ds),
    ensures
        partition_spec(ds).other == ds,
        partition_spec(ds).conditional.len() == 0,
        partition_spec(ds).linkage.len() == 0,
    decreases ds.len(),
{
    if ds.len() == 0 {
        assert(partition_spec(ds).other =~= ds);
    } else {
        assert(forall|i: int| 0 <= i < ds.len() - 1 ==> #[trigger] ds[i] == ds.drop_last()[i]);
        lemma_partition_all_other(ds.drop_last());
        let prev = partition_spec(ds.drop_last());
        let d = ds.last();
        assert(is_other(ds[ds.len() - 1]));
        assert(!has_text(prev.other, d.text)) by {
            if has_text(prev.other, d.text) {
                let i = choose|i: int| 0 <= i < prev.other.len() && prev.other[i].text == d.text;
                assert(ds[i].text == ds[ds.len() - 1].text);
            }
        }
        assert(partition_spec(ds).other =~= ds);
    }
}

/// The other class a classification produces consists of other-class
/// directives with pairwise distinct texts.
proof fn lemma_partition_other_shape(s: DirectiveSetV, ds: Seq<DirectiveV>)
    requires
        all_other_distinct(s.other),
    ensures
        all_other_distinct(partition_from(s, ds).other),
    decreases ds.len(),
{
    if ds.len() > 0 {
        lemma_partition_other_shape(s, ds.drop_last());
        let prev = partition_from(s, ds.drop_last());
        let d = ds.last();
        if is_other(d) && !has_text(prev.other, d.text) {
            let next = prev.other.push(d);
            assert forall|i: int, j: int| 0 <= i < j < next.len() implies next[i].text != next[j].text by {
                if j == next.len() - 1 {
                    assert(!(exists|q: int| 0 <= q < prev.other.len() && prev.other[q].text == d.text));
                    assert(prev.other[i].text != d.text);
                }
            }
        }
    }
}

/// Every declaration the pass outputs into the passthrough list is stable.
proof fn lemma_foreign_stable_outputs(st: ScanStateV, bd: Seq<DirectiveV>, ms: Seq<crate::decl::ForeignDeclV>)
    requires
        forall|i: int| 0 <= i < st.pass.len() ==> stable(#[trigger] st.pass[i]),
    ensures
        forall|i: int|
            0 <= i < scan_foreign(st, bd, ms).pass.len() ==> stable(#[trigger] scan_foreign(st, bd, ms).pass[i]),
    decreases ms.len(),
{
    if ms.len() > 0 {
        lemma_foreign_stable_outputs(st, bd, ms.drop_last());
        let prev = scan_foreign(st, bd, ms.drop_last());
        let next = step_foreign(prev, bd, ms.last());
        if next.pass != prev.pass {
            let blk = partition_spec(bd);
            let own = partition_spec(ms.last().directives);
            lemma_partition_other_shape(crate::directive::empty_set(), bd);
            lemma_partition_other_shape(crate::directive::empty_set(), ms.last().directives);
            assert(next.pass.drop_last() =~= prev.pass);
            assert(stable(next.pass.last()));
            assert forall|i: int| 0 <= i < next.pass.len() implies stable(#[trigger] next.pass[i]) by {
                if i < next.pass.len() - 1 {
                    assert(next.pass[i] == prev.pass[i]);
                }
            }
        }
    }
}

/// Every declaration a whole scan outputs into the passthrough list is
/// stable.
proof fn lemma_scan_stable_outputs(st: ScanStateV, ds: Seq<DeclV>)
    requires
        forall|i: int| 0 <= i < st.pass.len() ==> stable(#[trigger] st.pass[i]),
    ensures
        forall|i: int|
            0 <= i < scan_decls(st, ds).pass.len() ==> stable(#[trigger] scan_decls(st, ds).pass[i]),
    decreases ds.len(),
{
    if ds.len() > 0 {
        lemma_scan_stable_outputs(st, ds.drop_last());
        let prev = scan_decls(st, ds.drop_last());
        let d = ds.last();
        let next = step_decl(prev, d);
        match d {
            DeclV::ForeignBlock { directives, members } => {
                lemma_foreign_stable_outputs(prev, directives, members);
            },
            _ => {
                if next.pass != prev.pass {
                    assert(next.pass.drop_last() =~= prev.pass);
                    assert(plain(d));
                    assert(stable(d));
                    assert forall|i: int| 0 <= i < next.pass.len() implies stable(#[trigger] next.pass[i]) by {
                        if i < next.pass.len() - 1 {
                            assert(next.pass[i] == prev.pass[i]);
                        }
                    }
                }
            },
        }
    }
}

/// Every declaration the emitter produces is stable: synthesized namespaces
/// and re-exports pass through unchanged on a re-run.
proof fn lemma_emit_stable(bs: Seq<BucketV>)
    ensures
        forall|i: int| 0 <= i < emit_buckets(bs).len() ==> stable(#[trigger] emit_buckets(bs)[i]),
    decreases bs.len(),
{
    if bs.len() > 0 {
        lemma_emit_stable(bs.drop_last());
        let prev = emit_buckets(bs.drop_last());
        let next = emit_buckets(bs);
        assert forall|i: int| 0 <= i < next.len() implies stable(#[trigger] next[i]) by {
            if i < prev.len() {
                assert(next[i] == prev[i]);
            } else {
                assert(next[i] == emit_bucket(bs.last())[i - prev.len()]);
            }
        }
    }
}

/// A scan over stable declarations only appends them unchanged.
proof fn lemma_stable_scan(st: ScanStateV, ds: Seq<DeclV>)
    requires
        forall|i: int| 0 <= i < ds.len() ==> stable(#[trigger] ds[i]),
    ensures
        scan_decls(st, ds) == (ScanStateV { pass: st.pass + ds, buckets: st.buckets }),
    decreases ds.len(),
{
    if ds.len() == 0 {
        assert(st.pass + ds =~= st.pass);
        assert(scan_decls(st, ds) =~= ScanStateV { pass: st.pass + ds, buckets: st.buckets });
    } else {
        lemma_stable_scan(st, ds.drop_last());
        let prev = scan_decls(st, ds.drop_last());
        let d = ds.last();
        assert(stable(ds[ds.len() - 1]));
        let next = step_decl(prev, d);
        assert((st.pass + ds.drop_last()).push(d) =~= st.pass + ds);
        match d {
            DeclV::ForeignBlock { directives, members } => {
                let m = members[0];
                assert(members.drop_last() =~= Seq::<crate::decl::ForeignDeclV>::empty());
                assert(scan_foreign(prev, directives, Seq::<crate::decl::ForeignDeclV>::empty()) == prev);
                assert(members.last() == m);
                assert(scan_foreign(prev, directives, members) == step_foreign(prev, directives, m));
                lemma_partition_all_other(directives);
                lemma_partition_all_other(m.directives);
                let eff = partition_spec(directives + m.directives);
                lemma_partition_classes(crate::directive::empty_set(), directives + m.directives);
                assert forall|i: int| 0 <= i < (directives + m.directives).len() implies !is_conditional(
                    #[trigger] (directives + m.directives)[i],
                ) && !is_linkage((directives + m.directives)[i]) by {
                    if i < directives.len() {
                        assert((directives + m.directives)[i] == directives[i]);
                        assert(is_other(directives[i]));
                    } else {
                        assert((directives + m.directives)[i] == m.directives[i - directives.len()]);
                        assert(is_other(m.directives[i - directives.len()]));
                    }
                }
                assert(eff.conditional.len() == 0);
                assert(eff.linkage.len() == 0);
                let stripped = crate::decl::ForeignDeclV {
                    directives: partition_spec(m.directives).other,
                    payload: m.payload,
                };
                assert(stripped =~= m);
                assert(seq![stripped] =~= members);
                assert(step_foreign(prev, directives, m).pass.last() =~= d);
                assert(step_foreign(prev, directives, m).pass =~= prev.pass.push(d));
                assert(next =~= ScanStateV { pass: st.pass + ds, buckets: st.buckets });
            },
            _ => {
                assert(plain(d));
                assert(next =~= ScanStateV { pass: st.pass + ds, buckets: st.buckets });
            },
        }
    }
}

/// Buckets with pairwise distinct keys.
pub open spec fn distinct_keys(bs: Seq<BucketV>) -> bool {
    forall|i: int, j: int| 0 <= i < j < bs.len() ==> bs[i].key != bs[j].key
}

/// Adding a member keeps bucket keys pairwise distinct: an existing bucket
/// keeps its key, and a new bucket is created only for a key not yet held.
proof fn lemma_bucket_add_distinct(bs: Seq<BucketV>, key: Seq<char>, set: DirectiveSetV, m: crate::decl::GroupMemberV)
    requires
        distinct_keys(bs),
    ensures
        distinct_keys(bucket_add(bs, key, set, m)),
{
    lemma_find_bucket(bs, key);
    let f = find_bucket(bs, key);
    let next = bucket_add(bs, key, set, m);
    if f == -1 {
        assert forall|i: int, j: int| 0 <= i < j < next.len() implies next[i].key != next[j].key by {
            if j == next.len() - 1 {
                assert(next[i] == bs[i]);
                assert(bs[i].key != key);
            }
        }
    } else {
        assert forall|i: int, j: int| 0 <= i < j < next.len() implies next[i].key != next[j].key by {
            assert(next[i].key == bs[i].key);
            assert(next[j].key == bs[j].key);
        }
    }
}

/// The pass over a foreign block's members keeps bucket keys distinct.
proof fn lemma_foreign_distinct_keys(st: ScanStateV, bd: Seq<DirectiveV>, ms: Seq<crate::decl::ForeignDeclV>)
    requires
        distinct_keys(st.buckets),
    ensures
        distinct_keys(scan_foreign(st, bd, ms).buckets),
    decreases ms.len(),
{
    if ms.len() > 0 {
        lemma_foreign_distinct_keys(st, bd, ms.drop_last());
        let prev = scan_foreign(st, bd, ms.drop_last());
        let next = step_foreign(prev, bd, ms.last());
        if next.buckets != prev.buckets {
            let eff = partition_spec(bd + ms.last().directives);
            lemma_bucket_add_distinct(
                prev.buckets,
                key_of(eff),
                eff,
                crate::decl::GroupMemberV::Foreign {
                    decl: crate::decl::ForeignDeclV {
                        directives: partition_spec(ms.last().directives).other,
                        payload: ms.last().payload,
                    },
                },
            );
        }
    }
}

/// One namespace per key: the buckets the pass builds carry pairwise
/// distinct keys, so each derived key owns exactly one synthesized
/// namespace.
pub proof fn lemma_one_bucket_per_key(ds: Seq<DeclV>)
    ensures
        distinct_keys(scan_decls(empty_state(), ds).buckets),
{
    lemma_scan_distinct_keys(empty_state(), ds);
}

/// The generalized induction behind [`lemma_one_bucket_per_key`].
proof fn lemma_scan_distinct_keys(st: ScanStateV, ds: Seq<DeclV>)
    requires
        distinct_keys(st.buckets),
    ensures
        distinct_keys(scan_decls(st, ds).buckets),
    decreases ds.len(),
{
    if ds.len() > 0 {
        lemma_scan_distinct_keys(st, ds.drop_last());
        let prev = scan_decls(st, ds.drop_last());
        match ds.last() {
            DeclV::Regular { kind, directives, payload } => {
                let p = partition_spec(directives);
                if !(p.conditional.len() == 0 && p.linkage.len() == 0) {
                    lemma_bucket_add_distinct(
                        prev.buckets,
                        key_of(p),
                        p,
                        crate::decl::GroupMemberV::Regular { kind, directives: p.other, payload },
                    );
                }
            },
            DeclV::ForeignBlock { directives, members } => {
                lemma_foreign_distinct_keys(prev, directives, members);
            },
            _ => {},
        }
    }
}

/// Grouping correctness, key half: two declarations whose conditional and
/// linkage directive collections hold the same texts, in whatever order,
/// derive the same key, and so join the same bucket; with
/// [`lemma_one_bucket_per_key`] they share one synthesized namespace.
pub proof fn lemma_equal_sets_equal_key(a: DirectiveSetV, b: DirectiveSetV)
    requires
        (texts_of(a.conditional) + texts_of(a.linkage)).to_multiset() == (texts_of(b.conditional)
            + texts_of(b.linkage)).to_multiset(),
    ensures
        key_of(a) == key_of(b),
{
    lemma_key_order_invariant(
        texts_of(a.conditional) + texts_of(a.linkage),
        texts_of(b.conditional) + texts_of(b.linkage),
    );
}

/// Extending holds a text exactly when one of the two parts holds it.
proof fn lemma_extend_unique_texts(a: Seq<DirectiveV>, b: Seq<DirectiveV>, t: Seq<char>)
    ensures
        has_text(extend_unique(a, b), t) <==> (has_text(a, t) || has_text(b, t)),
    decreases b.len(),
{
    if b.len() == 0 {
        assert(!has_text(b, t)) by {
            if has_text(b, t) {
                let i = choose|i: int| 0 <= i < b.len() && b[i].text == t;
            }
        }
    } else {
        lemma_extend_unique_texts(a, b.drop_last(), t);
        let prev = extend_unique(a, b.drop_last());
        let d = b.last();
        assert(has_text(b, t) <==> (has_text(b.drop_last(), t) || d.text == t)) by {
            if has_text(b, t) {
                let i = choose|i: int| 0 <= i < b.len() && b[i].text == t;
                if i < b.len() - 1 {
                    assert(b.drop_last()[i].text == t);
                }
            }
            if has_text(b.drop_last(), t) {
                let i = choose|i: int| 0 <= i < b.drop_last().len() && b.drop_last()[i].text == t;
                assert(b[i].text == t);
            }
            if d.text == t {
                assert(b[b.len() - 1].text == t);
            }
        }
        if has_text(prev, d.text) {
            assert(extend_unique(a, b) == prev);
            if d.text == t {
                assert(has_text(prev, t));
            }
        } else {
            let next = prev.push(d);
            assert(has_text(next, t) <==> (has_text(prev, t) || d.text == t)) by {
                if has_text(next, t) {
                    let i = choose|i: int| 0 <= i < next.len() && next[i].text == t;
                    if i < next.len() - 1 {
                        assert(prev[i].text == t);
                    }
                }
                if has_text(prev, t) {
                    let i = choose|i: int| 0 <= i < prev.len() && prev[i].text == t;
                    assert(next[i].text == t);
                }
                assert(next[next.len() - 1] == d);
            }
        }
    }
}

/// Grouping correctness, merge half: when a declaration joins a group, the
/// group's directive set afterwards holds, class by class, exactly the
/// texts it held before together with those the declaration contributed.
pub proof fn lemma_union_holds_both(a: DirectiveSetV, b: DirectiveSetV, t: Seq<char>)
    ensures
        has_text(union_spec(a, b).conditional, t) <==> (has_text(a.conditional, t) || has_text(
            b.conditional,
            t,
        )),
        has_text(union_spec(a, b).linkage, t) <==> (has_text(a.linkage, t) || has_text(b.linkage, t)),
        has_text(union_spec(a, b).other, t) <==> (has_text(a.other, t) || has_text(b.other, t)),
{
    lemma_extend_unique_texts(a.conditional, b.conditional, t);
    lemma_extend_unique_texts(a.linkage, b.linkage, t);
    lemma_extend_unique_texts(a.other, b.other, t);
}

/// Whether some bucket with key `k` holds the member `m`.
pub open spec fn in_bucket(bs: Seq<BucketV>, k: Seq<char>, m: crate::decl::GroupMemberV) -> bool {
    exists|b: int| 0 <= b < bs.len() && bs[b].key == k && bs[b].members.contains(m)
}

/// Scanning a concatenation scans the first part, then the second.
proof fn lemma_scan_append(st: ScanStateV, a: Seq<DeclV>, b: Seq<DeclV>)
    ensures
        scan_decls(st, a + b) == scan_decls(scan_decls(st, a), b),
    decreases b.len(),
{
    if b.len() == 0 {
        assert(a + b =~= a);
    } else {
        assert((a + b).drop_last() =~= a + b.drop_last());
        assert((a + b).last() == b.last());
        lemma_scan_append(st, a, b.drop_last());
    }
}

/// Adding a member never removes one: whatever some bucket held under a key,
/// a bucket under that key still holds afterwards.
proof fn lemma_bucket_add_preserves(
    bs: Seq<BucketV>,
    key2: Seq<char>,
    set2: DirectiveSetV,
    m2: crate::decl::GroupMemberV,
    k: Seq<char>,
    m: crate::decl::GroupMemberV,
)
    requires
        in_bucket(bs, k, m),
    ensures
        in_bucket(bucket_add(bs, key2, set2, m2), k, m),
{
    lemma_find_bucket(bs, key2);
    let f = find_bucket(bs, key2);
    let out = bucket_add(bs, key2, set2, m2);
    let b = choose|b: int| 0 <= b < bs.len() && bs[b].key == k && bs[b].members.contains(m);
    if f == -1 {
        assert(out[b] == bs[b]);
    } else if b == f {
        assert(out[f].key == bs[f].key);
        let w = choose|w: int| 0 <= w < bs[b].members.len() && bs[b].members[w] == m;
        assert(out[f].members[w] == m);
        assert(out[f].members.contains(m));
    } else {
        assert(out[b] == bs[b]);
    }
}

/// The member just added is held by a bucket under its key.
proof fn lemma_bucket_add_adds(bs: Seq<BucketV>, key: Seq<char>, set: DirectiveSetV, m: crate::decl::GroupMemberV)
    ensures
        in_bucket(bucket_add(bs, key, set, m), key, m),
{
    lemma_find_bucket(bs, key);
    let f = find_bucket(bs, key);
    let out = bucket_add(bs, key, set, m);
    if f == -1 {
        assert(out[out.len() - 1].key == key);
        assert(out[out.len() - 1].members[0] == m);
        assert(out[out.len() - 1].members.contains(m));
    } else {
        assert(out[f].key == key);
        assert(out[f].members[out[f].members.len() - 1] == m);
        assert(out[f].members.contains(m));
    }
}

/// The pass over a foreign block's members never removes a bucket member.
proof fn lemma_foreign_preserves(
    st: ScanStateV,
    bd: Seq<DirectiveV>,
    ms: Seq<crate::decl::ForeignDeclV>,
    k: Seq<char>,
    m: crate::decl::GroupMemberV,
)
    requires
        in_bucket(st.buckets, k, m),
    ensures
        in_bucket(scan_foreign(st, bd, ms).buckets, k, m),
    decreases ms.len(),
{
    if ms.len() > 0 {
        lemma_foreign_preserves(st, bd, ms.drop_last(), k, m);
        let prev = scan_foreign(st, bd, ms.drop_last());
        let eff = partition_spec(bd + ms.last().directives);
        if !(eff.conditional.len() == 0 && eff.linkage.len() == 0) {
            lemma_bucket_add_preserves(
                prev.buckets,
                crate::key::key_of(eff),
                eff,
                crate::decl::GroupMemberV::Foreign {
                    decl: crate::decl::ForeignDeclV {
                        directives: partition_spec(ms.last().directives).other,
                        payload: ms.last().payload,
                    },
                },
                k,
                m,
            );
        }
    }
}

/// A whole scan never removes a bucket member.
proof fn lemma_scan_preserves(st: ScanStateV, ds: Seq<DeclV>, k: Seq<char>, m: crate::decl::GroupMemberV)
    requires
        in_bucket(st.buckets, k, m),
    ensures
        in_bucket(scan_decls(st, ds).buckets, k, m),
    decreases ds.len(),
{
    if ds.len() > 0 {
        lemma_scan_preserves(st, ds.drop_last(), k, m);
        let prev = scan_decls(st, ds.drop_last());
        match ds.last() {
            DeclV::Regular { kind, directives, payload } => {
                let p = partition_spec(directives);
                if !(p.conditional.len() == 0 && p.linkage.len() == 0) {
                    lemma_bucket_add_preserves(
                        prev.buckets,
                        crate::key::key_of(p),
                        p,
                        crate::decl::GroupMemberV::Regular { kind, directives: p.other, payload },
                        k,
                        m,
                    );
                }
            },
            DeclV::ForeignBlock { directives, members } => {
                lemma_foreign_preserves(prev, directives, members, k, m);
            },
            _ => {},
        }
    }
}

/// The stripped form of an ordinary declaration the pass groups.
pub open spec fn stripped_member(d: DeclV) -> crate::decl::GroupMemberV
    recommends
        d is Regular,
{
    match d {
        DeclV::Regular { kind, directives, payload } => crate::decl::GroupMemberV::Regular {
            kind,
            directives: partition_spec(directives).other,
            payload,
        },
        _ => crate::decl::GroupMemberV::Regular {
            kind: crate::decl::DeclKind::Const,
            directives: Seq::empty(),
            payload: Seq::empty(),
        },
    }
}

/// The key an ordinary declaration is grouped under.
pub open spec fn decl_key(d: DeclV) -> Seq<char>
    recommends
        d is Regular,
{
    match d {
        DeclV::Regular { directives, .. } => crate::key::key_of(partition_spec(directives)),
        _ => Seq::empty(),
    }
}

/// A grouped ordinary declaration ends up, stripped to its other-class
/// directives, in a bucket carrying its derived key.
pub proof fn lemma_regular_decl_joins(ds: Seq<DeclV>, i: int)
    requires
        0 <= i < ds.len(),
        ds[i] is Regular,
        !plain(ds[i]),
    ensures
        in_bucket(scan_decls(empty_state(), ds).buckets, decl_key(ds[i]), stripped_member(ds[i])),
{
    let a = ds.take(i + 1);
    let b = ds.skip(i + 1);
    assert(ds =~= a + b);
    lemma_scan_append(empty_state(), a, b);
    crate::views::lemma_take_step(ds, i);
    let prev = scan_decls(empty_state(), ds.take(i));
    assert(scan_decls(empty_state(), a) == step_decl(prev, ds[i]));
    match ds[i] {
        DeclV::Regular { kind, directives, payload } => {
            let p = partition_spec(directives);
            lemma_bucket_add_adds(
                prev.buckets,
                crate::key::key_of(p),
                p,
                crate::decl::GroupMemberV::Regular { kind, directives: p.other, payload },
            );
        },
        _ => {},
    }
    lemma_scan_preserves(scan_decls(empty_state(), a), b, decl_key(ds[i]), stripped_member(ds[i]));
}

/// The effective directive set of a nested foreign declaration: the
/// classification of the block's directives followed by its own.
pub open spec fn foreign_effective(bd: Seq<DirectiveV>, m: crate::decl::ForeignDeclV) -> DirectiveSetV {
    partition_spec(bd + m.directives)
}

/// The stripped form of a nested foreign declaration.
pub open spec fn foreign_stripped(m: crate::decl::ForeignDeclV) -> crate::decl::GroupMemberV {
    crate::decl::GroupMemberV::Foreign {
        decl: crate::decl::ForeignDeclV {
            directives: partition_spec(m.directives).other,
            payload: m.payload,
        },
    }
}

/// The pass over a foreign block's members processes a concatenation part by
/// part.
proof fn lemma_scan_foreign_append(
    st: ScanStateV,
    bd: Seq<DirectiveV>,
    a: Seq<crate::decl::ForeignDeclV>,
    b: Seq<crate::decl::ForeignDeclV>,
)
    ensures
        scan_foreign(st, bd, a + b) == scan_foreign(scan_foreign(st, bd, a), bd, b),
    decreases b.len(),
{
    if b.len() == 0 {
        assert(a + b =~= a);
    } else {
        assert((a + b).drop_last() =~= a + b.drop_last());
        assert((a + b).last() == b.last());
        lemma_scan_foreign_append(st, bd, a, b.drop_last());
    }
}

/// A grouped nested foreign declaration ends up, stripped to its own
/// other-class directives, in a bucket carrying the key of its effective
/// directive set.
pub proof fn lemma_foreign_member_joins(ds: Seq<DeclV>, i: int, j: int)
    requires
        0 <= i < ds.len(),
        ds[i] is ForeignBlock,
        0 <= j < ds[i]->ForeignBlock_members.len(),
        ({
            let eff = foreign_effective(ds[i]->ForeignBlock_directives, ds[i]->ForeignBlock_members[j]);
            eff.conditional.len() + eff.linkage.len() > 0
        }),
    ensures
        in_bucket(
            scan_decls(empty_state(), ds).buckets,
            crate::key::key_of(foreign_effective(ds[i]->ForeignBlock_directives, ds[i]->ForeignBlock_members[j])),
            foreign_stripped(ds[i]->ForeignBlock_members[j]),
        ),
{
    let bd = ds[i]->ForeignBlock_directives;
    let ms = ds[i]->ForeignBlock_members;
    let eff = foreign_effective(bd, ms[j]);
    let k = crate::key::key_of(eff);
    let m = foreign_stripped(ms[j]);
    let a = ds.take(i + 1);
    let b = ds.skip(i + 1);
    assert(ds =~= a + b);
    lemma_scan_append(empty_state(), a, b);
    crate::views::lemma_take_step(ds, i);
    let prev = scan_decls(empty_state(), ds.take(i));
    assert(scan_decls(empty_state(), a) == step_decl(prev, ds[i]));
    assert(step_decl(prev, ds[i]) == scan_foreign(prev, bd, ms));
    let ma = ms.take(j + 1);
    let mb = ms.skip(j + 1);
    assert(ms =~= ma + mb);
    lemma_scan_foreign_append(prev, bd, ma, mb);
    crate::views::lemma_take_step(ms, j);
    let fprev = scan_foreign(prev, bd, ms.take(j));
    assert(scan_foreign(prev, bd, ma) == step_foreign(fprev, bd, ms[j]));
    lemma_bucket_add_adds(fprev.buckets, k, eff, m);
    assert(in_bucket(step_foreign(fprev, bd, ms[j]).buckets, k, m));
    lemma_foreign_preserves(scan_foreign(prev, bd, ma), bd, mb, k, m);
    assert(in_bucket(scan_foreign(prev, bd, ms).buckets, k, m));
    lemma_scan_preserves(scan_decls(empty_state(), a), b, k, m);
}

/// Grouping correctness: two ordinary declarations whose conditional and
/// linkage directive collections hold the same texts, in whatever order,
/// are grouped under one and the same key; both stripped declarations are
/// held by a bucket carrying that key, and the pass builds exactly one
/// bucket per key, so they share one synthesized namespace.
pub proof fn lemma_grouping_correctness(ds: Seq<DeclV>, i: int, j: int)
    requires
        0 <= i < ds.len(),
        0 <= j < ds.len(),
        ds[i] is Regular,
        ds[j] is Regular,
        !plain(ds[i]),
        !plain(ds[j]),
        ({
            let pi = partition_spec(ds[i]->Regular_directives);
            let pj = partition_spec(ds[j]->Regular_directives);
            (texts_of(pi.conditional) + texts_of(pi.linkage)).to_multiset() == (texts_of(pj.conditional)
                + texts_of(pj.linkage)).to_multiset()
        }),
    ensures
        decl_key(ds[j]) == decl_key(ds[i]),
        in_bucket(scan_decls(empty_state(), ds).buckets, decl_key(ds[i]), stripped_member(ds[i])),
        in_bucket(scan_decls(empty_state(), ds).buckets, decl_key(ds[i]), stripped_member(ds[j])),
        distinct_keys(scan_decls(empty_state(), ds).buckets),
{
    let pi = partition_spec(ds[i]->Regular_directives);
    let pj = partition_spec(ds[j]->Regular_directives);
    lemma_equal_sets_equal_key(pi, pj);
    lemma_regular_decl_joins(ds, i);
    lemma_regular_decl_joins(ds, j);
    lemma_one_bucket_per_key(ds);
}

/// The set of texts a directive collection holds.
pub open spec fn text_set(s: Seq<DirectiveV>) -> Set<Seq<char>> {
    Set::new(|t: Seq<char>| has_text(s, t))
}

/// Whether every bucket under key `k` carries the conditional texts `c` and
/// the linkage texts `l`.
pub open spec fn buckets_carry(bs: Seq<BucketV>, k: Seq<char>, c: Set<Seq<char>>, l: Set<Seq<char>>) -> bool {
    forall|b: int|
        0 <= b < bs.len() && (#[trigger] bs[b]).key == k ==> text_set(bs[b].set.conditional) == c
            && text_set(bs[b].set.linkage) == l
}

/// Adding a contribution that carries `c` and `l` under key `k` keeps every
/// bucket under `k` carrying exactly `c` and `l`.
proof fn lemma_bucket_add_merged(
    bs: Seq<BucketV>,
    key: Seq<char>,
    set: DirectiveSetV,
    m: crate::decl::GroupMemberV,
    k: Seq<char>,
    c: Set<Seq<char>>,
    l: Set<Seq<char>>,
)
    requires
        buckets_carry(bs, k, c, l),
        key == k ==> text_set(set.conditional) == c && text_set(set.linkage) == l,
    ensures
        buckets_carry(bucket_add(bs, key, set, m), k, c, l),
{
    lemma_find_bucket(bs, key);
    let f = find_bucket(bs, key);
    let out = bucket_add(bs, key, set, m);
    assert forall|b: int|
        0 <= b < out.len() && (#[trigger] out[b]).key == k implies text_set(out[b].set.conditional) == c
        && text_set(out[b].set.linkage) == l by {
        if f == -1 {
            if b < bs.len() {
                assert(out[b] == bs[b]);
            } else {
                assert(out[b].key == key && out[b].set == set);
            }
        } else {
            if b != f {
                assert(out[b] == bs[b]);
            } else {
                assert(bs[f].key == key);
                assert(out[f].key == key);
                assert(out[f].set == union_spec(bs[f].set, set));
                if key == k {
                    assert forall|t: Seq<char>|
                        #[trigger] has_text(out[f].set.conditional, t) <==> c.contains(t) by {
                        lemma_extend_unique_texts(bs[f].set.conditional, set.conditional, t);
                        assert(c.contains(t) == text_set(set.conditional).contains(t));
                        assert(c.contains(t) == text_set(bs[f].set.conditional).contains(t));
                    }
                    assert(text_set(out[f].set.conditional) =~= c);
                    assert forall|t: Seq<char>|
                        #[trigger] has_text(out[f].set.linkage, t) <==> l.contains(t) by {
                        lemma_extend_unique_texts(bs[f].set.linkage, set.linkage, t);
                        assert(l.contains(t) == text_set(set.linkage).contains(t));
                        assert(l.contains(t) == text_set(bs[f].set.linkage).contains(t));
                    }
                    assert(text_set(out[f].set.linkage) =~= l);
                }
            }
        }
    }
}

/// Whether every grouped nested declaration of the block that lands under
/// key `k` carries the conditional texts `c` and the linkage texts `l`.
pub open spec fn foreign_members_carry(
    bd: Seq<DirectiveV>,
    ms: Seq<crate::decl::ForeignDeclV>,
    k: Seq<char>,
    c: Set<Seq<char>>,
    l: Set<Seq<char>>,
) -> bool {
    forall|w: int|
        0 <= w < ms.len() && ({
            let eff = foreign_effective(bd, #[trigger] ms[w]);
            eff.conditional.len() + eff.linkage.len() > 0 && crate::key::key_of(eff) == k
        }) ==> ({
            let eff = foreign_effective(bd, ms[w]);
            text_set(eff.conditional) == c && text_set(eff.linkage) == l
        })
}

/// Whether every declaration of `ds` grouped under key `k` carries the
/// conditional texts `c` and the linkage texts `l`.
pub open spec fn decls_carry(ds: Seq<DeclV>, k: Seq<char>, c: Set<Seq<char>>, l: Set<Seq<char>>) -> bool {
    forall|q: int|
        0 <= q < ds.len() ==> match #[trigger] ds[q] {
            DeclV::Regular { directives, .. } => (!plain(ds[q]) && decl_key(ds[q]) == k) ==> ({
                let p = partition_spec(directives);
                text_set(p.conditional) == c && text_set(p.linkage) == l
            }),
            DeclV::ForeignBlock { directives, members } => foreign_members_carry(directives, members, k, c, l),
            _ => true,
        }
}

/// The foreign-block induction behind [`lemma_merged_set_is_the_union`].
proof fn lemma_merged_foreign_invariant(
    st: ScanStateV,
    bd: Seq<DirectiveV>,
    ms: Seq<crate::decl::ForeignDeclV>,
    k: Seq<char>,
    c: Set<Seq<char>>,
    l: Set<Seq<char>>,
)
    requires
        buckets_carry(st.buckets, k, c, l),
        foreign_members_carry(bd, ms, k, c, l),
    ensures
        buckets_carry(scan_foreign(st, bd, ms).buckets, k, c, l),
    decreases ms.len(),
{
    if ms.len() > 0 {
        assert(foreign_members_carry(bd, ms.drop_last(), k, c, l)) by {
            assert(forall|w: int| 0 <= w < ms.len() - 1 ==> #[trigger] ms.drop_last()[w] == ms[w]);
        }
        lemma_merged_foreign_invariant(st, bd, ms.drop_last(), k, c, l);
        let prev = scan_foreign(st, bd, ms.drop_last());
        let m = ms.last();
        assert(m == ms[ms.len() - 1]);
        let eff = partition_spec(bd + m.directives);
        if !(eff.conditional.len() == 0 && eff.linkage.len() == 0) {
            lemma_bucket_add_merged(
                prev.buckets,
                crate::key::key_of(eff),
                eff,
                foreign_stripped(m),
                k,
                c,
                l,
            );
        }
    }
}

/// Grouping correctness, merge half: when every declaration grouped under
/// key `k` carries the conditional texts `c` and the linkage texts `l`,
/// every bucket the pass builds under `k` carries exactly those texts,
/// class by class: the merged directive set is the union of its
/// contributors' sets.
pub proof fn lemma_merged_set_is_the_union(ds: Seq<DeclV>, k: Seq<char>, c: Set<Seq<char>>, l: Set<Seq<char>>)
    requires
        decls_carry(ds, k, c, l),
    ensures
        buckets_carry(scan_decls(empty_state(), ds).buckets, k, c, l),
{
    lemma_merged_set_invariant(empty_state(), ds, k, c, l);
}

/// The generalized induction behind [`lemma_merged_set_is_the_union`].
proof fn lemma_merged_set_invariant(
    st: ScanStateV,
    ds: Seq<DeclV>,
    k: Seq<char>,
    c: Set<Seq<char>>,
    l: Set<Seq<char>>,
)
    requires
        buckets_carry(st.buckets, k, c, l),
        decls_carry(ds, k, c, l),
    ensures
        buckets_carry(scan_decls(st, ds).buckets, k, c, l),
    decreases ds.len(),
{
    if ds.len() > 0 {
        assert(decls_carry(ds.drop_last(), k, c, l)) by {
            assert(forall|q: int| 0 <= q < ds.len() - 1 ==> #[trigger] ds.drop_last()[q] == ds[q]);
        }
        lemma_merged_set_invariant(st, ds.drop_last(), k, c, l);
        let prev = scan_decls(st, ds.drop_last());
        let d = ds.last();
        assert(d == ds[ds.len() - 1]);
        match d {
            DeclV::Regular { kind, directives, payload } => {
                let p = partition_spec(directives);
                if !(p.conditional.len() == 0 && p.linkage.len() == 0) {
                    if crate::key::key_of(p) == k {
                        assert(!plain(ds[ds.len() - 1]) && decl_key(ds[ds.len() - 1]) == k);
                    }
                    lemma_bucket_add_merged(
                        prev.buckets,
                        crate::key::key_of(p),
                        p,
                        crate::decl::GroupMemberV::Regular { kind, directives: p.other, payload },
                        k,
                        c,
                        l,
                    );
                }
            },
            DeclV::ForeignBlock { directives, members } => {
                lemma_merged_foreign_invariant(prev, directives, members, k, c, l);
            },
            _ => {},
        }
    }
}

/// Idempotence: running the grouping pass on its own output performs no
/// further regrouping; the second run returns its input unchanged.
pub proof fn lemma_grouping_idempotent(ds: Seq<DeclV>)
    ensures
        grouped(grouped(ds)) == grouped(ds),
{
    let st = scan_decls(empty_state(), ds);
    lemma_scan_stable_outputs(empty_state(), ds);
    lemma_emit_stable(st.buckets);
    let g = grouped(ds);
    assert forall|i: int| 0 <= i < g.len() implies stable(#[trigger] g[i]) by {
        if i < st.pass.len() {
            assert(g[i] == st.pass[i]);
        } else {
            assert(g[i] == emit_buckets(st.buckets)[i - st.pass.len()]);
        }
    }
    lemma_stable_scan(empty_state(), g);
    assert(emit_buckets(Seq::<BucketV>::empty()) =~= Seq::<DeclV>::empty());
    assert(empty_state().pass + g =~= g);
    assert(grouped(g) =~= g);
}

} // verus!
