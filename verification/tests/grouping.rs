use bindgen::decl::{Decl, DeclKind, ForeignDecl, GroupMember};
use bindgen::directive::{partition_directives, Directive};
use bindgen::group::merge_cfg_attributes;
use bindgen::key::derive_group_key;

fn dir(name: &str, text: &str) -> Directive {
    Directive { name: name.to_string(), text: text.to_string() }
}

fn cfg_linux() -> Directive {
    dir("cfg", "# [cfg (target_os = \"linux\")]")
}

fn fun(payload: &str, directives: Vec<Directive>) -> Decl {
    Decl::Regular { kind: DeclKind::Function, directives, payload: payload.to_string() }
}

#[test]
fn empty_input_stays_empty() {
    let out = merge_cfg_attributes(Vec::new());
    assert!(out.is_empty());
}

#[test]
fn key_of_single_conditional_directive() {
    let set = partition_directives(&vec![cfg_linux()]);
    let key = derive_group_key(&set);
    assert_eq!(key, "cfg_target_os_eq_linux");
}

#[test]
fn key_ignores_insertion_order() {
    let a = dir("cfg", "# [cfg (unix)]");
    let b = dir("link", "# [link (name = \"m\")]");
    let k1 = derive_group_key(&partition_directives(&vec![a.clone(), b.clone()]));
    let k2 = derive_group_key(&partition_directives(&vec![b, a]));
    assert_eq!(k1, k2);
}

#[test]
fn key_deduplicates_by_text() {
    let k1 = derive_group_key(&partition_directives(&vec![cfg_linux(), cfg_linux()]));
    let k2 = derive_group_key(&partition_directives(&vec![cfg_linux()]));
    assert_eq!(k1, k2);
}

#[test]
fn two_tagged_declarations_share_one_namespace() {
    let out = merge_cfg_attributes(vec![
        fun("fn a ();", vec![cfg_linux()]),
        fun("fn b ();", vec![cfg_linux()]),
    ]);
    assert_eq!(out.len(), 2);
    match &out[0] {
        Decl::SyntheticNamespace { name, conditionals, linkages, members } => {
            assert!(name.contains("target_os_eq_linux"));
            assert_eq!(conditionals.len(), 1);
            assert_eq!(conditionals[0], cfg_linux());
            assert!(linkages.is_empty());
            assert_eq!(members.len(), 2);
            match &members[0] {
                GroupMember::Regular { payload, directives, .. } => {
                    assert_eq!(payload, "fn a ();");
                    assert!(directives.is_empty());
                }
                other => panic!("unexpected member {other:?}"),
            }
            match &members[1] {
                GroupMember::Regular { payload, .. } => assert_eq!(payload, "fn b ();"),
                other => panic!("unexpected member {other:?}"),
            }
        }
        other => panic!("expected a synthesized namespace, got {other:?}"),
    }
    match &out[1] {
        Decl::WildcardReexport { name, conditionals } => {
            assert!(name.contains("target_os_eq_linux"));
            assert_eq!(conditionals.len(), 1);
        }
        other => panic!("expected a wildcard re-export, got {other:?}"),
    }
}

#[test]
fn foreign_block_members_split_by_effective_set() {
    let link_m = dir("link", "# [link (name = \"m\")]");
    let cfg_unix = dir("cfg", "# [cfg (unix)]");
    let block = Decl::ForeignBlock {
        directives: vec![link_m.clone()],
        members: vec![
            ForeignDecl { directives: vec![cfg_unix.clone()], payload: "fn sin ();".to_string() },
            ForeignDecl { directives: Vec::new(), payload: "fn cos ();".to_string() },
        ],
    };
    let out = merge_cfg_attributes(vec![block]);
    assert_eq!(out.len(), 4);
    match &out[0] {
        Decl::SyntheticNamespace { conditionals, linkages, members, .. } => {
            assert_eq!(conditionals.as_slice(), &[cfg_unix.clone()]);
            assert_eq!(linkages.as_slice(), &[link_m.clone()]);
            assert_eq!(members.len(), 1);
            match &members[0] {
                GroupMember::Foreign { decl } => assert_eq!(decl.payload, "fn sin ();"),
                other => panic!("unexpected member {other:?}"),
            }
        }
        other => panic!("expected a synthesized namespace, got {other:?}"),
    }
    assert!(matches!(&out[1], Decl::WildcardReexport { .. }));
    match &out[2] {
        Decl::SyntheticNamespace { conditionals, linkages, members, .. } => {
            assert!(conditionals.is_empty());
            assert_eq!(linkages.as_slice(), &[link_m.clone()]);
            assert_eq!(members.len(), 1);
            match &members[0] {
                GroupMember::Foreign { decl } => assert_eq!(decl.payload, "fn cos ();"),
                other => panic!("unexpected member {other:?}"),
            }
        }
        other => panic!("expected a synthesized namespace, got {other:?}"),
    }
    assert!(matches!(&out[3], Decl::WildcardReexport { .. }));
}

#[test]
fn untagged_declarations_pass_through_unchanged() {
    let doc = dir("doc", "# [doc = \"hi\"]");
    let input = vec![
        Decl::Opaque { payload: "verbatim".to_string() },
        fun("fn free ();", Vec::new()),
        fun("fn documented ();", vec![doc.clone(), doc.clone()]),
    ];
    let out = merge_cfg_attributes(input.clone());
    assert_eq!(out, input);
}

#[test]
fn passthrough_precedes_namespaces_in_original_order() {
    let out = merge_cfg_attributes(vec![
        fun("fn one ();", vec![cfg_linux()]),
        Decl::Opaque { payload: "first".to_string() },
        Decl::Opaque { payload: "second".to_string() },
    ]);
    assert_eq!(out.len(), 4);
    assert_eq!(out[0], Decl::Opaque { payload: "first".to_string() });
    assert_eq!(out[1], Decl::Opaque { payload: "second".to_string() });
    assert!(matches!(&out[2], Decl::SyntheticNamespace { .. }));
    assert!(matches!(&out[3], Decl::WildcardReexport { .. }));
}

#[test]
fn grouping_is_idempotent_on_its_output() {
    let link_m = dir("link", "# [link (name = \"m\")]");
    let input = vec![
        fun("fn a ();", vec![cfg_linux()]),
        Decl::ForeignBlock {
            directives: vec![link_m],
            members: vec![ForeignDecl { directives: Vec::new(), payload: "fn f ();".to_string() }],
        },
        Decl::ForeignBlock {
            directives: vec![dir("doc", "# [doc = \"d\"]")],
            members: vec![
                ForeignDecl { directives: Vec::new(), payload: "fn g ();".to_string() },
                ForeignDecl { directives: Vec::new(), payload: "fn h ();".to_string() },
            ],
        },
        Decl::Opaque { payload: "x".to_string() },
    ];
    let once = merge_cfg_attributes(input);
    let twice = merge_cfg_attributes(once.clone());
    assert_eq!(twice, once);
}

#[test]
fn trivial_foreign_block_rewrapped_per_member() {
    let doc = dir("doc", "# [doc = \"d\"]");
    let out = merge_cfg_attributes(vec![Decl::ForeignBlock {
        directives: vec![doc.clone()],
        members: vec![
            ForeignDecl { directives: Vec::new(), payload: "fn g ();".to_string() },
            ForeignDecl { directives: Vec::new(), payload: "fn h ();".to_string() },
        ],
    }]);
    assert_eq!(out.len(), 2);
    match &out[0] {
        Decl::ForeignBlock { directives, members } => {
            assert_eq!(directives.as_slice(), &[doc.clone()]);
            assert_eq!(members.len(), 1);
            assert_eq!(members[0].payload, "fn g ();");
        }
        other => panic!("expected a foreign block, got {other:?}"),
    }
    match &out[1] {
        Decl::ForeignBlock { members, .. } => assert_eq!(members[0].payload, "fn h ();"),
        other => panic!("expected a foreign block, got {other:?}"),
    }
}

#[test]
fn block_and_member_directives_collapse_by_text() {
    let cfg_unix = dir("cfg", "# [cfg (unix)]");
    let out = merge_cfg_attributes(vec![Decl::ForeignBlock {
        directives: vec![cfg_unix.clone()],
        members: vec![ForeignDecl {
            directives: vec![cfg_unix.clone()],
            payload: "fn tan ();".to_string(),
        }],
    }]);
    assert_eq!(out.len(), 2);
    match &out[0] {
        Decl::SyntheticNamespace { conditionals, linkages, .. } => {
            assert_eq!(conditionals.as_slice(), &[cfg_unix.clone()]);
            assert!(linkages.is_empty());
        }
        other => panic!("expected a synthesized namespace, got {other:?}"),
    }
}

#[test]
fn other_directives_never_reach_the_key() {
    let with_doc = partition_directives(&vec![cfg_linux(), dir("doc", "# [doc = \"x\"]")]);
    let without = partition_directives(&vec![cfg_linux()]);
    assert_eq!(derive_group_key(&with_doc), derive_group_key(&without));
}
