//! The declaration model the grouping pass operates on: top-level
//! declarations with directive lists and opaque payloads, foreign-linkage
//! blocks with nested foreign declarations, and the synthesized output forms.

use vstd::prelude::*;
use crate::directive::{Directive, DirectiveV};

verus! {

/// The kind of an ordinary top-level declaration; carried through untouched.
#[derive(Clone, Copy, PartialEq, Eq, Structural, Debug)]
pub enum DeclKind {
    Const,
    Struct,
    Enum,
    Function,
    Union,
    TypeAlias,
    Impl,
    Namespace,
    Import,
    Static,
}

/// A declaration nested in a foreign-linkage block.
#[derive(Clone, PartialEq, Eq, Debug)]
pub struct ForeignDecl {
    pub directives: Vec<Directive>,
    pub payload: String,
}

/// The mathematical value of a [`ForeignDecl`].
#[verifier::ext_equal]
pub struct ForeignDeclV {
    pub directives: Seq<DirectiveV>,
    pub payload: Seq<char>,
}

impl View for ForeignDecl {
    type V = ForeignDeclV;

    open spec fn view(&self) -> ForeignDeclV {
        ForeignDeclV { directives: self.directives.deep_view(), payload: self.payload@ }
    }
}

impl DeepView for ForeignDecl {
    type V = ForeignDeclV;

    open spec fn deep_view(&self) -> ForeignDeclV {
        self.view()
    }
}

/// A member of a synthesized group: a stripped ordinary declaration or a
/// stripped foreign declaration.
#[derive(Clone, PartialEq, Eq, Debug)]
pub enum GroupMember {
    Regular { kind: DeclKind, directives: Vec<Directive>, payload: String },
    Foreign { decl: ForeignDecl },
}

/// The mathematical value of a [`GroupMember`].
#[verifier::ext_equal]
pub enum GroupMemberV {
    Regular { kind: DeclKind, directives: Seq<DirectiveV>, payload: Seq<char> },
    Foreign { decl: ForeignDeclV },
}

impl View for GroupMember {
    type V = GroupMemberV;

    open spec fn view(&self) -> GroupMemberV {
        match self {
            GroupMember::Regular { kind, directives, payload } => GroupMemberV::Regular {
                kind: *kind,
                directives: directives.deep_view(),
                payload: payload@,
            },
            GroupMember::Foreign { decl } => GroupMemberV::Foreign { decl: decl.deep_view() },
        }
    }
}

impl DeepView for GroupMember {
    type V = GroupMemberV;

    open spec fn deep_view(&self) -> GroupMemberV {
        self.view()
    }
}

/// A top-level declaration.
///
/// `Regular` declarations carry a directive list and an opaque payload;
/// `ForeignBlock` carries its own directives plus nested foreign
/// declarations; `Opaque` stands for any other construct, passed through
/// untouched. `SyntheticNamespace` and `WildcardReexport` are the forms the
/// grouping pass emits: a namespace named by the group key, gated by the
/// group's conditional directives (wrapping its members in a single
/// foreign-linkage block when the linkage class is non-empty), and the
/// accompanying gated re-export of the namespace's contents.
#[derive(Clone, PartialEq, Eq, Debug)]
pub enum Decl {
    Regular { kind: DeclKind, directives: Vec<Directive>, payload: String },
    ForeignBlock { directives: Vec<Directive>, members: Vec<ForeignDecl> },
    Opaque { payload: String },
    SyntheticNamespace {
        name: String,
        conditionals: Vec<Directive>,
        linkages: Vec<Directive>,
        members: Vec<GroupMember>,
    },
    WildcardReexport { name: String, conditionals: Vec<Directive> },
}

/// The mathematical value of a [`Decl`].
#[verifier::ext_equal]
pub enum DeclV {
    Regular { kind: DeclKind, directives: Seq<DirectiveV>, payload: Seq<char> },
    ForeignBlock { directives: Seq<DirectiveV>, members: Seq<ForeignDeclV> },
    Opaque { payload: Seq<char> },
    SyntheticNamespace {
        name: Seq<char>,
        conditionals: Seq<DirectiveV>,
        linkages: Seq<DirectiveV>,
        members: Seq<GroupMemberV>,
    },
    WildcardReexport { name: Seq<char>, conditionals: Seq<DirectiveV> },
}

impl View for Decl {
    type V = DeclV;

    open spec fn view(&self) -> DeclV {
        match self {
            Decl::Regular { kind, directives, payload } => DeclV::Regular {
                kind: *kind,
                directives: directives.deep_view(),
                payload: payload@,
            },
            Decl::ForeignBlock { directives, members } => DeclV::ForeignBlock {
                directives: directives.deep_view(),
                members: members.deep_view(),
            },
            Decl::Opaque { payload } => DeclV::Opaque { payload: payload@ },
            Decl::SyntheticNamespace { name, conditionals, linkages, members } => DeclV::SyntheticNamespace {
                name: name@,
                conditionals: conditionals.deep_view(),
                linkages: linkages.deep_view(),
                members: members.deep_view(),
            },
            Decl::WildcardReexport { name, conditionals } => DeclV::WildcardReexport {
                name: name@,
                conditionals: conditionals.deep_view(),
            },
        }
    }
}

impl DeepView for Decl {
    type V = DeclV;

    open spec fn deep_view(&self) -> DeclV {
        self.view()
    }
}

} // verus!
