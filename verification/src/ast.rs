//! The query tree.
//!
//! A query is a list of statements.  A statement holds zero or more verbs
//! (a bare identifier, a `filter(...)` call with named pattern parameters,
//! or the `forced` marker) and an optional nested scope of further
//! statements.  A statement with no verb and no scope is meaningless and is
//! never produced by the parser.

use vstd::prelude::*;
use crate::patterns::Pattern;

verus! {

/// One named parameter of a `filter(...)` verb: the parameter name and the
/// compiled pattern it carries.
#[derive(Debug)]
pub struct NamedParameter {
    pub name: String,
    pub pattern: Pattern,
}

/// The abstract value of a [`NamedParameter`]: the pattern by its text.
pub struct NamedParameterView {
    pub name: Seq<char>,
    pub pattern: Seq<char>,
}

impl View for NamedParameter {
    type V = NamedParameterView;

    open spec fn view(&self) -> NamedParameterView {
        NamedParameterView { name: self.name@, pattern: self.pattern.src() }
    }
}

/// One verb: its identifier and its named parameters.
#[derive(Debug)]
pub struct Verb {
    pub ident: String,
    pub params: Vec<NamedParameter>,
}

/// The abstract value of a [`Verb`].
pub struct VerbView {
    pub ident: Seq<char>,
    pub params: Seq<NamedParameterView>,
}

impl View for Verb {
    type V = VerbView;

    open spec fn view(&self) -> VerbView {
        VerbView {
            ident: self.ident@,
            params: self.params@.map_values(|p: NamedParameter| p@),
        }
    }
}

/// The abstract values of a verb list.
pub open spec fn verb_views(v: Seq<Verb>) -> Seq<VerbView> {
    v.map_values(|x: Verb| x@)
}

/// A nested scope: the statements between one pair of braces.
#[derive(Debug)]
pub struct Scope {
    pub statements: Vec<Statement>,
}

/// One statement: its verbs and its optional scope.
#[derive(Debug)]
pub struct Statement {
    pub verbs: Vec<Verb>,
    pub scope: Option<Scope>,
}

/// The abstract value of a [`Scope`].
pub struct ScopeView {
    pub statements: Seq<StatementView>,
}

/// The abstract value of a [`Statement`].
pub struct StatementView {
    pub verbs: Seq<VerbView>,
    pub scope: Option<ScopeView>,
}

/// The abstract value of a statement list.
pub open spec fn stmts_view(v: Seq<Statement>) -> Seq<StatementView>
    decreases v,
{
    if v.len() == 0 {
        Seq::empty()
    } else {
        seq![stmt_view(v[0])] + stmts_view(v.drop_first())
    }
}

/// The abstract value of one statement.
pub open spec fn stmt_view(s: Statement) -> StatementView
    decreases s,
{
    StatementView {
        verbs: verb_views(s.verbs@),
        scope: match s.scope {
            Some(sc) => Some(ScopeView { statements: stmts_view(sc.statements@) }),
            None => None,
        },
    }
}

/// `stmts_view` maps `stmt_view` over the list.
pub proof fn lemma_stmts_view(v: Seq<Statement>)
    ensures
        stmts_view(v).len() == v.len(),
        forall|i: int| 0 <= i < v.len() ==> #[trigger] stmts_view(v)[i] == stmt_view(v[i]),
    decreases v.len(),
{
    if v.len() > 0 {
        lemma_stmts_view(v.drop_first());
        assert forall|i: int|
            0 <= i < v.len() implies #[trigger] stmts_view(v)[i] == stmt_view(v[i]) by {
            if i > 0 {
                assert(stmts_view(v)[i] == stmts_view(v.drop_first())[i - 1]);
                assert(v.drop_first()[i - 1] == v[i]);
            }
        }
    }
}

} // verus!
