//! The query text parser.
//!
//! The grammar, written as the recursive-descent specification below:
//!
//! ```text
//! query      :=  statements EOF
//! statements :=  ( statement | ";" )*          (ends at "}" or EOF)
//! statement  :=  verb+ scope? | scope
//! verb       :=  "@" ident params?             (no space between "@" and ident)
//! params     :=  "(" ident "=" quoted ("," ident "=" quoted)* ")"
//! quoted     :=  '"' pattern-characters '"'    (any character but the quote)
//! scope      :=  "{" statements "}"
//! ident      :=  [A-Za-z_][A-Za-z0-9_]*
//! ```
//!
//! Whitespace may stand between tokens.  A quoted pattern must be a regular
//! expression that compiles; one that does not is rejected where it stands.
//! The executable parser is proved to return exactly what the specification
//! parser returns, error positions included.

use vstd::prelude::*;
use vstd::string::{StrSliceExecFns, StringExecFns};
use crate::ast::{NamedParameter, NamedParameterView, Verb, VerbView, Scope, ScopeView, Statement, StatementView, verb_views, stmt_view, stmts_view, lemma_stmts_view};
use crate::patterns::{Pattern, regex_ok};

verus! {

/// The outcome of one specification-level parse step: the parsed value and
/// the position after it, or the position of the offending character.
pub enum Parsed<T> {
    Good { value: T, next: int },
    Bad { at: int },
}

/// A rejected query: the index of the character at which parsing stopped.
#[derive(Debug, Clone, Copy, PartialEq, Eq, Structural)]
pub struct ParseError {
    pub at: usize,
}

/// Whitespace between tokens.
pub open spec fn is_ws(c: char) -> bool {
    c == ' ' || c == '\n' || c == '\t' || c == '\r'
}

/// The character an identifier may start with.
pub open spec fn is_ident_start(c: char) -> bool {
    ('a' <= c && c <= 'z') || ('A' <= c && c <= 'Z') || c == '_'
}

/// The characters an identifier may continue with.
pub open spec fn is_ident_char(c: char) -> bool {
    is_ident_start(c) || ('0' <= c && c <= '9')
}

/// How many whitespace characters stand at position `i`.
pub open spec fn ws_count(s: Seq<char>, i: int) -> nat
    decreases s.len() - i,
{
    if 0 <= i < s.len() && is_ws(s[i]) {
        1 + ws_count(s, i + 1)
    } else {
        0
    }
}

/// The first non-whitespace position at or after `i`.
pub open spec fn sp_ws(s: Seq<char>, i: int) -> int {
    i + ws_count(s, i)
}

/// How many identifier characters stand at position `i`.
pub open spec fn ident_count(s: Seq<char>, i: int) -> nat
    decreases s.len() - i,
{
    if 0 <= i < s.len() && is_ident_char(s[i]) {
        1 + ident_count(s, i + 1)
    } else {
        0
    }
}

/// The position after the identifier characters starting at `i`.
pub open spec fn sp_ident_end(s: Seq<char>, i: int) -> int {
    i + ident_count(s, i)
}

/// How many characters before the next quote (or the end) from `i` on.
pub open spec fn quote_count(s: Seq<char>, i: int) -> nat
    decreases s.len() - i,
{
    if 0 <= i < s.len() && s[i] != '"' {
        1 + quote_count(s, i + 1)
    } else {
        0
    }
}

/// The position of the next quote at or after `i`, or the end of the text.
pub open spec fn sp_quote_end(s: Seq<char>, i: int) -> int {
    i + quote_count(s, i)
}

/// The scanners never run past the end of the text.
pub proof fn lemma_scan_bounds(s: Seq<char>, i: int)
    requires
        0 <= i <= s.len(),
    ensures
        i <= sp_ws(s, i) <= s.len(),
        i <= sp_ident_end(s, i) <= s.len(),
        i <= sp_quote_end(s, i) <= s.len(),
    decreases s.len() - i,
{
    if i < s.len() {
        lemma_scan_bounds(s, i + 1);
    }
}

/// The named parameters of a `filter(...)` verb, from just after the opening
/// parenthesis.
pub open spec fn sp_params_list(
    s: Seq<char>,
    i: int,
    acc: Seq<NamedParameterView>,
) -> Parsed<Seq<NamedParameterView>>
    decreases s.len() - i,
{
    let k = sp_ws(s, i);
    if !(k < s.len() && is_ident_start(s[k])) {
        Parsed::Bad { at: k }
    } else {
        let e = sp_ident_end(s, k);
        let name = s.subrange(k, e);
        let k2 = sp_ws(s, e);
        if !(k2 < s.len() && s[k2] == '=') {
            Parsed::Bad { at: k2 }
        } else {
            let k3 = sp_ws(s, k2 + 1);
            if !(k3 < s.len() && s[k3] == '"') {
                Parsed::Bad { at: k3 }
            } else {
                let q = sp_quote_end(s, k3 + 1);
                if !(q < s.len()) {
                    Parsed::Bad { at: q }
                } else {
                    let pat = s.subrange(k3 + 1, q);
                    if !regex_ok(pat) {
                        Parsed::Bad { at: k3 }
                    } else {
                        let acc2 = acc.push(NamedParameterView { name, pattern: pat });
                        let k4 = sp_ws(s, q + 1);
                        if k4 < s.len() && s[k4] == ',' {
                            sp_params_list(s, k4 + 1, acc2)
                        } else if k4 < s.len() && s[k4] == ')' {
                            Parsed::Good { value: acc2, next: k4 + 1 }
                        } else {
                            Parsed::Bad { at: k4 }
                        }
                    }
                }
            }
        }
    }
}

/// A parameter list never ends before the position it started at.
pub proof fn lemma_sp_params_bounds(s: Seq<char>, i: int, acc: Seq<NamedParameterView>)
    requires
        0 <= i <= s.len(),
    ensures
        sp_params_list(s, i, acc) matches Parsed::Good { next, .. } ==> i < next <= s.len(),
        sp_params_list(s, i, acc) matches Parsed::Bad { at } ==> 0 <= at <= s.len(),
    decreases s.len() - i,
{
    lemma_scan_bounds(s, i);
    let k = sp_ws(s, i);
    if k < s.len() && is_ident_start(s[k]) {
        lemma_scan_bounds(s, k);
        let e = sp_ident_end(s, k);
        lemma_scan_bounds(s, e);
        let k2 = sp_ws(s, e);
        if k2 < s.len() && s[k2] == '=' {
            lemma_scan_bounds(s, k2 + 1);
            let k3 = sp_ws(s, k2 + 1);
            if k3 < s.len() && s[k3] == '"' {
                lemma_scan_bounds(s, k3 + 1);
                let q = sp_quote_end(s, k3 + 1);
                if q < s.len() {
                    lemma_scan_bounds(s, q + 1);
                    let k4 = sp_ws(s, q + 1);
                    if k4 < s.len() && s[k4] == ',' {
                        let pat = s.subrange(k3 + 1, q);
                        if regex_ok(pat) {
                            let acc2 = acc.push(NamedParameterView { name: s.subrange(k, e), pattern: pat });
                            lemma_sp_params_bounds(s, k4 + 1, acc2);
                        }
                    }
                }
            }
        }
    }
}

/// One verb: `@`, the identifier, and an optional parameter list.
pub open spec fn sp_verb(s: Seq<char>, i: int) -> Parsed<VerbView> {
    if !(0 <= i < s.len() && s[i] == '@') {
        Parsed::Bad { at: i }
    } else {
        let j = i + 1;
        if !(j < s.len() && is_ident_start(s[j])) {
            Parsed::Bad { at: j }
        } else {
            let e = sp_ident_end(s, j);
            let ident = s.subrange(j, e);
            if e < s.len() && s[e] == '(' {
                match sp_params_list(s, e + 1, Seq::empty()) {
                    Parsed::Good { value, next } => Parsed::Good {
                        value: VerbView { ident, params: value },
                        next,
                    },
                    Parsed::Bad { at } => Parsed::Bad { at },
                }
            } else {
                Parsed::Good { value: VerbView { ident, params: Seq::empty() }, next: e }
            }
        }
    }
}

/// A parsed verb ends after the position it started at.
pub proof fn lemma_sp_verb_bounds(s: Seq<char>, i: int)
    requires
        0 <= i <= s.len(),
    ensures
        sp_verb(s, i) matches Parsed::Good { next, .. } ==> i < next <= s.len(),
        sp_verb(s, i) matches Parsed::Bad { at } ==> 0 <= at <= s.len(),
{
    if 0 <= i < s.len() && s[i] == '@' && i + 1 < s.len() && is_ident_start(s[i + 1]) {
        lemma_scan_bounds(s, i + 1);
        let e = sp_ident_end(s, i + 1);
        if e < s.len() && s[e] == '(' {
            lemma_sp_params_bounds(s, e + 1, Seq::empty());
        }
    }
}

/// The whitespace-separated verbs at the head of a statement.
pub open spec fn sp_verbs_list(s: Seq<char>, i: int, acc: Seq<VerbView>) -> Parsed<Seq<VerbView>>
    decreases s.len() - i,
    via sp_verbs_list_decreases
{
    let k = sp_ws(s, i);
    if k < s.len() && s[k] == '@' {
        match sp_verb(s, k) {
            Parsed::Good { value, next } => {
                let n2 = if k < next && next <= s.len() {
                    next
                } else {
                    k + 1
                };
                sp_verbs_list(s, n2, acc.push(value))
            },
            Parsed::Bad { at } => Parsed::Bad { at },
        }
    } else {
        Parsed::Good { value: acc, next: k }
    }
}

#[via_fn]
proof fn sp_verbs_list_decreases(s: Seq<char>, i: int, acc: Seq<VerbView>) {
    if 0 <= i <= s.len() {
        lemma_scan_bounds(s, i);
    }
}

/// A verb list never moves backwards, and its verbs consume text.
pub proof fn lemma_sp_verbs_bounds(s: Seq<char>, i: int, acc: Seq<VerbView>)
    requires
        0 <= i <= s.len(),
    ensures
        sp_verbs_list(s, i, acc) matches Parsed::Good { next, .. } ==> i <= next <= s.len(),
        sp_verbs_list(s, i, acc) matches Parsed::Bad { at } ==> 0 <= at <= s.len(),
    decreases s.len() - i,
{
    lemma_scan_bounds(s, i);
    let k = sp_ws(s, i);
    if k < s.len() && s[k] == '@' {
        lemma_sp_verb_bounds(s, k);
        match sp_verb(s, k) {
            Parsed::Good { value, next } => {
                lemma_sp_verbs_bounds(s, next, acc.push(value));
            },
            Parsed::Bad { .. } => {},
        }
    }
}

/// The statements between braces or at the top level, ending at `}` or at
/// the end of the text; stray semicolons are allowed.
pub open spec fn sp_statements_list(
    s: Seq<char>,
    i: int,
    acc: Seq<StatementView>,
) -> Parsed<Seq<StatementView>>
    decreases s.len() - i, 1int,
    via sp_statements_list_decreases
{
    let k = sp_ws(s, i);
    if !(k < s.len()) || s[k] == '}' {
        Parsed::Good { value: acc, next: k }
    } else if s[k] == ';' {
        sp_statements_list(s, k + 1, acc)
    } else {
        match sp_statement(s, k) {
            Parsed::Good { value, next } => {
                let n2 = if k < next && next <= s.len() {
                    next
                } else {
                    k + 1
                };
                sp_statements_list(s, n2, acc.push(value))
            },
            Parsed::Bad { at } => Parsed::Bad { at },
        }
    }
}

#[via_fn]
proof fn sp_statements_list_decreases(s: Seq<char>, i: int, acc: Seq<StatementView>) {
    if 0 <= i <= s.len() {
        lemma_scan_bounds(s, i);
    }
}

/// One statement: its verbs, then an optional braced scope; a statement with
/// neither is rejected.
pub open spec fn sp_statement(s: Seq<char>, i: int) -> Parsed<StatementView>
    decreases s.len() - i, 0int,
    via sp_statement_decreases
{
    match sp_verbs_list(s, i, Seq::empty()) {
        Parsed::Good { value: verbs, next: n } => {
            if n < s.len() && s[n] == '{' {
                match sp_statements_list(s, n + 1, Seq::empty()) {
                    Parsed::Good { value: stmts, next: m } => {
                        if m < s.len() && s[m] == '}' {
                            Parsed::Good {
                                value: StatementView {
                                    verbs,
                                    scope: Some(ScopeView { statements: stmts }),
                                },
                                next: m + 1,
                            }
                        } else {
                            Parsed::Bad { at: m }
                        }
                    },
                    Parsed::Bad { at } => Parsed::Bad { at },
                }
            } else if verbs.len() == 0 {
                Parsed::Bad { at: n }
            } else {
                Parsed::Good { value: StatementView { verbs, scope: None }, next: n }
            }
        },
        Parsed::Bad { at } => Parsed::Bad { at },
    }
}

#[via_fn]
proof fn sp_statement_decreases(s: Seq<char>, i: int) {
    if 0 <= i <= s.len() {
        lemma_sp_verbs_bounds(s, i, Seq::empty());
    }
}

/// A parsed statement consumes text; a statement list never moves backwards.
pub proof fn lemma_sp_statement_bounds(s: Seq<char>, i: int)
    requires
        0 <= i <= s.len(),
    ensures
        sp_statement(s, i) matches Parsed::Good { next, .. } ==> i < next <= s.len(),
        sp_statement(s, i) matches Parsed::Bad { at } ==> 0 <= at <= s.len(),
    decreases s.len() - i, 0int,
{
    lemma_sp_verbs_bounds(s, i, Seq::empty());
    match sp_verbs_list(s, i, Seq::empty()) {
        Parsed::Good { value: verbs, next: n } => {
            if n < s.len() && s[n] == '{' {
                lemma_sp_statements_bounds(s, n + 1, Seq::empty());
            } else {
                // a nonempty verb list moved the position forward
                if verbs.len() > 0 {
                    lemma_sp_verbs_consume(s, i, Seq::empty());
                }
            }
        },
        Parsed::Bad { .. } => {},
    }
}

/// A verb list that parsed at least one verb moved the position forward.
pub proof fn lemma_sp_verbs_consume(s: Seq<char>, i: int, acc: Seq<VerbView>)
    requires
        0 <= i <= s.len(),
    ensures
        sp_verbs_list(s, i, acc) matches Parsed::Good { value, next } ==> (value.len() > acc.len()
            ==> i < next) && value.len() >= acc.len(),
    decreases s.len() - i,
{
    lemma_scan_bounds(s, i);
    let k = sp_ws(s, i);
    if k < s.len() && s[k] == '@' {
        lemma_sp_verb_bounds(s, k);
        match sp_verb(s, k) {
            Parsed::Good { value, next } => {
                lemma_sp_verbs_consume(s, next, acc.push(value));
                lemma_sp_verbs_bounds(s, next, acc.push(value));
            },
            Parsed::Bad { .. } => {},
        }
    }
}

/// Statement lists never move backwards.
pub proof fn lemma_sp_statements_bounds(s: Seq<char>, i: int, acc: Seq<StatementView>)
    requires
        0 <= i <= s.len(),
    ensures
        sp_statements_list(s, i, acc) matches Parsed::Good { next, .. } ==> i <= next <= s.len(),
        sp_statements_list(s, i, acc) matches Parsed::Bad { at } ==> 0 <= at <= s.len(),
    decreases s.len() - i, 1int,
{
    lemma_scan_bounds(s, i);
    let k = sp_ws(s, i);
    if k < s.len() && s[k] != '}' {
        if s[k] == ';' {
            lemma_sp_statements_bounds(s, k + 1, acc);
        } else {
            lemma_sp_statement_bounds(s, k);
            match sp_statement(s, k) {
                Parsed::Good { value, next } => {
                    lemma_sp_statements_bounds(s, next, acc.push(value));
                },
                Parsed::Bad { .. } => {},
            }
        }
    }
}

/// A whole query: statements running to the end of the text.
pub open spec fn sp_query(s: Seq<char>) -> Parsed<Seq<StatementView>> {
    match sp_statements_list(s, 0, Seq::empty()) {
        Parsed::Good { value, next } => {
            if next < s.len() {
                Parsed::Bad { at: next }
            } else {
                Parsed::Good { value, next }
            }
        },
        Parsed::Bad { at } => Parsed::Bad { at },
    }
}


/// Whitespace, decided in executable code.
fn is_ws_e(c: char) -> (r: bool)
    ensures
        r == is_ws(c),
{
    c == ' ' || c == '\n' || c == '\t' || c == '\r'
}

/// An identifier's first character, decided in executable code.
fn is_ident_start_e(c: char) -> (r: bool)
    ensures
        r == is_ident_start(c),
{
    ('a' <= c && c <= 'z') || ('A' <= c && c <= 'Z') || c == '_'
}

/// An identifier's later characters, decided in executable code.
fn is_ident_char_e(c: char) -> (r: bool)
    ensures
        r == is_ident_char(c),
{
    is_ident_start_e(c) || ('0' <= c && c <= '9')
}

/// Skips whitespace from `i` on.
fn p_ws(s: &str, i: usize) -> (r: usize)
    requires
        i <= s@.len(),
    ensures
        r as int == sp_ws(s@, i as int),
        i <= r <= s@.len(),
{
    let n = s.unicode_len();
    let mut j = i;
    loop
        invariant
            i <= j <= n,
            n == s@.len(),
            sp_ws(s@, j as int) == sp_ws(s@, i as int),
        ensures
            i <= j <= n,
            sp_ws(s@, j as int) == sp_ws(s@, i as int),
            ws_count(s@, j as int) == 0,
        decreases n - j,
    {
        if j >= n {
            break;
        }
        if !is_ws_e(s.get_char(j)) {
            break;
        }
        j = j + 1;
    }
    j
}

/// The end of the identifier characters from `i` on.
fn p_ident_end(s: &str, i: usize) -> (r: usize)
    requires
        i <= s@.len(),
    ensures
        r as int == sp_ident_end(s@, i as int),
        i <= r <= s@.len(),
{
    let n = s.unicode_len();
    let mut j = i;
    loop
        invariant
            i <= j <= n,
            n == s@.len(),
            sp_ident_end(s@, j as int) == sp_ident_end(s@, i as int),
        ensures
            i <= j <= n,
            sp_ident_end(s@, j as int) == sp_ident_end(s@, i as int),
            ident_count(s@, j as int) == 0,
        decreases n - j,
    {
        if j >= n {
            break;
        }
        if !is_ident_char_e(s.get_char(j)) {
            break;
        }
        j = j + 1;
    }
    j
}

/// The next quote at or after `i`, or the end of the text.
fn p_quote_end(s: &str, i: usize) -> (r: usize)
    requires
        i <= s@.len(),
    ensures
        r as int == sp_quote_end(s@, i as int),
        i <= r <= s@.len(),
{
    let n = s.unicode_len();
    let mut j = i;
    loop
        invariant
            i <= j <= n,
            n == s@.len(),
            sp_quote_end(s@, j as int) == sp_quote_end(s@, i as int),
        ensures
            i <= j <= n,
            sp_quote_end(s@, j as int) == sp_quote_end(s@, i as int),
            quote_count(s@, j as int) == 0,
        decreases n - j,
    {
        if j >= n {
            break;
        }
        if s.get_char(j) == '"' {
            break;
        }
        j = j + 1;
    }
    j
}

/// The characters between two positions, as an owned string.
fn p_slice(s: &str, a: usize, b: usize) -> (r: String)
    requires
        a <= b <= s@.len(),
    ensures
        r@ == s@.subrange(a as int, b as int),
{
    String::from_str(s.substring_char(a, b))
}

/// One parameter list, from just after the opening parenthesis.
fn p_params(s: &str, i: usize) -> (r: Result<(Vec<NamedParameter>, usize), ParseError>)
    requires
        i <= s@.len(),
    ensures
        match r {
            Ok((ps, n)) => sp_params_list(s@, i as int, Seq::empty()) == (Parsed::Good {
                value: ps@.map_values(|p: NamedParameter| p@),
                next: n as int,
            }) && i < n <= s@.len(),
            Err(e) => sp_params_list(s@, i as int, Seq::empty()) == (
            Parsed::<Seq<NamedParameterView>>::Bad { at: e.at as int }),
        },
{
    let n_len = s.unicode_len();
    let mut acc: Vec<NamedParameter> = Vec::new();
    let mut cur = i;
    proof {
        assert(acc@.map_values(|p: NamedParameter| p@) =~= Seq::<NamedParameterView>::empty());
    }
    loop
        invariant
            i <= cur <= n_len,
            n_len == s@.len(),
            sp_params_list(s@, cur as int, acc@.map_values(|p: NamedParameter| p@))
                == sp_params_list(s@, i as int, Seq::empty()),
        decreases s@.len() - cur,
    {
        let ghost acc_v = acc@.map_values(|p: NamedParameter| p@);
        let k = p_ws(s, cur);
        if !(k < n_len && is_ident_start_e(s.get_char(k))) {
            return Err(ParseError { at: k });
        }
        let e = p_ident_end(s, k);
        let name = p_slice(s, k, e);
        let k2 = p_ws(s, e);
        if !(k2 < n_len && s.get_char(k2) == '=') {
            return Err(ParseError { at: k2 });
        }
        let k3 = p_ws(s, k2 + 1);
        if !(k3 < n_len && s.get_char(k3) == '"') {
            return Err(ParseError { at: k3 });
        }
        let q = p_quote_end(s, k3 + 1);
        if !(q < n_len) {
            return Err(ParseError { at: q });
        }
        let pat_text = p_slice(s, k3 + 1, q);
        let ghost pat_view = pat_text@;
        let compiled = Pattern::new(pat_text);
        match compiled {
            Some(p) => {
                acc.push(NamedParameter { name, pattern: p });
                proof {
                    assert(acc@.map_values(|p2: NamedParameter| p2@) =~= acc_v.push(
                        NamedParameterView {
                            name: s@.subrange(k as int, e as int),
                            pattern: pat_view,
                        },
                    ));
                }
                let k4 = p_ws(s, q + 1);
                if k4 < n_len && s.get_char(k4) == ',' {
                    cur = k4 + 1;
                } else if k4 < n_len && s.get_char(k4) == ')' {
                    return Ok((acc, k4 + 1));
                } else {
                    return Err(ParseError { at: k4 });
                }
            },
            None => {
                return Err(ParseError { at: k3 });
            },
        }
    }
}

/// One verb, starting at its `@`.
fn p_verb(s: &str, i: usize) -> (r: Result<(Verb, usize), ParseError>)
    requires
        i <= s@.len(),
    ensures
        match r {
            Ok((v, n)) => sp_verb(s@, i as int) == (Parsed::Good { value: v@, next: n as int })
                && i < n <= s@.len(),
            Err(e) => sp_verb(s@, i as int) == (Parsed::<VerbView>::Bad { at: e.at as int }),
        },
{
    let n_len = s.unicode_len();
    if !(i < n_len && s.get_char(i) == '@') {
        return Err(ParseError { at: i });
    }
    let j = i + 1;
    if !(j < n_len && is_ident_start_e(s.get_char(j))) {
        return Err(ParseError { at: j });
    }
    let e = p_ident_end(s, j);
    let ident = p_slice(s, j, e);
    if e < n_len && s.get_char(e) == '(' {
        match p_params(s, e + 1) {
            Ok((ps, n)) => {
                let v = Verb { ident, params: ps };
                proof {
                    assert(v@.params == v.params@.map_values(|p: NamedParameter| p@));
                }
                Ok((v, n))
            },
            Err(er) => Err(er),
        }
    } else {
        let v = Verb { ident, params: Vec::new() };
        proof {
            assert(v@.params =~= Seq::<NamedParameterView>::empty());
        }
        Ok((v, e))
    }
}

/// One statement, starting at its first verb or scope brace.
fn p_statement(s: &str, i: usize) -> (r: Result<(Statement, usize), ParseError>)
    requires
        i <= s@.len(),
    ensures
        match r {
            Ok((st, n)) => sp_statement(s@, i as int) == (Parsed::Good {
                value: stmt_view(st),
                next: n as int,
            }) && i < n <= s@.len(),
            Err(e) => sp_statement(s@, i as int) == (Parsed::<StatementView>::Bad {
                at: e.at as int,
            }),
        },
    decreases s@.len() - i, 0int,
{
    let n_len = s.unicode_len();
    let mut verbs: Vec<Verb> = Vec::new();
    let mut cur = i;
    proof {
        assert(verb_views(verbs@) =~= Seq::<VerbView>::empty());
    }
    let mut stop: usize = i;
    loop
        invariant
            i <= cur <= n_len,
            n_len == s@.len(),
            sp_verbs_list(s@, cur as int, verb_views(verbs@)) == sp_verbs_list(
                s@,
                i as int,
                Seq::empty(),
            ),
        ensures
            i <= stop <= n_len,
            sp_verbs_list(s@, i as int, Seq::empty()) == (Parsed::Good {
                value: verb_views(verbs@),
                next: stop as int,
            }),
        decreases s@.len() - cur,
    {
        let ghost verbs_v = verb_views(verbs@);
        let k = p_ws(s, cur);
        if k < n_len && s.get_char(k) == '@' {
            match p_verb(s, k) {
                Ok((v, nn)) => {
                    verbs.push(v);
                    proof {
                        assert(verb_views(verbs@) =~= verbs_v.push(v@));
                    }
                    cur = nn;
                },
                Err(er) => {
                    return Err(er);
                },
            }
        } else {
            stop = k;
            break;
        }
    }
    if stop < n_len && s.get_char(stop) == '{' {
        match p_statements(s, stop + 1) {
            Ok((stmts, m)) => {
                if m < n_len && s.get_char(m) == '}' {
                    let st = Statement { verbs, scope: Some(Scope { statements: stmts }) };
                    Ok((st, m + 1))
                } else {
                    Err(ParseError { at: m })
                }
            },
            Err(er) => Err(er),
        }
    } else if verbs.len() == 0 {
        Err(ParseError { at: stop })
    } else {
        proof {
            lemma_sp_verbs_consume(s@, i as int, Seq::empty());
        }
        let st = Statement { verbs, scope: None };
        Ok((st, stop))
    }
}

/// A statement list, ending at `}` or at the end of the text.
fn p_statements(s: &str, i: usize) -> (r: Result<(Vec<Statement>, usize), ParseError>)
    requires
        i <= s@.len(),
    ensures
        match r {
            Ok((sts, n)) => sp_statements_list(s@, i as int, Seq::empty()) == (Parsed::Good {
                value: stmts_view(sts@),
                next: n as int,
            }) && i <= n <= s@.len(),
            Err(e) => sp_statements_list(s@, i as int, Seq::empty()) == (Parsed::<
                Seq<StatementView>,
            >::Bad { at: e.at as int }),
        },
    decreases s@.len() - i, 1int,
{
    let n_len = s.unicode_len();
    let mut acc: Vec<Statement> = Vec::new();
    let mut cur = i;
    proof {
        assert(stmts_view(acc@) =~= Seq::<StatementView>::empty());
    }
    loop
        invariant
            i <= cur <= n_len,
            n_len == s@.len(),
            sp_statements_list(s@, cur as int, stmts_view(acc@)) == sp_statements_list(
                s@,
                i as int,
                Seq::empty(),
            ),
        decreases s@.len() - cur,
    {
        let ghost acc_v = stmts_view(acc@);
        let k = p_ws(s, cur);
        if !(k < n_len) {
            return Ok((acc, k));
        }
        let c = s.get_char(k);
        if c == '}' {
            return Ok((acc, k));
        }
        if c == ';' {
            cur = k + 1;
        } else {
            match p_statement(s, k) {
                Ok((st, nn)) => {
                    proof {
                        lemma_push_stmts_view(acc@, st);
                    }
                    acc.push(st);
                    cur = nn;
                },
                Err(er) => {
                    return Err(er);
                },
            }
        }
    }
}

/// Appending a statement appends its view.
proof fn lemma_push_stmts_view(v: Seq<Statement>, st: Statement)
    ensures
        stmts_view(v.push(st)) == stmts_view(v).push(stmt_view(st)),
{
    lemma_stmts_view(v.push(st));
    lemma_stmts_view(v);
    assert(stmts_view(v.push(st)) =~= stmts_view(v).push(stmt_view(st)));
}

/// Parses a whole query into its statement list, or reports the position of
/// the first offending character.  Succeeds exactly on the well-formed
/// queries of the grammar whose quoted patterns compile.
pub fn parse_ast(source: &str) -> (r: Result<Vec<Statement>, ParseError>)
    ensures
        match r {
            Ok(sts) => sp_query(source@) == (Parsed::Good {
                value: stmts_view(sts@),
                next: source@.len() as int,
            }),
            Err(e) => sp_query(source@) == (Parsed::<Seq<StatementView>>::Bad {
                at: e.at as int,
            }),
        },
{
    match p_statements(source, 0) {
        Ok((sts, n)) => {
            if n < source.unicode_len() {
                Err(ParseError { at: n })
            } else {
                Ok(sts)
            }
        },
        Err(e) => Err(e),
    }
}

} // verus!
