//! Search query language and evaluation.
//!
//! Supported syntax:
//! - **Implicit AND**: `error timeout` matches rows containing both.
//! - **Operators**: `AND`, `OR`, `NOT` (ASCII case-insensitive) and
//!   parentheses.
//! - **Phrases**: `"disk full"` matches the literal substring with its spaces.
//! - **Regex**: `/error\d+/`, evaluated by the byte-level `regex` engine.
//! - **Column scope**: `host:web01` restricts a term to the `host` column and
//!   `#1:web01` to the column with index 1. A `name:` prefix is a scope only
//!   when `name` is a known column, so `12:34:56` stays literal.
//!
//! Plain terms match ASCII case-insensitively; regex terms follow the
//! pattern's own flags. Evaluation runs against raw record bytes: global terms
//! scan the whole record, scoped terms one field.

use vstd::prelude::*;
use vstd::utf8::encode_utf8;
use vstd::slice::slice_to_vec;
use vstd::string::StringExecFns;
use crate::encoding::{ascii_icontains, ascii_lower, folded_contains, to_ascii_lower};
use crate::error::NexusError;
use crate::pattern::{compile_regex, regex_accepts, regex_error_text, regex_is_match, regex_matches, CompiledRegex};
use crate::parser::{field_range_items, unquote_borrowed, unquoted, FieldRanges};
use crate::schema::string_views;
use crate::text::{
    chars_eq, is_white_space, lower_chars, lower_vec, parse_usize, parsed_usize, str_chars,
    string_from_chars, upper_chars, upper_vec, white_space,
};

verus! {

// ---------------------------------------------------------------------------
// Tokens
// ---------------------------------------------------------------------------

enum Tok {
    LParen,
    RParen,
    And,
    Or,
    Not,
    Term(Vec<char>),
}

/// A query token.
pub enum QueryToken {
    LParen,
    RParen,
    And,
    Or,
    Not,
    Term(Seq<char>),
}

spec fn tok_view(t: Tok) -> QueryToken {
    match t {
        Tok::LParen => QueryToken::LParen,
        Tok::RParen => QueryToken::RParen,
        Tok::And => QueryToken::And,
        Tok::Or => QueryToken::Or,
        Tok::Not => QueryToken::Not,
        Tok::Term(v) => QueryToken::Term(v@),
    }
}

spec fn toks_view(v: Seq<Tok>) -> Seq<QueryToken> {
    Seq::new(v.len(), |i: int| tok_view(v[i]))
}

/// Inside a quoted phrase starting at `i`: the position of the closing quote,
/// or the end of the input.
pub open spec fn phrase_end(c: Seq<char>, i: int) -> int
    decreases c.len() - i,
{
    if i >= c.len() {
        c.len() as int
    } else if c[i] == '"' {
        i
    } else {
        phrase_end(c, i + 1)
    }
}

/// The end of a bare word scanned from `i`. A `/` outside a quoted region and
/// a `"` toggle regions in which white space and parentheses are word data.
pub open spec fn word_end(c: Seq<char>, i: int, in_regex: bool, in_quote: bool) -> int
    decreases c.len() - i,
{
    if i >= c.len() {
        c.len() as int
    } else if c[i] == '"' {
        word_end(c, i + 1, in_regex, !in_quote)
    } else if c[i] == '/' && !in_quote {
        word_end(c, i + 1, !in_regex, in_quote)
    } else if in_regex || in_quote {
        word_end(c, i + 1, in_regex, in_quote)
    } else if white_space(c[i]) || c[i] == '(' || c[i] == ')' {
        i
    } else {
        word_end(c, i + 1, in_regex, in_quote)
    }
}

pub proof fn lemma_phrase_end_bounds(c: Seq<char>, i: int)
    requires
        0 <= i <= c.len(),
    ensures
        i <= phrase_end(c, i) <= c.len(),
        phrase_end(c, i) < c.len() ==> c[phrase_end(c, i)] == '"',
    decreases c.len() - i,
{
    if i < c.len() && c[i] != '"' {
        lemma_phrase_end_bounds(c, i + 1);
    }
}

pub proof fn lemma_word_end_bounds(c: Seq<char>, i: int, in_regex: bool, in_quote: bool)
    requires
        0 <= i <= c.len(),
    ensures
        i <= word_end(c, i, in_regex, in_quote) <= c.len(),
    decreases c.len() - i,
{
    if i < c.len() {
        lemma_word_end_bounds(c, i + 1, in_regex, !in_quote);
        lemma_word_end_bounds(c, i + 1, !in_regex, in_quote);
        lemma_word_end_bounds(c, i + 1, in_regex, in_quote);
    }
}

/// A bare word is an operator when it spells `AND`, `OR` or `NOT` in any
/// ASCII case; a term otherwise.
pub open spec fn word_token(w: Seq<char>) -> QueryToken {
    if upper_chars(w) == "AND"@ {
        QueryToken::And
    } else if upper_chars(w) == "OR"@ {
        QueryToken::Or
    } else if upper_chars(w) == "NOT"@ {
        QueryToken::Not
    } else {
        QueryToken::Term(w)
    }
}

/// The tokens of the input from position `i` on.
pub open spec fn tokens_from(c: Seq<char>, i: int) -> Seq<QueryToken>
    decreases c.len() - i,
{
    if i < 0 || i >= c.len() {
        seq![]
    } else if white_space(c[i]) {
        tokens_from(c, i + 1)
    } else if c[i] == '(' {
        seq![QueryToken::LParen] + tokens_from(c, i + 1)
    } else if c[i] == ')' {
        seq![QueryToken::RParen] + tokens_from(c, i + 1)
    } else if c[i] == '"' {
        let e = phrase_end(c, i + 1);
        proof {
            lemma_phrase_end_bounds(c, i + 1);
        }
        seq![QueryToken::Term(c.subrange(i + 1, e))] + tokens_from(
            c,
            if e < c.len() { e + 1 } else { e },
        )
    } else {
        let e = word_end(c, i, false, false);
        proof {
            lemma_word_end_bounds(c, i + 1, false, false);
            lemma_word_end_bounds(c, i + 1, true, false);
            lemma_word_end_bounds(c, i + 1, false, true);
        }
        if e > i {
            seq![word_token(c.subrange(i, e))] + tokens_from(c, e)
        } else {
            seq![]
        }
    }
}

/// The tokens of a query string.
pub open spec fn tokens(input: Seq<char>) -> Seq<QueryToken> {
    tokens_from(input, 0)
}

/// White space alone yields no tokens.
pub proof fn lemma_blank_has_no_tokens(c: Seq<char>, i: int)
    requires
        0 <= i,
        forall|k: int| i <= k < c.len() ==> white_space(#[trigger] c[k]),
    ensures
        tokens_from(c, i).len() == 0,
    decreases c.len() - i,
{
    if i < c.len() {
        lemma_blank_has_no_tokens(c, i + 1);
    }
}

fn scan_phrase_end(c: &[char], i: usize) -> (res: usize)
    requires
        i <= c@.len(),
    ensures
        res == phrase_end(c@, i as int),
{
    let mut j = i;
    while j < c.len() && c[j] != '"'
        invariant
            i <= j <= c@.len(),
            phrase_end(c@, j as int) == phrase_end(c@, i as int),
        decreases c@.len() - j,
    {
        j += 1;
    }
    j
}

fn scan_word_end(c: &[char], i: usize) -> (res: usize)
    requires
        i <= c@.len(),
    ensures
        res == word_end(c@, i as int, false, false),
{
    let mut j = i;
    let mut in_regex = false;
    let mut in_quote = false;
    while j < c.len()
        invariant_except_break
            word_end(c@, j as int, in_regex, in_quote) == word_end(c@, i as int, false, false),
        invariant
            i <= j <= c@.len(),
        ensures
            j == word_end(c@, i as int, false, false),
        decreases c@.len() - j,
    {
        let ch = c[j];
        if ch == '"' {
            in_quote = !in_quote;
            j += 1;
        } else if ch == '/' && !in_quote {
            in_regex = !in_regex;
            j += 1;
        } else if in_regex || in_quote {
            j += 1;
        } else if is_white_space(ch) || ch == '(' || ch == ')' {
            break;
        } else {
            j += 1;
        }
    }
    j
}

fn make_word_token(w: Vec<char>) -> (res: Tok)
    ensures
        tok_view(res) == word_token(w@),
{
    let up = upper_vec(w.as_slice());
    if chars_eq(up.as_slice(), str_chars("AND").as_slice()) {
        Tok::And
    } else if chars_eq(up.as_slice(), str_chars("OR").as_slice()) {
        Tok::Or
    } else if chars_eq(up.as_slice(), str_chars("NOT").as_slice()) {
        Tok::Not
    } else {
        Tok::Term(w)
    }
}

fn tokenize(input: &str) -> (res: Vec<Tok>)
    ensures
        toks_view(res@) == tokens(input@),
{
    let chars = str_chars(input);
    let c = chars.as_slice();
    let n = c.len();
    let mut toks: Vec<Tok> = Vec::new();
    let mut i: usize = 0;
    proof {
        assert(toks_view(toks@) + tokens_from(c@, 0) =~= tokens(input@));
    }
    while i < n
        invariant
            i <= n,
            n == c@.len(),
            c@ == input@,
            toks_view(toks@) + tokens_from(c@, i as int) == tokens(input@),
        decreases n - i,
    {
        let ghost before = toks_view(toks@);
        let ch = c[i];
        if is_white_space(ch) {
            i += 1;
        } else if ch == '(' {
            toks.push(Tok::LParen);
            proof {
                assert(toks_view(toks@) =~= before.push(QueryToken::LParen));
                assert(before + tokens_from(c@, i as int) =~= toks_view(toks@) + tokens_from(
                    c@,
                    i + 1,
                ));
            }
            i += 1;
        } else if ch == ')' {
            toks.push(Tok::RParen);
            proof {
                assert(toks_view(toks@) =~= before.push(QueryToken::RParen));
                assert(before + tokens_from(c@, i as int) =~= toks_view(toks@) + tokens_from(
                    c@,
                    i + 1,
                ));
            }
            i += 1;
        } else if ch == '"' {
            let e = scan_phrase_end(c, i + 1);
            proof {
                lemma_phrase_end_bounds(c@, i + 1);
            }
            let term = slice_to_vec(&c[i + 1..e]);
            let next = if e < n { e + 1 } else { e };
            toks.push(Tok::Term(term));
            proof {
                assert(toks_view(toks@) =~= before.push(QueryToken::Term(c@.subrange(i + 1, e as int))));
                assert(before + tokens_from(c@, i as int) =~= toks_view(toks@) + tokens_from(
                    c@,
                    next as int,
                ));
            }
            i = next;
        } else {
            let e = scan_word_end(c, i);
            proof {
                lemma_word_end_bounds(c@, i + 1, false, false);
                lemma_word_end_bounds(c@, i + 1, true, false);
                lemma_word_end_bounds(c@, i + 1, false, true);
                assert(e > i);
            }
            let word = slice_to_vec(&c[i..e]);
            let tok = make_word_token(word);
            toks.push(tok);
            proof {
                assert(toks_view(toks@) =~= before.push(word_token(c@.subrange(i as int, e as int))));
                assert(before + tokens_from(c@, i as int) =~= toks_view(toks@) + tokens_from(
                    c@,
                    e as int,
                ));
            }
            i = e;
        }
    }
    proof {
        assert(tokens_from(c@, n as int) =~= Seq::<QueryToken>::empty());
        assert(toks_view(toks@) + Seq::<QueryToken>::empty() =~= toks_view(toks@));
    }
    toks
}


// ---------------------------------------------------------------------------
// Query trees
// ---------------------------------------------------------------------------

enum Node {
    And(Box<Node>, Box<Node>),
    Or(Box<Node>, Box<Node>),
    Not(Box<Node>),
    /// Case-insensitive substring; `needle` is pre-lowercased.
    Substr { col: Option<usize>, needle: Vec<u8> },
    Regex { col: Option<usize>, re: CompiledRegex },
    /// Empty query: matches everything.
    Always,
}

/// The meaning of a compiled query.
pub enum QueryNode {
    And(Box<QueryNode>, Box<QueryNode>),
    Or(Box<QueryNode>, Box<QueryNode>),
    Not(Box<QueryNode>),
    /// The (ASCII-lower-cased) bytes `needle` occur, ASCII case folded, in the
    /// record or in field `col`.
    Substr { col: Option<usize>, needle: Seq<u8> },
    /// The regex built from `pattern` matches the record or field `col`.
    Regex { col: Option<usize>, pattern: Seq<char> },
    /// Matches every record.
    Always,
}

spec fn node_view(n: Node) -> QueryNode
    decreases n,
{
    match n {
        Node::And(a, b) => QueryNode::And(Box::new(node_view(*a)), Box::new(node_view(*b))),
        Node::Or(a, b) => QueryNode::Or(Box::new(node_view(*a)), Box::new(node_view(*b))),
        Node::Not(a) => QueryNode::Not(Box::new(node_view(*a))),
        Node::Substr { col, needle } => QueryNode::Substr { col, needle: needle@ },
        Node::Regex { col, re } => QueryNode::Regex { col, pattern: re.pattern() },
        Node::Always => QueryNode::Always,
    }
}

/// Whether any term of the query is restricted to a column.
pub open spec fn node_scoped(n: QueryNode) -> bool
    decreases n,
{
    match n {
        QueryNode::And(a, b) => node_scoped(*a) || node_scoped(*b),
        QueryNode::Or(a, b) => node_scoped(*a) || node_scoped(*b),
        QueryNode::Not(a) => node_scoped(*a),
        QueryNode::Substr { col, .. } => col is Some,
        QueryNode::Regex { col, .. } => col is Some,
        QueryNode::Always => false,
    }
}

// ---------------------------------------------------------------------------
// Terms
// ---------------------------------------------------------------------------

/// `name` and `column` are equal up to ASCII case, compared as UTF-8 bytes.
pub open spec fn names_match(column: Seq<char>, name: Seq<char>) -> bool {
    let a = encode_utf8(column);
    let b = encode_utf8(name);
    a.len() == b.len() && forall|k: int| 0 <= k < a.len() ==> ascii_lower(#[trigger] a[k]) == ascii_lower(b[k])
}

/// The first column named `name` (up to ASCII case), from index `k` on.
pub open spec fn column_named(cols: Seq<Seq<char>>, name: Seq<char>, k: int) -> Option<usize>
    decreases cols.len() - k,
{
    if k < 0 || k >= cols.len() {
        None
    } else if names_match(cols[k], name) {
        Some(k as usize)
    } else {
        column_named(cols, name, k + 1)
    }
}

/// The position of the first `:` in `s`, if any.
pub open spec fn first_colon(s: Seq<char>, k: int) -> Option<int>
    decreases s.len() - k,
{
    if k < 0 || k >= s.len() {
        None
    } else if s[k] == ':' {
        Some(k)
    } else {
        first_colon(s, k + 1)
    }
}

/// Split `name:value` into a column index and the value. `name` is `#N`
/// (a column index below the column count) or a column name; otherwise, or
/// when the value is empty, the whole term is an unscoped value.
pub open spec fn split_scope(raw: Seq<char>, cols: Seq<Seq<char>>) -> (Option<usize>, Seq<char>) {
    match first_colon(raw, 0) {
        Some(idx) => {
            let name = raw.subrange(0, idx);
            let value = raw.subrange(idx + 1, raw.len() as int);
            let by_index = if name.len() > 0 && name[0] == '#' {
                match parsed_usize(name.drop_first()) {
                    Some(c) => if c < cols.len() {
                        Some(c)
                    } else {
                        None
                    },
                    None => None,
                }
            } else {
                None
            };
            if value.len() == 0 {
                (None, raw)
            } else if by_index is Some {
                (by_index, value)
            } else {
                match column_named(cols, name, 0) {
                    Some(c) => (Some(c), value),
                    None => (None, raw),
                }
            }
        },
        None => (None, raw),
    }
}

/// One pair of surrounding double quotes removed, if present.
pub open spec fn strip_quotes(v: Seq<char>) -> Seq<char> {
    if v.len() >= 2 && v[0] == '"' && v[v.len() - 1] == '"' {
        v.subrange(1, v.len() - 1)
    } else {
        v
    }
}

/// The inner pattern of a `/pattern/` value.
pub open spec fn regex_form(v: Seq<char>) -> Option<Seq<char>> {
    if v.len() >= 2 && v[0] == '/' && v[v.len() - 1] == '/' {
        Some(v.subrange(1, v.len() - 1))
    } else {
        None
    }
}

/// The leaf a term compiles to; `None` when its regex does not compile.
pub open spec fn term_node(raw: Seq<char>, cols: Seq<Seq<char>>) -> Option<QueryNode> {
    let (col, v0) = split_scope(raw, cols);
    let v = strip_quotes(v0);
    match regex_form(v) {
        Some(p) => if regex_accepts(p) {
            Some(QueryNode::Regex { col, pattern: p })
        } else {
            None
        },
        None => Some(QueryNode::Substr { col, needle: encode_utf8(lower_chars(v)) }),
    }
}

// ---------------------------------------------------------------------------
// Grammar
//   or      := and ( OR and )*
//   and     := unary ( (AND)? unary )*      (implicit AND between terms)
//   unary   := NOT unary | primary
//   primary := '(' or ')' | term
// Each parse yields the tree and the position after it, or `None` on a
// syntax error or an uncompilable regex.
// ---------------------------------------------------------------------------

pub open spec fn parse_or(t: Seq<QueryToken>, pos: int, cols: Seq<Seq<char>>) -> Option<(QueryNode, int)>
    decreases t.len() - pos, 6int,
{
    match parse_and(t, pos, cols) {
        Some((lhs, p)) => if pos < p <= t.len() {
            or_rest(t, lhs, p, cols)
        } else {
            None
        },
        None => None,
    }
}

pub open spec fn or_rest(t: Seq<QueryToken>, lhs: QueryNode, pos: int, cols: Seq<Seq<char>>) -> Option<(QueryNode, int)>
    decreases t.len() - pos, 5int,
{
    if 0 <= pos < t.len() && t[pos] is Or {
        match parse_and(t, pos + 1, cols) {
            Some((rhs, p)) => if pos < p <= t.len() {
                or_rest(t, QueryNode::Or(Box::new(lhs), Box::new(rhs)), p, cols)
            } else {
                None
            },
            None => None,
        }
    } else {
        Some((lhs, pos))
    }
}

pub open spec fn parse_and(t: Seq<QueryToken>, pos: int, cols: Seq<Seq<char>>) -> Option<(QueryNode, int)>
    decreases t.len() - pos, 4int,
{
    match parse_unary(t, pos, cols) {
        Some((lhs, p)) => if pos < p <= t.len() {
            and_rest(t, lhs, p, cols)
        } else {
            None
        },
        None => None,
    }
}

pub open spec fn and_rest(t: Seq<QueryToken>, lhs: QueryNode, pos: int, cols: Seq<Seq<char>>) -> Option<(QueryNode, int)>
    decreases t.len() - pos, 3int,
{
    if 0 <= pos < t.len() && t[pos] is And {
        match parse_unary(t, pos + 1, cols) {
            Some((rhs, p)) => if pos < p <= t.len() {
                and_rest(t, QueryNode::And(Box::new(lhs), Box::new(rhs)), p, cols)
            } else {
                None
            },
            None => None,
        }
    } else if 0 <= pos < t.len() && (t[pos] is Not || t[pos] is Term || t[pos] is LParen) {
        match parse_unary(t, pos, cols) {
            Some((rhs, p)) => if pos < p <= t.len() {
                and_rest(t, QueryNode::And(Box::new(lhs), Box::new(rhs)), p, cols)
            } else {
                None
            },
            None => None,
        }
    } else {
        Some((lhs, pos))
    }
}

pub open spec fn parse_unary(t: Seq<QueryToken>, pos: int, cols: Seq<Seq<char>>) -> Option<(QueryNode, int)>
    decreases t.len() - pos, 2int,
{
    if 0 <= pos < t.len() && t[pos] is Not {
        match parse_unary(t, pos + 1, cols) {
            Some((inner, p)) => Some((QueryNode::Not(Box::new(inner)), p)),
            None => None,
        }
    } else {
        parse_primary(t, pos, cols)
    }
}

pub open spec fn parse_primary(t: Seq<QueryToken>, pos: int, cols: Seq<Seq<char>>) -> Option<(QueryNode, int)>
    decreases t.len() - pos, 1int,
{
    if pos < 0 || pos >= t.len() {
        None
    } else {
        match t[pos] {
            QueryToken::LParen => match parse_or(t, pos + 1, cols) {
                Some((inner, p)) => if 0 <= p < t.len() && t[p] is RParen {
                    Some((inner, p + 1))
                } else {
                    None
                },
                None => None,
            },
            QueryToken::Term(w) => match term_node(w, cols) {
                Some(n) => Some((n, pos + 1)),
                None => None,
            },
            _ => None,
        }
    }
}

/// The tree a query string compiles to against column names `cols`, or
/// `None` when it is malformed. An empty (or all white-space) query matches
/// everything.
pub open spec fn compiled(input: Seq<char>, cols: Seq<Seq<char>>) -> Option<QueryNode> {
    let t = tokens(input);
    if t.len() == 0 {
        Some(QueryNode::Always)
    } else {
        match parse_or(t, 0, cols) {
            Some((n, p)) => if p == t.len() {
                Some(n)
            } else {
                None
            },
            None => None,
        }
    }
}

// ---------------------------------------------------------------------------
// Evaluation
// ---------------------------------------------------------------------------

/// The unquoted bytes of field `col` of `line`, when ranges are at hand and
/// the field exists.
pub open spec fn field_slice(line: Seq<u8>, fields: Option<Seq<(usize, usize)>>, col: usize, quote: u8) -> Option<Seq<u8>> {
    match fields {
        Some(f) => if col < f.len() {
            Some(unquoted(line.subrange(f[col as int].0 as int, f[col as int].1 as int), quote))
        } else {
            None
        },
        None => None,
    }
}

/// Whether a query tree matches a record.
pub open spec fn node_matches(n: QueryNode, line: Seq<u8>, fields: Option<Seq<(usize, usize)>>, quote: u8) -> bool
    decreases n,
{
    match n {
        QueryNode::And(a, b) => node_matches(*a, line, fields, quote) && node_matches(*b, line, fields, quote),
        QueryNode::Or(a, b) => node_matches(*a, line, fields, quote) || node_matches(*b, line, fields, quote),
        QueryNode::Not(a) => !node_matches(*a, line, fields, quote),
        QueryNode::Always => true,
        QueryNode::Substr { col, needle } => match col {
            None => folded_contains(line, needle),
            Some(c) => match field_slice(line, fields, c, quote) {
                Some(fb) => folded_contains(fb, needle),
                None => false,
            },
        },
        QueryNode::Regex { col, pattern } => match col {
            None => regex_is_match(pattern, line),
            Some(c) => match field_slice(line, fields, c, quote) {
                Some(fb) => regex_is_match(pattern, fb),
                None => false,
            },
        },
    }
}

/// Every range lies within `line`.
pub open spec fn ranges_within(f: Seq<(usize, usize)>, len: int) -> bool {
    forall|k: int| 0 <= k < f.len() ==> (#[trigger] f[k]).0 <= f[k].1 <= len
}

/// A compiled, reusable search predicate.
pub struct Query {
    root: Node,
    /// True when any term is column-scoped, so the evaluator must split the
    /// record into fields first.
    has_scoped: bool,
}

impl Query {
    #[verifier::type_invariant]
    spec fn inv(&self) -> bool {
        self.has_scoped == node_scoped(node_view(self.root))
    }

    /// What the query means.
    pub closed spec fn tree(&self) -> QueryNode {
        node_view(self.root)
    }

    /// Compile a query string against the dataset's `columns` (used to
    /// resolve `name:` scopes ASCII case-insensitively).
    pub fn compile(input: &str, columns: &[String]) -> (res: Result<Query, NexusError>)
        ensures
            match compiled(input@, string_views(columns@)) {
                Some(n) => res matches Ok(q) && q.tree() == n,
                None => res matches Err(NexusError::InvalidQuery(_)),
            },
    {
        let tokens = tokenize(input);
        if tokens.len() == 0 {
            return Ok(Query { root: Node::Always, has_scoped: false });
        }
        let ghost cols = string_views(columns@);
        let ghost t = toks_view(tokens@);
        match parse_or_exec(&tokens, 0, columns) {
            Ok((root, p)) => {
                if p != tokens.len() {
                    return Err(
                        NexusError::InvalidQuery(
                            "unexpected trailing tokens (check parentheses)".to_owned(),
                        ),
                    );
                }
                let has_scoped = scoped(&root);
                Ok(Query { root, has_scoped })
            },
            Err(e) => Err(e),
        }
    }

    /// Does this query touch column-scoped terms? When false the evaluator
    /// can skip field splitting entirely.
    pub fn has_scoped(&self) -> (res: bool)
        ensures
            res == node_scoped(self.tree()),
    {
        proof {
            use_type_invariant(self);
        }
        self.has_scoped
    }

    /// If this query is exactly one substring term, global or column-scoped,
    /// return its column and ASCII-lower-cased needle (the case the Bloom
    /// index accelerates). Boolean and regex queries return `None`.
    pub fn single_substring(&self) -> (res: Option<(Option<usize>, &[u8])>)
        ensures
            match self.tree() {
                QueryNode::Substr { col, needle } => res matches Some((c, n)) && c == col && n@
                    == needle,
                _ => res is None,
            },
    {
        match &self.root {
            Node::Substr { col, needle } => Some((*col, needle.as_slice())),
            _ => None,
        }
    }

    /// Evaluate against a single record. `line` is the record bytes (line
    /// terminators already trimmed); `fields`, when given, are its field
    /// ranges. Scoped terms need `fields`; without them they do not match.
    pub fn matches(&self, line: &[u8], fields: Option<&FieldRanges>, quote: u8) -> (res: bool)
        requires
            fields matches Some(f) ==> ranges_within(field_range_items(*f), line@.len() as int),
        ensures
            res == node_matches(
                self.tree(),
                line@,
                match fields {
                    Some(f) => Some(field_range_items(*f)),
                    None => None,
                },
                quote,
            ),
    {
        eval(&self.root, line, fields, quote)
    }
}

fn eval(node: &Node, line: &[u8], fields: Option<&FieldRanges>, quote: u8) -> (res: bool)
    requires
        fields matches Some(f) ==> ranges_within(field_range_items(*f), line@.len() as int),
    ensures
        res == node_matches(
            node_view(*node),
            line@,
            match fields {
                Some(f) => Some(field_range_items(*f)),
                None => None,
            },
            quote,
        ),
    decreases node,
{
    match node {
        Node::And(a, b) => eval(a, line, fields, quote) && eval(b, line, fields, quote),
        Node::Or(a, b) => eval(a, line, fields, quote) || eval(b, line, fields, quote),
        Node::Not(a) => !eval(a, line, fields, quote),
        Node::Always => true,
        Node::Substr { col, needle } => match col {
            None => ascii_icontains(line, needle.as_slice()),
            Some(c) => match field_bytes(line, fields, *c, quote) {
                Some(fb) => ascii_icontains(fb, needle.as_slice()),
                None => false,
            },
        },
        Node::Regex { col, re } => match col {
            None => regex_matches(re, line),
            Some(c) => match field_bytes(line, fields, *c, quote) {
                Some(fb) => regex_matches(re, fb),
                None => false,
            },
        },
    }
}

/// Resolve a scoped column index to its (unquoted) field byte slice.
fn field_bytes<'a>(line: &'a [u8], fields: Option<&FieldRanges>, col: usize, quote: u8) -> (res: Option<&'a [u8]>)
    requires
        fields matches Some(f) ==> ranges_within(field_range_items(*f), line@.len() as int),
    ensures
        match field_slice(
            line@,
            match fields {
                Some(f) => Some(field_range_items(*f)),
                None => None,
            },
            col,
            quote,
        ) {
            Some(s) => res matches Some(r) && r@ == s,
            None => res is None,
        },
{
    match fields {
        None => None,
        Some(f) => match f.get(col) {
            Some((s, e)) => {
                proof {
                    assert(field_range_items(*f)[col as int] == (s, e));
                }
                Some(unquote_borrowed(&line[s..e], quote))
            },
            None => None,
        },
    }
}

fn scoped(n: &Node) -> (res: bool)
    ensures
        res == node_scoped(node_view(*n)),
    decreases n,
{
    match n {
        Node::And(a, b) => scoped(a) || scoped(b),
        Node::Or(a, b) => scoped(a) || scoped(b),
        Node::Not(a) => scoped(a),
        Node::Substr { col, .. } => col.is_some(),
        Node::Regex { col, .. } => col.is_some(),
        Node::Always => false,
    }
}

// ---------------------------------------------------------------------------
// Executable parser
// ---------------------------------------------------------------------------

fn invalid(msg: &str) -> (res: NexusError)
    ensures
        res is InvalidQuery,
{
    NexusError::InvalidQuery(msg.to_owned())
}

fn parse_or_exec(t: &Vec<Tok>, pos: usize, columns: &[String]) -> (res: Result<(Node, usize), NexusError>)
    requires
        pos <= t@.len(),
    ensures
        match parse_or(toks_view(t@), pos as int, string_views(columns@)) {
            Some((n, p)) => res matches Ok((node, q)) && node_view(node) == n && q == p && pos < q <= t@.len(),
            None => res matches Err(NexusError::InvalidQuery(_)),
        },
    decreases t@.len() - pos, 6int,
{
    match parse_and_exec(t, pos, columns) {
        Ok((lhs, p)) => or_rest_exec(t, lhs, p, columns),
        Err(e) => Err(e),
    }
}

fn or_rest_exec(t: &Vec<Tok>, lhs: Node, pos: usize, columns: &[String]) -> (res: Result<(Node, usize), NexusError>)
    requires
        0 < pos <= t@.len(),
    ensures
        match or_rest(toks_view(t@), node_view(lhs), pos as int, string_views(columns@)) {
            Some((n, p)) => res matches Ok((node, q)) && node_view(node) == n && q == p && pos <= q <= t@.len(),
            None => res matches Err(NexusError::InvalidQuery(_)),
        },
    decreases t@.len() - pos, 5int,
{
    if pos < t.len() {
        match &t[pos] {
            Tok::Or => {
                assert(toks_view(t@)[pos as int] is Or);
                match parse_and_exec(t, pos + 1, columns) {
                    Ok((rhs, p)) => {
                        let node = Node::Or(Box::new(lhs), Box::new(rhs));
                        or_rest_exec(t, node, p, columns)
                    },
                    Err(e) => Err(e),
                }
            },
            _ => {
                assert(!(toks_view(t@)[pos as int] is Or));
                Ok((lhs, pos))
            },
        }
    } else {
        Ok((lhs, pos))
    }
}

fn parse_and_exec(t: &Vec<Tok>, pos: usize, columns: &[String]) -> (res: Result<(Node, usize), NexusError>)
    requires
        pos <= t@.len(),
    ensures
        match parse_and(toks_view(t@), pos as int, string_views(columns@)) {
            Some((n, p)) => res matches Ok((node, q)) && node_view(node) == n && q == p && pos < q <= t@.len(),
            None => res matches Err(NexusError::InvalidQuery(_)),
        },
    decreases t@.len() - pos, 4int,
{
    match parse_unary_exec(t, pos, columns) {
        Ok((lhs, p)) => and_rest_exec(t, lhs, p, columns),
        Err(e) => Err(e),
    }
}

fn and_rest_exec(t: &Vec<Tok>, lhs: Node, pos: usize, columns: &[String]) -> (res: Result<(Node, usize), NexusError>)
    requires
        0 < pos <= t@.len(),
    ensures
        match and_rest(toks_view(t@), node_view(lhs), pos as int, string_views(columns@)) {
            Some((n, p)) => res matches Ok((node, q)) && node_view(node) == n && q == p && pos <= q <= t@.len(),
            None => res matches Err(NexusError::InvalidQuery(_)),
        },
    decreases t@.len() - pos, 3int,
{
    if pos < t.len() {
        let ghost tv = toks_view(t@);
        match &t[pos] {
            Tok::And => {
                assert(tv[pos as int] is And);
                match parse_unary_exec(t, pos + 1, columns) {
                    Ok((rhs, p)) => {
                        let node = Node::And(Box::new(lhs), Box::new(rhs));
                        and_rest_exec(t, node, p, columns)
                    },
                    Err(e) => Err(e),
                }
            },
            Tok::Not | Tok::Term(_) | Tok::LParen => {
                assert(!(tv[pos as int] is And));
                assert(tv[pos as int] is Not || tv[pos as int] is Term || tv[pos as int] is LParen);
                match parse_unary_exec(t, pos, columns) {
                    Ok((rhs, p)) => {
                        let node = Node::And(Box::new(lhs), Box::new(rhs));
                        and_rest_exec(t, node, p, columns)
                    },
                    Err(e) => Err(e),
                }
            },
            _ => {
                assert(!(tv[pos as int] is And || tv[pos as int] is Not || tv[pos as int] is Term || tv[pos as int] is LParen));
                Ok((lhs, pos))
            },
        }
    } else {
        Ok((lhs, pos))
    }
}

fn parse_unary_exec(t: &Vec<Tok>, pos: usize, columns: &[String]) -> (res: Result<(Node, usize), NexusError>)
    requires
        pos <= t@.len(),
    ensures
        match parse_unary(toks_view(t@), pos as int, string_views(columns@)) {
            Some((n, p)) => res matches Ok((node, q)) && node_view(node) == n && q == p && pos < q <= t@.len(),
            None => res matches Err(NexusError::InvalidQuery(_)),
        },
    decreases t@.len() - pos, 2int,
{
    if pos < t.len() {
        if let Tok::Not = &t[pos] {
            assert(toks_view(t@)[pos as int] is Not);
            return match parse_unary_exec(t, pos + 1, columns) {
                Ok((inner, p)) => Ok((Node::Not(Box::new(inner)), p)),
                Err(e) => Err(e),
            };
        }
        assert(!(toks_view(t@)[pos as int] is Not));
    }
    parse_primary_exec(t, pos, columns)
}

fn parse_primary_exec(t: &Vec<Tok>, pos: usize, columns: &[String]) -> (res: Result<(Node, usize), NexusError>)
    requires
        pos <= t@.len(),
    ensures
        match parse_primary(toks_view(t@), pos as int, string_views(columns@)) {
            Some((n, p)) => res matches Ok((node, q)) && node_view(node) == n && q == p && pos < q <= t@.len(),
            None => res matches Err(NexusError::InvalidQuery(_)),
        },
    decreases t@.len() - pos, 1int,
{
    if pos >= t.len() {
        return Err(invalid("unexpected end of query"));
    }
    let ghost tv = toks_view(t@);
    match &t[pos] {
        Tok::LParen => {
            assert(tv[pos as int] is LParen);
            match parse_or_exec(t, pos + 1, columns) {
                Ok((inner, p)) => {
                    if p < t.len() {
                        if let Tok::RParen = &t[p] {
                            assert(tv[p as int] is RParen);
                            return Ok((inner, p + 1));
                        }
                        assert(!(tv[p as int] is RParen));
                    }
                    Err(invalid("missing closing ')'"))
                },
                Err(e) => Err(e),
            }
        },
        Tok::Term(w) => {
            assert(tv[pos as int] == QueryToken::Term(w@));
            match make_term(w.as_slice(), columns) {
                Ok(n) => Ok((n, pos + 1)),
                Err(e) => Err(e),
            }
        },
        Tok::RParen => Err(invalid("unexpected ')'")),
        _ => Err(invalid("operator without operand")),
    }
}

/// Build a leaf node from a term, resolving an optional `column:` scope and
/// the `/regex/` form.
fn make_term(raw: &[char], columns: &[String]) -> (res: Result<Node, NexusError>)
    ensures
        match term_node(raw@, string_views(columns@)) {
            Some(n) => res matches Ok(node) && node_view(node) == n,
            None => res matches Err(NexusError::InvalidQuery(_)),
        },
{
    let (col, value) = split_scope_exec(raw, columns);
    let v = strip_quotes_exec(value.as_slice());
    let n = v.len();
    if n >= 2 && v[0] == '/' && v[n - 1] == '/' {
        let pattern = string_from_chars(&v[1..n - 1]);
        match compile_regex(pattern) {
            Ok(re) => Ok(Node::Regex { col, re }),
            Err(e) => {
                let mut msg = "bad regex: ".to_owned();
                msg.append(regex_error_text(&e).as_str());
                Err(NexusError::InvalidQuery(msg))
            },
        }
    } else {
        let lowered = string_from_chars(lower_vec(v).as_slice());
        let needle = slice_to_vec(lowered.as_str().as_bytes());
        Ok(Node::Substr { col, needle })
    }
}

fn strip_quotes_exec(v: &[char]) -> (res: &[char])
    ensures
        res@ == strip_quotes(v@),
{
    let n = v.len();
    if n >= 2 && v[0] == '"' && v[n - 1] == '"' {
        &v[1..n - 1]
    } else {
        v
    }
}

fn split_scope_exec(raw: &[char], columns: &[String]) -> (res: (Option<usize>, Vec<char>))
    ensures
        res.0 == split_scope(raw@, string_views(columns@)).0,
        res.1@ == split_scope(raw@, string_views(columns@)).1,
{
    let n = raw.len();
    let mut idx: usize = 0;
    while idx < n && raw[idx] != ':'
        invariant
            idx <= n,
            n == raw@.len(),
            first_colon(raw@, idx as int) == first_colon(raw@, 0),
        decreases n - idx,
    {
        idx += 1;
    }
    if idx < n {
        let name = &raw[0..idx];
        let value = &raw[idx + 1..n];
        if value.len() > 0 {
            if name.len() > 0 && name[0] == '#' {
                match parse_usize(&name[1..name.len()]) {
                    Some(c) => {
                        if c < columns.len() {
                            proof {
                                assert(name@.drop_first() =~= name@.subrange(1, name@.len() as int));
                            }
                            return (Some(c), slice_to_vec(value));
                        }
                    },
                    None => {},
                }
                proof {
                    assert(name@.drop_first() =~= name@.subrange(1, name@.len() as int));
                }
            }
            match find_column(columns, name) {
                Some(c) => return (Some(c), slice_to_vec(value)),
                None => {},
            }
        }
    }
    (None, slice_to_vec(raw))
}

/// The first column whose name equals `name` up to ASCII case.
pub(crate) fn find_column(columns: &[String], name: &[char]) -> (res: Option<usize>)
    ensures
        res == column_named(string_views(columns@), name@, 0),
{
    let name_string = string_from_chars(name);
    let nb = name_string.as_str().as_bytes();
    let mut k: usize = 0;
    while k < columns.len()
        invariant
            k <= columns@.len(),
            nb@ == encode_utf8(name@),
            column_named(string_views(columns@), name@, k as int) == column_named(
                string_views(columns@),
                name@,
                0,
            ),
        decreases columns@.len() - k,
    {
        if bytes_fold_eq(columns[k].as_str().as_bytes(), nb) {
            return Some(k);
        }
        k += 1;
    }
    None
}

/// ASCII-case-insensitive equality of two byte strings.
fn bytes_fold_eq(a: &[u8], b: &[u8]) -> (res: bool)
    ensures
        res == (a@.len() == b@.len() && forall|k: int| 0 <= k < a@.len() ==> ascii_lower(#[trigger] a@[k]) == ascii_lower(b@[k])),
{
    if a.len() != b.len() {
        return false;
    }
    let mut i: usize = 0;
    while i < a.len()
        invariant
            i <= a@.len(),
            a@.len() == b@.len(),
            forall|k: int| 0 <= k < i ==> ascii_lower(#[trigger] a@[k]) == ascii_lower(b@[k]),
        decreases a@.len() - i,
    {
        if to_ascii_lower(a[i]) != to_ascii_lower(b[i]) {
            return false;
        }
        i += 1;
    }
    true
}


/// `w` spells the upper-case ASCII word `word` in any mix of cases: each
/// character is the letter itself or its lower-case form.
pub open spec fn spells_in_any_case(w: Seq<char>, word: Seq<char>) -> bool {
    &&& w.len() == word.len()
    &&& forall|i: int|
        0 <= i < w.len() ==> (#[trigger] w[i] == word[i] || (w[i] as u32) == (word[i] as u32) + 32)
}

proof fn lemma_upper_of_spelling(w: Seq<char>, word: Seq<char>)
    requires
        spells_in_any_case(w, word),
        forall|i: int| 0 <= i < word.len() ==> 'A' <= #[trigger] word[i] <= 'Z',
    ensures
        upper_chars(w) == word,
{
    assert forall|i: int| 0 <= i < w.len() implies #[trigger] upper_chars(w)[i] == word[i] by {
        if w[i] != word[i] {
            let u = (w[i] as u32 - 32) as u32;
            assert(u == word[i] as u32);
            vstd::utf8::char_u32_cast(word[i], u);
        }
    }
    assert(upper_chars(w) =~= word);
}

/// The boolean operator words are recognised in any ASCII case: a bare word
/// spelling `AND`, `OR` or `NOT` in any mix of upper and lower case is that
/// operator (so `a or b` is a disjunction, not three search terms).
pub proof fn law_operator_words_in_any_case(w: Seq<char>)
    ensures
        spells_in_any_case(w, "AND"@) ==> word_token(w) == QueryToken::And,
        spells_in_any_case(w, "OR"@) ==> word_token(w) == QueryToken::Or,
        spells_in_any_case(w, "NOT"@) ==> word_token(w) == QueryToken::Not,
{
    reveal_strlit("AND");
    reveal_strlit("OR");
    reveal_strlit("NOT");
    assert("AND"@.len() == 3 && "OR"@.len() == 2 && "NOT"@.len() == 3);
    assert("AND"@[0] == 'A' && "NOT"@[0] == 'N');
    if spells_in_any_case(w, "AND"@) {
        lemma_upper_of_spelling(w, "AND"@);
    }
    if spells_in_any_case(w, "OR"@) {
        lemma_upper_of_spelling(w, "OR"@);
    }
    if spells_in_any_case(w, "NOT"@) {
        lemma_upper_of_spelling(w, "NOT"@);
    }
}

/// The boolean connectives mean what they say on every record: an OR query
/// matches exactly when at least one operand matches (so a record matching
/// both operands matches too), an AND query exactly when both do, and a NOT
/// query exactly when its operand does not.
pub proof fn law_connectives_match_as_boolean_logic(
    a: QueryNode,
    b: QueryNode,
    line: Seq<u8>,
    fields: Option<Seq<(usize, usize)>>,
    quote: u8,
)
    ensures
        node_matches(QueryNode::Or(Box::new(a), Box::new(b)), line, fields, quote) <==> (node_matches(
            a,
            line,
            fields,
            quote,
        ) || node_matches(b, line, fields, quote)),
        node_matches(QueryNode::And(Box::new(a), Box::new(b)), line, fields, quote) <==> (node_matches(
            a,
            line,
            fields,
            quote,
        ) && node_matches(b, line, fields, quote)),
        node_matches(QueryNode::Not(Box::new(a)), line, fields, quote) <==> !node_matches(
            a,
            line,
            fields,
            quote,
        ),
{
}


/// A character that can stand in a bare word and ends no word: neither white
/// space, a parenthesis, a double quote nor a slash.
pub open spec fn plain_char(ch: char) -> bool {
    !white_space(ch) && ch != '(' && ch != ')' && ch != '"' && ch != '/'
}

/// A non-empty run of plain characters.
pub open spec fn plain_word(w: Seq<char>) -> bool {
    w.len() > 0 && forall|j: int| 0 <= j < w.len() ==> plain_char(#[trigger] w[j])
}

proof fn lemma_word_end_plain(c: Seq<char>, i: int, e: int)
    requires
        0 <= i <= e <= c.len(),
        forall|j: int| i <= j < e ==> plain_char(#[trigger] c[j]),
        e == c.len() || white_space(c[e]),
    ensures
        word_end(c, i, false, false) == e,
    decreases e - i,
{
    if i < e {
        lemma_word_end_plain(c, i + 1, e);
    }
}

/// A plain word that runs up to white space or the end is one token.
proof fn lemma_tokens_plain_word(c: Seq<char>, i: int, e: int)
    requires
        0 <= i < e <= c.len(),
        forall|j: int| i <= j < e ==> plain_char(#[trigger] c[j]),
        e == c.len() || white_space(c[e]),
    ensures
        tokens_from(c, i) == seq![word_token(c.subrange(i, e))] + tokens_from(c, e),
{
    assert(plain_char(c[i]));
    lemma_word_end_plain(c, i, e);
}

/// The words of `w1 op w2`, joined by single spaces, are its three tokens.
proof fn lemma_three_word_tokens(w1: Seq<char>, op: Seq<char>, w2: Seq<char>)
    requires
        plain_word(w1),
        plain_word(op),
        plain_word(w2),
    ensures
        tokens(w1 + seq![' '] + op + seq![' '] + w2) == seq![word_token(w1), word_token(op), word_token(w2)],
{
    let q = w1 + seq![' '] + op + seq![' '] + w2;
    let a = w1.len() as int;
    let b = a + 1 + op.len();
    let n = q.len() as int;
    assert(white_space(' '));
    assert(q[a] == ' ');
    assert(q[b] == ' ');
    assert forall|j: int| 0 <= j < a implies plain_char(#[trigger] q[j]) by {
        assert(q[j] == w1[j]);
    }
    assert forall|j: int| a + 1 <= j < b implies plain_char(#[trigger] q[j]) by {
        assert(q[j] == op[j - a - 1]);
    }
    assert forall|j: int| b + 1 <= j < n implies plain_char(#[trigger] q[j]) by {
        assert(q[j] == w2[j - b - 1]);
    }
    lemma_tokens_plain_word(q, 0, a);
    lemma_tokens_plain_word(q, a + 1, b);
    lemma_tokens_plain_word(q, b + 1, n);
    assert(q.subrange(0, a) =~= w1);
    assert(q.subrange(a + 1, b) =~= op);
    assert(q.subrange(b + 1, n) =~= w2);
    assert(tokens_from(q, a) == tokens_from(q, a + 1));
    assert(tokens_from(q, b) == tokens_from(q, b + 1));
    assert(tokens_from(q, n).len() == 0);
    assert(tokens(q) =~= seq![word_token(w1), word_token(op), word_token(w2)]);
}


/// `w` spells one of the operator words in some ASCII case.
pub open spec fn is_operator_word(w: Seq<char>) -> bool {
    upper_chars(w) == "AND"@ || upper_chars(w) == "OR"@ || upper_chars(w) == "NOT"@
}

proof fn lemma_parse_term_or_term(w1: Seq<char>, w2: Seq<char>, cols: Seq<Seq<char>>)
    requires
        term_node(w1, cols) is Some,
        term_node(w2, cols) is Some,
    ensures
        ({
            let t = seq![QueryToken::Term(w1), QueryToken::Or, QueryToken::Term(w2)];
            parse_or(t, 0, cols) == Some(
                (
                    QueryNode::Or(
                        Box::new(term_node(w1, cols)->0),
                        Box::new(term_node(w2, cols)->0),
                    ),
                    3int,
                ),
            )
        }),
{
    let t = seq![QueryToken::Term(w1), QueryToken::Or, QueryToken::Term(w2)];
    let n1 = term_node(w1, cols)->0;
    let n2 = term_node(w2, cols)->0;
    assert(parse_primary(t, 0, cols) == Some((n1, 1int)));
    assert(parse_unary(t, 0, cols) == Some((n1, 1int)));
    assert(and_rest(t, n1, 1, cols) == Some((n1, 1int)));
    assert(parse_and(t, 0, cols) == Some((n1, 1int)));
    assert(parse_primary(t, 2, cols) == Some((n2, 3int)));
    assert(parse_unary(t, 2, cols) == Some((n2, 3int)));
    assert(and_rest(t, n2, 3, cols) == Some((n2, 3int)));
    assert(parse_and(t, 2, cols) == Some((n2, 3int)));
    let both = QueryNode::Or(Box::new(n1), Box::new(n2));
    assert(or_rest(t, both, 3, cols) == Some((both, 3int)));
    assert(or_rest(t, n1, 1, cols) == Some((both, 3int)));
}

/// An OR query matches a record when either side does: for any two plain
/// words that are not operator words and compile to terms, and any spelling
/// of `or` in any case, the query `w1 or w2` compiles, and it matches a record
/// exactly when the record matches `w1`'s term or `w2`'s term — in particular
/// a record holding both terms matches.
pub proof fn law_or_query_matches_either_word(
    w1: Seq<char>,
    op: Seq<char>,
    w2: Seq<char>,
    cols: Seq<Seq<char>>,
    line: Seq<u8>,
    fields: Option<Seq<(usize, usize)>>,
    quote: u8,
)
    requires
        plain_word(w1),
        plain_word(op),
        plain_word(w2),
        spells_in_any_case(op, "OR"@),
        !is_operator_word(w1),
        !is_operator_word(w2),
        term_node(w1, cols) is Some,
        term_node(w2, cols) is Some,
    ensures
        ({
            let q = w1 + seq![' '] + op + seq![' '] + w2;
            &&& compiled(q, cols) is Some
            &&& node_matches(compiled(q, cols)->0, line, fields, quote) <==> (node_matches(
                term_node(w1, cols)->0,
                line,
                fields,
                quote,
            ) || node_matches(term_node(w2, cols)->0, line, fields, quote))
        }),
{
    let q = w1 + seq![' '] + op + seq![' '] + w2;
    lemma_three_word_tokens(w1, op, w2);
    law_operator_words_in_any_case(op);
    assert(word_token(w1) == QueryToken::Term(w1));
    assert(word_token(w2) == QueryToken::Term(w2));
    assert(tokens(q) =~= seq![QueryToken::Term(w1), QueryToken::Or, QueryToken::Term(w2)]);
    lemma_parse_term_or_term(w1, w2, cols);
}


/// Two words joined by one space are its two tokens.
proof fn lemma_two_word_tokens(w1: Seq<char>, w2: Seq<char>)
    requires
        plain_word(w1),
        plain_word(w2),
    ensures
        tokens(w1 + seq![' '] + w2) == seq![word_token(w1), word_token(w2)],
{
    let q = w1 + seq![' '] + w2;
    let a = w1.len() as int;
    let n = q.len() as int;
    assert(white_space(' '));
    assert(q[a] == ' ');
    assert forall|j: int| 0 <= j < a implies plain_char(#[trigger] q[j]) by {
        assert(q[j] == w1[j]);
    }
    assert forall|j: int| a + 1 <= j < n implies plain_char(#[trigger] q[j]) by {
        assert(q[j] == w2[j - a - 1]);
    }
    lemma_tokens_plain_word(q, 0, a);
    lemma_tokens_plain_word(q, a + 1, n);
    assert(q.subrange(0, a) =~= w1);
    assert(q.subrange(a + 1, n) =~= w2);
    assert(tokens_from(q, a) == tokens_from(q, a + 1));
    assert(tokens_from(q, n).len() == 0);
    assert(tokens(q) =~= seq![word_token(w1), word_token(w2)]);
}

proof fn lemma_parse_terms_and(w1: Seq<char>, w2: Seq<char>, cols: Seq<Seq<char>>, explicit: bool)
    requires
        term_node(w1, cols) is Some,
        term_node(w2, cols) is Some,
    ensures
        ({
            let t = if explicit {
                seq![QueryToken::Term(w1), QueryToken::And, QueryToken::Term(w2)]
            } else {
                seq![QueryToken::Term(w1), QueryToken::Term(w2)]
            };
            parse_or(t, 0, cols) == Some(
                (
                    QueryNode::And(
                        Box::new(term_node(w1, cols)->0),
                        Box::new(term_node(w2, cols)->0),
                    ),
                    t.len() as int,
                ),
            )
        }),
{
    let t = if explicit {
        seq![QueryToken::Term(w1), QueryToken::And, QueryToken::Term(w2)]
    } else {
        seq![QueryToken::Term(w1), QueryToken::Term(w2)]
    };
    let n1 = term_node(w1, cols)->0;
    let n2 = term_node(w2, cols)->0;
    let last = t.len() - 1;
    let both = QueryNode::And(Box::new(n1), Box::new(n2));
    assert(parse_primary(t, 0, cols) == Some((n1, 1int)));
    assert(parse_unary(t, 0, cols) == Some((n1, 1int)));
    assert(parse_primary(t, last, cols) == Some((n2, t.len() as int)));
    assert(parse_unary(t, last, cols) == Some((n2, t.len() as int)));
    assert(and_rest(t, both, t.len() as int, cols) == Some((both, t.len() as int)));
    assert(and_rest(t, n1, 1, cols) == Some((both, t.len() as int)));
    assert(parse_and(t, 0, cols) == Some((both, t.len() as int)));
    assert(or_rest(t, both, t.len() as int, cols) == Some((both, t.len() as int)));
}

/// An AND query matches a record only when both sides do: for any two plain
/// words that are not operator words and compile to terms, both `w1 w2`
/// (implicit AND) and `w1 and w2` (the operator in any case) compile, and each
/// matches a record exactly when the record matches both words' terms.
pub proof fn law_and_query_matches_both_words(
    w1: Seq<char>,
    op: Seq<char>,
    w2: Seq<char>,
    cols: Seq<Seq<char>>,
    line: Seq<u8>,
    fields: Option<Seq<(usize, usize)>>,
    quote: u8,
)
    requires
        plain_word(w1),
        plain_word(op),
        plain_word(w2),
        spells_in_any_case(op, "AND"@),
        !is_operator_word(w1),
        !is_operator_word(w2),
        term_node(w1, cols) is Some,
        term_node(w2, cols) is Some,
    ensures
        ({
            let both = node_matches(term_node(w1, cols)->0, line, fields, quote) && node_matches(
                term_node(w2, cols)->0,
                line,
                fields,
                quote,
            );
            let implicit = w1 + seq![' '] + w2;
            let explicit = w1 + seq![' '] + op + seq![' '] + w2;
            &&& compiled(implicit, cols) is Some
            &&& compiled(explicit, cols) is Some
            &&& node_matches(compiled(implicit, cols)->0, line, fields, quote) <==> both
            &&& node_matches(compiled(explicit, cols)->0, line, fields, quote) <==> both
        }),
{
    let implicit = w1 + seq![' '] + w2;
    let explicit = w1 + seq![' '] + op + seq![' '] + w2;
    lemma_two_word_tokens(w1, w2);
    lemma_three_word_tokens(w1, op, w2);
    law_operator_words_in_any_case(op);
    assert(word_token(w1) == QueryToken::Term(w1));
    assert(word_token(w2) == QueryToken::Term(w2));
    assert(tokens(implicit) =~= seq![QueryToken::Term(w1), QueryToken::Term(w2)]);
    assert(tokens(explicit) =~= seq![QueryToken::Term(w1), QueryToken::And, QueryToken::Term(w2)]);
    lemma_parse_terms_and(w1, w2, cols, false);
    lemma_parse_terms_and(w1, w2, cols, true);
}


/// A NOT query matches a record exactly when its operand does not: for a
/// plain word that is not an operator word and compiles to a term, and any
/// spelling of `not` in any case, `not w` compiles and matches a record
/// exactly when the record does not match `w`'s term.
pub proof fn law_not_query_matches_when_word_does_not(
    op: Seq<char>,
    w: Seq<char>,
    cols: Seq<Seq<char>>,
    line: Seq<u8>,
    fields: Option<Seq<(usize, usize)>>,
    quote: u8,
)
    requires
        plain_word(op),
        plain_word(w),
        spells_in_any_case(op, "NOT"@),
        !is_operator_word(w),
        term_node(w, cols) is Some,
    ensures
        ({
            let q = op + seq![' '] + w;
            &&& compiled(q, cols) is Some
            &&& node_matches(compiled(q, cols)->0, line, fields, quote) <==> !node_matches(
                term_node(w, cols)->0,
                line,
                fields,
                quote,
            )
        }),
{
    let q = op + seq![' '] + w;
    lemma_two_word_tokens(op, w);
    law_operator_words_in_any_case(op);
    assert(word_token(w) == QueryToken::Term(w));
    let t = seq![QueryToken::Not, QueryToken::Term(w)];
    assert(tokens(q) =~= t);
    let n = term_node(w, cols)->0;
    let neg = QueryNode::Not(Box::new(n));
    assert(parse_primary(t, 1, cols) == Some((n, 2int)));
    assert(parse_unary(t, 1, cols) == Some((n, 2int)));
    assert(parse_unary(t, 0, cols) == Some((neg, 2int)));
    assert(and_rest(t, neg, 2, cols) == Some((neg, 2int)));
    assert(parse_and(t, 0, cols) == Some((neg, 2int)));
    assert(or_rest(t, neg, 2, cols) == Some((neg, 2int)));
}

} // verus!
