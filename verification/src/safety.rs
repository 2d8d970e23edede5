//! The property DSL: the text of an obligation attribute parsed into
//! structured obligation groups.
//!
//! An attribute body is a semicolon-separated sequence of groups; each group
//! is a sequence of tagged properties, optionally closed by `: "reason"`.
//! A tagged property is `[qualifier.]name`, optionally followed by an
//! argument list in `(...)` or `{...}` whose elements are kept as opaque
//! balanced text. The reserved name `any` groups alternatives. A string
//! literal runs to the next quote: the grammar has no escape form, so a
//! reason cannot itself contain a quote character.
//!
//! The executable lexer and parser are verified against specification-level
//! twins: each public function returns exactly what the spec-level parse of
//! its input denotes.
use crate::configuration::{spec_tag_type_of, TagType};
use crate::strutil::{is_ws, range_to_string, spec_is_ws, spec_trim, trimmed_range_to_string};
use vstd::prelude::*;
use vstd::string::StringExecFns;
use vstd::string::StrSliceExecFns;

verus! {

/// One token of the attribute text. A delimited `(..)`, `{..}` or `[..]`
/// run is one token carrying its opening delimiter and raw inner text.
pub enum Token {
    Ident(String),
    Punct(char),
    StrLit(String),
    Group(char, String),
}

/// The mathematical content of a [`Token`].
pub enum TokenV {
    Ident(Seq<char>),
    Punct(char),
    StrLit(Seq<char>),
    Group(char, Seq<char>),
}

impl View for Token {
    type V = TokenV;

    open spec fn view(&self) -> TokenV {
        match self {
            Token::Ident(s) => TokenV::Ident(s@),
            Token::Punct(c) => TokenV::Punct(*c),
            Token::StrLit(s) => TokenV::StrLit(s@),
            Token::Group(d, s) => TokenV::Group(*d, s@),
        }
    }
}

pub open spec fn spec_is_ident_start(c: char) -> bool {
    ||| ('a' as u32) <= (c as u32) && (c as u32) <= ('z' as u32)
    ||| ('A' as u32) <= (c as u32) && (c as u32) <= ('Z' as u32)
    ||| c == '_'
}

pub open spec fn spec_is_ident_char(c: char) -> bool {
    spec_is_ident_start(c) || (('0' as u32) <= (c as u32) && (c as u32) <= ('9' as u32))
}

pub open spec fn spec_is_punct(c: char) -> bool {
    c == '.' || c == ',' || c == ';' || c == ':' || c == '#'
}

pub open spec fn spec_is_opener(c: char) -> bool {
    c == '(' || c == '{' || c == '['
}

pub open spec fn spec_is_closer(c: char) -> bool {
    c == ')' || c == '}' || c == ']'
}

pub open spec fn spec_closer_of(c: char) -> char {
    if c == '(' {
        ')'
    } else if c == '{' {
        '}'
    } else {
        ']'
    }
}

fn is_ident_start(c: char) -> (r: bool)
    ensures
        r == spec_is_ident_start(c),
{
    let u = c as u32;
    (97 <= u && u <= 122) || (65 <= u && u <= 90) || c == '_'
}

fn is_ident_char(c: char) -> (r: bool)
    ensures
        r == spec_is_ident_char(c),
{
    is_ident_start(c) || { let u = c as u32; 48 <= u && u <= 57 }
}

/// The end of the identifier that starts at `i`.
pub open spec fn spec_ident_end(s: Seq<char>, i: int) -> int
    decreases s.len() - i,
{
    if 0 <= i < s.len() && spec_is_ident_char(s[i]) {
        spec_ident_end(s, i + 1)
    } else {
        i
    }
}

proof fn lemma_ident_end_bounds(s: Seq<char>, i: int)
    requires
        0 <= i <= s.len(),
    ensures
        i <= spec_ident_end(s, i) <= s.len(),
    decreases s.len() - i,
{
    if i < s.len() && spec_is_ident_char(s[i]) {
        lemma_ident_end_bounds(s, i + 1);
    }
}

/// The position of the closing quote of a string literal, scanning from
/// `i`. The literal runs to the next quote character: no escape form.
pub open spec fn spec_find_quote(s: Seq<char>, i: int) -> Option<int>
    decreases s.len() - i,
{
    if i < 0 || i >= s.len() {
        None
    } else if s[i] == '"' {
        Some(i)
    } else {
        spec_find_quote(s, i + 1)
    }
}

proof fn lemma_find_quote_bounds(s: Seq<char>, i: int)
    requires
        0 <= i,
    ensures
        match spec_find_quote(s, i) {
            Some(j) => i <= j < s.len(),
            None => true,
        },
    decreases s.len() - i,
{
    if i < s.len() && s[i] != '"' {
        lemma_find_quote_bounds(s, i + 1);
    }
}

/// The position of the closer that empties the delimiter stack, scanning
/// from `i`; `stack` holds the closers still owed, innermost last, and
/// `in_str` says whether position `i` is inside a string literal.
pub open spec fn spec_scan_group(s: Seq<char>, i: int, stack: Seq<char>, in_str: bool) -> Option<
    int,
>
    decreases s.len() - i,
{
    if i < 0 || i >= s.len() || stack.len() == 0 {
        None
    } else {
        let c = s[i];
        if in_str {
            spec_scan_group(s, i + 1, stack, c != '"')
        } else if c == '"' {
            spec_scan_group(s, i + 1, stack, true)
        } else if spec_is_opener(c) {
            spec_scan_group(s, i + 1, stack.push(spec_closer_of(c)), false)
        } else if spec_is_closer(c) {
            if c == stack.last() {
                if stack.len() == 1 {
                    Some(i)
                } else {
                    spec_scan_group(s, i + 1, stack.drop_last(), false)
                }
            } else {
                None
            }
        } else {
            spec_scan_group(s, i + 1, stack, false)
        }
    }
}

proof fn lemma_scan_group_bounds(s: Seq<char>, i: int, stack: Seq<char>, in_str: bool)
    requires
        0 <= i,
    ensures
        match spec_scan_group(s, i, stack, in_str) {
            Some(j) => i <= j < s.len(),
            None => true,
        },
    decreases s.len() - i,
{
    if i < s.len() && stack.len() > 0 {
        let c = s[i];
        if in_str {
            lemma_scan_group_bounds(s, i + 1, stack, c != '"');
        } else if c == '"' {
            lemma_scan_group_bounds(s, i + 1, stack, true);
        } else if spec_is_opener(c) {
            lemma_scan_group_bounds(s, i + 1, stack.push(spec_closer_of(c)), false);
        } else if spec_is_closer(c) {
            if c == stack.last() && stack.len() > 1 {
                lemma_scan_group_bounds(s, i + 1, stack.drop_last(), false);
            }
        } else {
            lemma_scan_group_bounds(s, i + 1, stack, false);
        }
    }
}

/// What scanning for the next token from position `i` yields.
pub enum NextV {
    /// Only whitespace remains.
    End,
    /// A token, and the position just after it.
    Tok(TokenV, int),
    /// The text is malformed at this point.
    Fail,
}

/// The next token of `s` at or after position `i`.
pub open spec fn spec_next_token(s: Seq<char>, i: int) -> NextV
    decreases s.len() - i,
{
    if i < 0 || i >= s.len() {
        NextV::End
    } else {
        let c = s[i];
        if spec_is_ws(c) {
            spec_next_token(s, i + 1)
        } else if spec_is_ident_start(c) {
            let e = spec_ident_end(s, i + 1);
            NextV::Tok(TokenV::Ident(s.subrange(i, e)), e)
        } else if spec_is_punct(c) {
            NextV::Tok(TokenV::Punct(c), i + 1)
        } else if c == '"' {
            match spec_find_quote(s, i + 1) {
                None => NextV::Fail,
                Some(j) => NextV::Tok(TokenV::StrLit(s.subrange(i + 1, j)), j + 1),
            }
        } else if spec_is_opener(c) {
            match spec_scan_group(s, i + 1, seq![spec_closer_of(c)], false) {
                None => NextV::Fail,
                Some(j) => NextV::Tok(TokenV::Group(c, s.subrange(i + 1, j)), j + 1),
            }
        } else {
            NextV::Fail
        }
    }
}

proof fn lemma_next_token_bounds(s: Seq<char>, i: int)
    requires
        0 <= i,
    ensures
        match spec_next_token(s, i) {
            NextV::Tok(t, j) => i < j <= s.len(),
            _ => true,
        },
    decreases s.len() - i,
{
    if i < s.len() {
        let c = s[i];
        if spec_is_ws(c) {
            lemma_next_token_bounds(s, i + 1);
        } else if spec_is_ident_start(c) {
            lemma_ident_end_bounds(s, i + 1);
        } else if spec_is_punct(c) {
        } else if c == '"' {
            lemma_find_quote_bounds(s, i + 1);
        } else if spec_is_opener(c) {
            lemma_scan_group_bounds(s, i + 1, seq![spec_closer_of(c)], false);
        }
    }
}

/// The token list of `s` from position `i`; `fuel` bounds the number of
/// tokens and is irrelevant once it covers the remaining length.
pub open spec fn spec_lex(s: Seq<char>, i: int, fuel: nat) -> Option<Seq<TokenV>>
    decreases fuel,
{
    match spec_next_token(s, i) {
        NextV::End => Some(Seq::empty()),
        NextV::Fail => None,
        NextV::Tok(t, j) => {
            if fuel == 0 {
                None
            } else {
                match spec_lex(s, j, (fuel - 1) as nat) {
                    None => None,
                    Some(rest) => Some(seq![t] + rest),
                }
            }
        },
    }
}

/// The token list of the whole text, with fuel that always suffices.
pub open spec fn spec_tokens_at(s: Seq<char>, i: int) -> Option<Seq<TokenV>> {
    spec_lex(s, i, (s.len() + 1 - i) as nat)
}

/// The token list of the whole text.
pub open spec fn spec_tokens(s: Seq<char>) -> Option<Seq<TokenV>> {
    spec_tokens_at(s, 0)
}

proof fn lemma_lex_fuel(s: Seq<char>, i: int, f1: nat, f2: nat)
    requires
        0 <= i,
        s.len() + 1 - i <= f1,
        s.len() + 1 - i <= f2,
    ensures
        spec_lex(s, i, f1) == spec_lex(s, i, f2),
    decreases f1,
{
    match spec_next_token(s, i) {
        NextV::End => {},
        NextV::Fail => {},
        NextV::Tok(t, j) => {
            lemma_next_token_bounds(s, i);
            if f1 > 0 && f2 > 0 {
                lemma_lex_fuel(s, j, (f1 - 1) as nat, (f2 - 1) as nat);
            }
        },
    }
}

/// Scans the next token, mirroring `spec_next_token`.
#[verifier::loop_isolation(false)]
fn next_token(v: &Vec<char>, start: usize) -> (r: Option<(Option<Token>, usize)>)
    requires
        start <= v@.len(),
    ensures
        match r {
            None => spec_next_token(v@, start as int) is Fail,
            Some((None, _)) => spec_next_token(v@, start as int) is End,
            Some((Some(t), j)) => spec_next_token(v@, start as int) == NextV::Tok(
                t@,
                j as int,
            ) && start < j <= v@.len(),
        },
{
    let len = v.len();
    let mut i = start;
    while i < len && is_ws(v[i])
        invariant
            start <= i <= len,
            len == v@.len(),
            spec_next_token(v@, start as int) == spec_next_token(v@, i as int),
        decreases len - i,
    {
        i += 1;
    }
    if i >= len {
        return Some((None, i));
    }
    let c = v[i];
    if is_ident_start(c) {
        let mut e = i + 1;
        while e < len && is_ident_char(v[e])
            invariant
                i < e <= len,
                len == v@.len(),
                spec_ident_end(v@, i + 1) == spec_ident_end(v@, e as int),
            decreases len - e,
        {
            e += 1;
        }
        let name = range_to_string(v, i, e);
        return Some((Some(Token::Ident(name)), e));
    }
    if c == '.' || c == ',' || c == ';' || c == ':' || c == '#' {
        return Some((Some(Token::Punct(c)), i + 1));
    }
    if c == '"' {
        let mut j = i + 1;
        while j < len && v[j] != '"'
            invariant
                i + 1 <= j <= len,
                len == v@.len(),
                spec_find_quote(v@, i + 1) == spec_find_quote(v@, j as int),
            decreases len - j,
        {
            j += 1;
        }
        if j >= len {
            return None;
        }
        let lit = range_to_string(v, i + 1, j);
        return Some((Some(Token::StrLit(lit)), j + 1));
    }
    if c == '(' || c == '{' || c == '[' {
        let closer = if c == '(' {
            ')'
        } else if c == '{' {
            '}'
        } else {
            ']'
        };
        let mut stack: Vec<char> = Vec::new();
        stack.push(closer);
        let mut in_str = false;
        let mut j = i + 1;
        loop
            invariant
                i + 1 <= j <= len,
                len == v@.len(),
                spec_scan_group(v@, i + 1, seq![spec_closer_of(c)], false) == spec_scan_group(
                    v@,
                    j as int,
                    stack@,
                    in_str,
                ),
            decreases len - j,
        {
            if j >= len || stack.len() == 0 {
                return None;
            }
            let cj = v[j];
            if in_str {
                in_str = cj != '"';
                j += 1;
            } else if cj == '"' {
                in_str = true;
                j += 1;
            } else if cj == '(' || cj == '{' || cj == '[' {
                let cl = if cj == '(' {
                    ')'
                } else if cj == '{' {
                    '}'
                } else {
                    ']'
                };
                stack.push(cl);
                j += 1;
            } else if cj == ')' || cj == '}' || cj == ']' {
                let top = stack[stack.len() - 1];
                if cj == top {
                    if stack.len() == 1 {
                        let inner = range_to_string(v, i + 1, j);
                        return Some((Some(Token::Group(c, inner)), j + 1));
                    } else {
                        let _ = stack.pop();
                        j += 1;
                    }
                } else {
                    return None;
                }
            } else {
                j += 1;
            }
        }
    }
    None
}

/// Lexes the whole character vector, mirroring `spec_tokens`.
#[verifier::loop_isolation(false)]
pub fn lex_chars(v: &Vec<char>) -> (r: Option<Vec<Token>>)
    ensures
        match r {
            None => spec_tokens(v@) is None,
            Some(ts) => spec_tokens(v@) == Some(ts@.map(|k: int, t: Token| t@)),
        },
{
    let mut out: Vec<Token> = Vec::new();
    let mut i: usize = 0;
    loop
        invariant
            i <= v@.len(),
            spec_tokens(v@) == (match spec_tokens_at(v@, i as int) {
                None => None::<Seq<TokenV>>,
                Some(rest) => Some(out@.map(|k: int, t: Token| t@) + rest),
            }),
        decreases v@.len() - i,
    {
        match next_token(v, i) {
            None => {
                return None;
            },
            Some((None, _)) => {
                proof {
                    assert(out@.map(|k: int, t: Token| t@) + Seq::<TokenV>::empty() =~= out@.map(
                        |k: int, t: Token| t@,
                    ));
                }
                return Some(out);
            },
            Some((Some(t), j)) => {
                let ghost s = v@;
                let ghost fi = (s.len() + 1 - i) as nat;
                proof {
                    lemma_lex_fuel(s, j as int, (fi - 1) as nat, (s.len() + 1 - j) as nat);
                    assert(spec_tokens_at(s, i as int) == (match spec_tokens_at(s, j as int) {
                        None => None::<Seq<TokenV>>,
                        Some(rest) => Some(seq![t@] + rest),
                    }));
                    assert(out@.push(t).map(|k: int, tt: Token| tt@) =~= out@.map(
                        |k: int, tt: Token| tt@,
                    ).push(t@));
                    if spec_tokens_at(s, j as int) is Some {
                        let rest = spec_tokens_at(s, j as int).unwrap();
                        assert(out@.map(|k: int, tt: Token| tt@) + (seq![t@] + rest) =~= out@.map(
                            |k: int, tt: Token| tt@,
                        ).push(t@) + rest);
                    }
                }
                out.push(t);
                i = j;
            },
        }
    }
}

/// Splitting a delimited argument list on its top-level commas, from
/// position `i`; `start` begins the current piece, `stack` and `in_str`
/// track nesting, `acc` holds the finished pieces. Each piece is trimmed;
/// an empty piece before a comma is malformed, an empty tail is a
/// tolerated trailing comma (or an empty list).
pub open spec fn spec_split_rec(
    s: Seq<char>,
    i: int,
    start: int,
    stack: Seq<char>,
    in_str: bool,
    acc: Seq<Seq<char>>,
) -> Option<Seq<Seq<char>>>
    decreases s.len() - i,
{
    if i < 0 || i > s.len() || start < 0 || start > i {
        None
    } else if i == s.len() {
        if in_str || stack.len() > 0 {
            None
        } else {
            let piece = spec_trim(s.subrange(start, i));
            if piece.len() > 0 {
                Some(acc.push(piece))
            } else {
                Some(acc)
            }
        }
    } else {
        let c = s[i];
        if in_str {
            spec_split_rec(s, i + 1, start, stack, c != '"', acc)
        } else if c == '"' {
            spec_split_rec(s, i + 1, start, stack, true, acc)
        } else if spec_is_opener(c) {
            spec_split_rec(s, i + 1, start, stack.push(spec_closer_of(c)), false, acc)
        } else if spec_is_closer(c) {
            if stack.len() > 0 && c == stack.last() {
                spec_split_rec(s, i + 1, start, stack.drop_last(), false, acc)
            } else {
                None
            }
        } else if c == ',' && stack.len() == 0 {
            let piece = spec_trim(s.subrange(start, i));
            if piece.len() == 0 {
                None
            } else {
                spec_split_rec(s, i + 1, i + 1, stack, false, acc.push(piece))
            }
        } else {
            spec_split_rec(s, i + 1, start, stack, in_str, acc)
        }
    }
}

/// The argument pieces of a delimited list's inner text.
pub open spec fn spec_split_args(s: Seq<char>) -> Option<Seq<Seq<char>>> {
    spec_split_rec(s, 0, 0, Seq::empty(), false, Seq::empty())
}

/// Splits raw argument text on top-level commas, mirroring
/// `spec_split_args`.
#[verifier::loop_isolation(false)]
fn split_args(v: &Vec<char>) -> (r: Option<Vec<String>>)
    ensures
        match r {
            None => spec_split_args(v@) is None,
            Some(ps) => spec_split_args(v@) == Some(ps.deep_view()),
        },
{
    let mut pieces: Vec<String> = Vec::new();
    let mut stack: Vec<char> = Vec::new();
    let mut in_str = false;
    let mut start: usize = 0;
    let mut i: usize = 0;
    proof {
        assert(pieces.deep_view() =~= Seq::<Seq<char>>::empty());
        assert(stack@ =~= Seq::<char>::empty());
    }
    loop
        invariant
            start <= i <= v@.len(),
            spec_split_args(v@) == spec_split_rec(
                v@,
                i as int,
                start as int,
                stack@,
                in_str,
                pieces.deep_view(),
            ),
        decreases v@.len() - i,
    {
        if i == v.len() {
            if in_str || stack.len() > 0 {
                return None;
            }
            let piece = trimmed_range_to_string(v, start, i);
            if piece.unicode_len() > 0 {
                let ghost pre = pieces.deep_view();
                pieces.push(piece);
                proof {
                    assert(pieces.deep_view() =~= pre.push(piece@));
                }
            }
            return Some(pieces);
        }
        let c = v[i];
        if in_str {
            in_str = c != '"';
            i += 1;
        } else if c == '"' {
            in_str = true;
            i += 1;
        } else if c == '(' || c == '{' || c == '[' {
            let cl = if c == '(' {
                ')'
            } else if c == '{' {
                '}'
            } else {
                ']'
            };
            stack.push(cl);
            i += 1;
        } else if c == ')' || c == '}' || c == ']' {
            if stack.len() > 0 && c == stack[stack.len() - 1] {
                let _ = stack.pop();
                i += 1;
            } else {
                return None;
            }
        } else if c == ',' && stack.len() == 0 {
            let piece = trimmed_range_to_string(v, start, i);
            if piece.unicode_len() == 0 {
                return None;
            }
            let ghost pre = pieces.deep_view();
            pieces.push(piece);
            proof {
                assert(pieces.deep_view() =~= pre.push(piece@));
            }
            i += 1;
            start = i;
        } else {
            i += 1;
        }
    }
}

/// One obligation instance: a possibly qualified tag name with argument
/// text, as mathematics.
pub struct PropV {
    pub typ: Option<TagType>,
    pub name: Seq<char>,
    pub args: Seq<Seq<char>>,
}

/// One parsed group: its properties and the optional shared reason.
pub struct GroupV {
    pub tags: Seq<PropV>,
    pub desc: Option<Seq<char>>,
}

/// Typed safety-property name: `name` or `qualifier.name`.
pub struct TagNameType {
    /// The explicit kind qualifier, absent for a bare name.
    pub typ: Option<TagType>,
    /// The tag name itself.
    pub name: String,
}

/// One obligation instance appearing inside an attribute.
pub struct Property {
    /// The possibly qualified tag name.
    pub tag: TagNameType,
    /// The raw argument texts, in order; opaque to this crate.
    pub args: Vec<String>,
}

impl View for Property {
    type V = PropV;

    open spec fn view(&self) -> PropV {
        PropV { typ: self.tag.typ, name: self.tag.name@, args: self.args.deep_view() }
    }
}

/// One group of properties with its optional shared justification text.
pub struct PropertiesAndReason {
    pub tags: Vec<Property>,
    pub desc: Option<String>,
}

impl View for PropertiesAndReason {
    type V = GroupV;

    open spec fn view(&self) -> GroupV {
        GroupV {
            tags: self.tags@.map(|k: int, p: Property| p@),
            desc: match &self.desc {
                Some(d) => Some(d@),
                None => None,
            },
        }
    }
}

/// The semicolon-separated groups of one attribute body.
pub struct SafetyAttrArgs {
    pub args: Vec<PropertiesAndReason>,
}

/// The fuel that always suffices to parse the remaining tokens.
pub open spec fn props_fuel(ts: Seq<TokenV>, i: int) -> nat {
    (ts.len() + 1 - i) as nat
}

/// Parsing one group from position `i`: a run of tagged properties with
/// optional commas, ended by `: "reason"`, by `;` (left unconsumed), or by
/// the end of the tokens.
pub open spec fn spec_parse_props(ts: Seq<TokenV>, i: int, acc: Seq<PropV>, fuel: nat) -> Option<
    (GroupV, int),
>
    decreases fuel,
{
    if i < 0 {
        None
    } else if i >= ts.len() {
        Some((GroupV { tags: acc, desc: None }, i))
    } else if fuel == 0 {
        None
    } else if !(ts[i] is Ident) {
        None
    } else {
        let first = ts[i]->Ident_0;
        let q = if i + 1 < ts.len() && ts[i + 1] == TokenV::Punct('.') {
            if i + 2 < ts.len() && ts[i + 2] is Ident {
                match spec_tag_type_of(first) {
                    Some(tt) => Some((Some(tt), ts[i + 2]->Ident_0, i + 3)),
                    None => None,
                }
            } else {
                None
            }
        } else {
            Some((None::<TagType>, first, i + 1))
        };
        match q {
            None => None,
            Some((typ, name, k)) => {
                let a = if k < ts.len() && ts[k] is Group && (ts[k]->Group_0 == '(' || ts[k]->Group_0
                    == '{') {
                    match spec_split_args(ts[k]->Group_1) {
                        Some(args) => Some((args, k + 1)),
                        None => None,
                    }
                } else {
                    Some((Seq::<Seq<char>>::empty(), k))
                };
                match a {
                    None => None,
                    Some((args, k2)) => {
                        let acc2 = acc.push(PropV { typ, name, args });
                        let k3 = if k2 < ts.len() && ts[k2] == TokenV::Punct(',') {
                            k2 + 1
                        } else {
                            k2
                        };
                        if k3 < ts.len() && ts[k3] == TokenV::Punct(':') {
                            if k3 + 1 < ts.len() && ts[k3 + 1] is StrLit {
                                Some(
                                    (
                                        GroupV { tags: acc2, desc: Some(ts[k3 + 1]->StrLit_0) },
                                        k3 + 2,
                                    ),
                                )
                            } else {
                                None
                            }
                        } else if k3 < ts.len() && ts[k3] == TokenV::Punct(';') {
                            Some((GroupV { tags: acc2, desc: None }, k3))
                        } else {
                            spec_parse_props(ts, k3, acc2, (fuel - 1) as nat)
                        }
                    },
                }
            },
        }
    }
}

proof fn lemma_parse_props_bounds(ts: Seq<TokenV>, i: int, acc: Seq<PropV>, fuel: nat)
    requires
        0 <= i <= ts.len(),
    ensures
        match spec_parse_props(ts, i, acc, fuel) {
            Some((g, j)) => i <= j <= ts.len() && (i < ts.len() ==> i < j),
            None => true,
        },
    decreases fuel,
{
    if 0 <= i < ts.len() && fuel > 0 && ts[i] is Ident {
        let first = ts[i]->Ident_0;
        let q = if i + 1 < ts.len() && ts[i + 1] == TokenV::Punct('.') {
            if i + 2 < ts.len() && ts[i + 2] is Ident {
                match spec_tag_type_of(first) {
                    Some(tt) => Some((Some(tt), ts[i + 2]->Ident_0, i + 3)),
                    None => None,
                }
            } else {
                None
            }
        } else {
            Some((None::<TagType>, first, i + 1))
        };
        match q {
            None => {
                assert(spec_parse_props(ts, i, acc, fuel) is None);
            },
            Some((typ, name, k)) => {
                assert(i < k <= ts.len());
                let a = if k < ts.len() && ts[k] is Group && (ts[k]->Group_0 == '(' || ts[k]->Group_0
                    == '{') {
                    match spec_split_args(ts[k]->Group_1) {
                        Some(args) => Some((args, k + 1)),
                        None => None,
                    }
                } else {
                    Some((Seq::<Seq<char>>::empty(), k))
                };
                match a {
                    None => {
                        assert(spec_parse_props(ts, i, acc, fuel) is None);
                    },
                    Some((args, k2)) => {
                        assert(i < k2 <= ts.len());
                        let acc2 = acc.push(PropV { typ, name, args });
                        let k3 = if k2 < ts.len() && ts[k2] == TokenV::Punct(',') {
                            k2 + 1
                        } else {
                            k2
                        };
                        assert(i < k3 <= ts.len());
                        if k3 < ts.len() && ts[k3] == TokenV::Punct(':') {
                            if k3 + 1 < ts.len() && ts[k3 + 1] is StrLit {
                                assert(spec_parse_props(ts, i, acc, fuel) == Some(
                                    (GroupV { tags: acc2, desc: Some(ts[k3 + 1]->StrLit_0) }, k3 + 2),
                                ));
                            } else {
                                assert(spec_parse_props(ts, i, acc, fuel) is None);
                            }
                        } else if k3 < ts.len() && ts[k3] == TokenV::Punct(';') {
                            assert(spec_parse_props(ts, i, acc, fuel) == Some(
                                (GroupV { tags: acc2, desc: None }, k3),
                            ));
                        } else {
                            lemma_parse_props_bounds(ts, k3, acc2, (fuel - 1) as nat);
                            assert(spec_parse_props(ts, i, acc, fuel) == spec_parse_props(
                                ts,
                                k3,
                                acc2,
                                (fuel - 1) as nat,
                            ));
                        }
                    },
                }
            },
        }
    }
}

proof fn lemma_parse_props_fuel(ts: Seq<TokenV>, i: int, acc: Seq<PropV>, f1: nat, f2: nat)
    requires
        0 <= i,
        ts.len() + 1 - i <= f1,
        ts.len() + 1 - i <= f2,
    ensures
        spec_parse_props(ts, i, acc, f1) == spec_parse_props(ts, i, acc, f2),
    decreases f1,
{
    if 0 <= i < ts.len() && ts[i] is Ident {
        let first = ts[i]->Ident_0;
        let q = if i + 1 < ts.len() && ts[i + 1] == TokenV::Punct('.') {
            if i + 2 < ts.len() && ts[i + 2] is Ident {
                match spec_tag_type_of(first) {
                    Some(tt) => Some((Some(tt), ts[i + 2]->Ident_0, i + 3)),
                    None => None,
                }
            } else {
                None
            }
        } else {
            Some((None::<TagType>, first, i + 1))
        };
        match q {
            None => {},
            Some((typ, name, k)) => {
                let a = if k < ts.len() && ts[k] is Group && (ts[k]->Group_0 == '(' || ts[k]->Group_0
                    == '{') {
                    match spec_split_args(ts[k]->Group_1) {
                        Some(args) => Some((args, k + 1)),
                        None => None,
                    }
                } else {
                    Some((Seq::<Seq<char>>::empty(), k))
                };
                match a {
                    None => {},
                    Some((args, k2)) => {
                        let acc2 = acc.push(PropV { typ, name, args });
                        let k3 = if k2 < ts.len() && ts[k2] == TokenV::Punct(',') {
                            k2 + 1
                        } else {
                            k2
                        };
                        if k3 < ts.len() && ts[k3] == TokenV::Punct(':') {
                        } else if k3 < ts.len() && ts[k3] == TokenV::Punct(';') {
                        } else {
                            lemma_parse_props_fuel(ts, k3, acc2, (f1 - 1) as nat, (f2 - 1) as nat);
                        }
                    },
                }
            },
        }
    }
}

/// True when the token is exactly this punctuation character.
fn tok_is_punct(t: &Token, c: char) -> (r: bool)
    ensures
        r == (t@ == TokenV::Punct(c)),
{
    match t {
        Token::Punct(c2) => *c2 == c,
        _ => false,
    }
}

/// Parses one group starting at token `i`, mirroring `spec_parse_props`;
/// returns the accumulated properties, the optional reason and the next
/// position.
#[verifier::loop_isolation(false)]
#[verifier::rlimit(100)]
fn parse_props(ts: &Vec<Token>, i: usize, acc: Vec<Property>) -> (r: Option<
    (Vec<Property>, Option<String>, usize),
>)
    requires
        i <= ts@.len(),
    ensures
        ({
            let tv = ts@.map(|k: int, t: Token| t@);
            let accv = acc@.map(|k: int, p: Property| p@);
            match r {
                None => spec_parse_props(tv, i as int, accv, props_fuel(tv, i as int)) is None,
                Some((props, desc, j)) => {
                    &&& i <= j <= ts@.len()
                    &&& spec_parse_props(tv, i as int, accv, props_fuel(tv, i as int)) == Some(
                        (
                            GroupV {
                                tags: props@.map(|k: int, p: Property| p@),
                                desc: match desc {
                                    Some(d) => Some(d@),
                                    None => None,
                                },
                            },
                            j as int,
                        ),
                    )
                },
            }
        }),
    decreases ts@.len() - i,
{
    let ghost tv = ts@.map(|k: int, t: Token| t@);
    let ghost accv = acc@.map(|k: int, p: Property| p@);
    let len = ts.len();
    if i >= len {
        return Some((acc, None, i));
    }
    let first = match &ts[i] {
        Token::Ident(s) => s.clone(),
        _ => {
            return None;
        },
    };
    let mut typ: Option<TagType> = None;
    let mut name: String = first;
    let mut k: usize = i + 1;
    if i + 1 < len && tok_is_punct(&ts[i + 1], '.') {
        if i + 2 >= len {
            return None;
        }
        let second = match &ts[i + 2] {
            Token::Ident(s) => s.clone(),
            _ => {
                return None;
            },
        };
        match crate::configuration::tag_type_of(name.as_str()) {
            Some(tt) => {
                typ = Some(tt);
                name = second;
                k = i + 3;
            },
            None => {
                return None;
            },
        }
    }
    let mut args: Vec<String> = Vec::new();
    let mut k2: usize = k;
    if k < len {
        let take_args = match &ts[k] {
            Token::Group(d, _) => *d == '(' || *d == '{',
            _ => false,
        };
        if take_args {
            let content = match &ts[k] {
                Token::Group(_, content) => content,
                _ => {
                    return None;
                },
            };
            let cv = crate::strutil::chars_of(content.as_str());
            match split_args(&cv) {
                Some(ps) => {
                    args = ps;
                    k2 = k + 1;
                },
                None => {
                    return None;
                },
            }
        }
    }
    proof {
        if i + 1 < ts@.len() && tv[i + 1] == TokenV::Punct('.') {
            assert(k == i + 3);
            assert(name@ == tv[i + 2]->Ident_0);
            assert(typ == spec_tag_type_of(tv[i as int]->Ident_0));
        } else {
            assert(k == i + 1);
            assert(name@ == tv[i as int]->Ident_0);
            assert(typ is None);
        }
        let tvk = tv[k as int];
        if k < ts@.len() && tvk is Group && (tvk->Group_0 == '(' || tvk->Group_0 == '{') {
            assert(spec_split_args(tvk->Group_1) == Some(args.deep_view()));
            assert(k2 == k + 1);
        } else {
            assert(k2 == k);
            assert(args.deep_view() =~= Seq::<Seq<char>>::empty());
        }
    }
    let prop = Property { tag: TagNameType { typ, name }, args };
    let ghost propv = prop@;
    let mut acc2 = acc;
    acc2.push(prop);
    proof {
        assert(acc2@.map(|k: int, p: Property| p@) =~= accv.push(propv));
    }
    let mut k3: usize = k2;
    if k2 < len && tok_is_punct(&ts[k2], ',') {
        k3 = k2 + 1;
    }
    if k3 < len && tok_is_punct(&ts[k3], ':') {
        if k3 + 1 >= len {
            return None;
        }
        match &ts[k3 + 1] {
            Token::StrLit(d) => {
                proof {
                    assert(tv[k3 + 1] == ts@[k3 + 1]@);
                    assert(spec_parse_props(tv, i as int, accv, props_fuel(tv, i as int)) == Some(
                        (GroupV { tags: accv.push(propv), desc: Some(d@) }, (k3 + 2) as int),
                    ));
                }
                return Some((acc2, Some(d.clone()), k3 + 2));
            },
            _ => {
                return None;
            },
        }
    }
    if k3 < len && tok_is_punct(&ts[k3], ';') {
        proof {
            assert(spec_parse_props(tv, i as int, accv, props_fuel(tv, i as int)) == Some(
                (GroupV { tags: accv.push(propv), desc: None }, k3 as int),
            ));
        }
        return Some((acc2, None, k3));
    }
    proof {
        lemma_parse_props_fuel(
            tv,
            k3 as int,
            accv.push(propv),
            (props_fuel(tv, i as int) - 1) as nat,
            props_fuel(tv, k3 as int),
        );
    }
    parse_props(ts, k3, acc2)
}

/// The fuel that always suffices to parse the remaining groups.
pub open spec fn groups_fuel(ts: Seq<TokenV>, i: int) -> nat {
    (ts.len() + 1 - i) as nat
}

/// Parsing the group list from token `i`: groups separated by `;`, with a
/// trailing separator tolerated.
pub open spec fn spec_parse_groups_at(ts: Seq<TokenV>, i: int, fuel: nat) -> Option<Seq<GroupV>>
    decreases fuel,
{
    if i < 0 {
        None
    } else if i >= ts.len() {
        Some(Seq::empty())
    } else if fuel == 0 {
        None
    } else {
        match spec_parse_props(ts, i, Seq::empty(), props_fuel(ts, i)) {
            None => None,
            Some((g, j)) => {
                if j >= ts.len() {
                    Some(seq![g])
                } else if ts[j] == TokenV::Punct(';') {
                    match spec_parse_groups_at(ts, j + 1, (fuel - 1) as nat) {
                        None => None,
                        Some(rest) => Some(seq![g] + rest),
                    }
                } else {
                    None
                }
            },
        }
    }
}

/// The groups denoted by a whole token list.
pub open spec fn spec_parse_groups(ts: Seq<TokenV>) -> Option<Seq<GroupV>> {
    spec_parse_groups_at(ts, 0, (ts.len() + 1) as nat)
}

proof fn lemma_parse_groups_fuel(ts: Seq<TokenV>, i: int, f1: nat, f2: nat)
    requires
        0 <= i <= ts.len(),
        ts.len() + 1 - i <= f1,
        ts.len() + 1 - i <= f2,
    ensures
        spec_parse_groups_at(ts, i, f1) == spec_parse_groups_at(ts, i, f2),
    decreases f1,
{
    if i < ts.len() {
        match spec_parse_props(ts, i, Seq::empty(), props_fuel(ts, i)) {
            None => {},
            Some((g, j)) => {
                lemma_parse_props_bounds(ts, i, Seq::empty(), props_fuel(ts, i));
                if j < ts.len() && ts[j] == TokenV::Punct(';') {
                    lemma_parse_groups_fuel(ts, j + 1, (f1 - 1) as nat, (f2 - 1) as nat);
                }
            },
        }
    }
}

/// Parses the group list, mirroring `spec_parse_groups_at`.
#[verifier::loop_isolation(false)]
fn parse_group_list(ts: &Vec<Token>, i: usize) -> (r: Option<Vec<PropertiesAndReason>>)
    requires
        i <= ts@.len(),
    ensures
        ({
            let tv = ts@.map(|k: int, t: Token| t@);
            match r {
                None => spec_parse_groups_at(tv, i as int, groups_fuel(tv, i as int)) is None,
                Some(gs) => spec_parse_groups_at(tv, i as int, groups_fuel(tv, i as int)) == Some(
                    gs@.map(|k: int, g: PropertiesAndReason| g@),
                ),
            }
        }),
    decreases ts@.len() - i,
{
    let ghost tv = ts@.map(|k: int, t: Token| t@);
    if i >= ts.len() {
        let out: Vec<PropertiesAndReason> = Vec::new();
        proof {
            assert(out@.map(|k: int, g: PropertiesAndReason| g@) =~= Seq::<GroupV>::empty());
        }
        return Some(out);
    }
    let acc0: Vec<Property> = Vec::new();
    proof {
        assert(acc0@.map(|k: int, p: Property| p@) =~= Seq::<PropV>::empty());
    }
    match parse_props(ts, i, acc0) {
        None => None,
        Some((props, desc, j)) => {
            let g = PropertiesAndReason { tags: props, desc };
            let ghost gv = g@;
            if j >= ts.len() {
                let mut out: Vec<PropertiesAndReason> = Vec::new();
                out.push(g);
                proof {
                    assert(out@.map(|k: int, gg: PropertiesAndReason| gg@) =~= seq![gv]);
                }
                return Some(out);
            }
            if tok_is_punct(&ts[j], ';') {
                proof {
                    lemma_parse_groups_fuel(
                        tv,
                        j + 1,
                        (groups_fuel(tv, i as int) - 1) as nat,
                        groups_fuel(tv, j + 1),
                    );
                }
                match parse_group_list(ts, j + 1) {
                    None => None,
                    Some(rest) => {
                        let ghost restv = rest@.map(|k: int, gg: PropertiesAndReason| gg@);
                        let mut out = rest;
                        out.insert(0, g);
                        proof {
                            assert(out@.map(|k: int, gg: PropertiesAndReason| gg@) =~= seq![gv]
                                + restv);
                        }
                        Some(out)
                    },
                }
            } else {
                None
            }
        },
    }
}

/// The groups denoted by raw attribute-body text.
pub open spec fn spec_parse_groups_text(s: Seq<char>) -> Option<Seq<GroupV>> {
    match spec_tokens(s) {
        None => None,
        Some(ts) => spec_parse_groups(ts),
    }
}

/// Parses raw attribute-body text such as `A, B(x); any(C, D)`.
pub fn parse_groups_str(text: &str) -> (r: Option<Vec<PropertiesAndReason>>)
    ensures
        match r {
            None => spec_parse_groups_text(text@) is None,
            Some(gs) => spec_parse_groups_text(text@) == Some(
                gs@.map(|k: int, g: PropertiesAndReason| g@),
            ),
        },
{
    let cv = crate::strutil::chars_of(text);
    match lex_chars(&cv) {
        None => None,
        Some(ts) => parse_group_list(&ts, 0),
    }
}

/// Skipping `::ident` path segments after the leading identifier of an
/// attribute, then parsing the one delimited argument list that must close
/// the attribute.
pub open spec fn spec_attr_after_path(ts: Seq<TokenV>, i: int) -> Option<Seq<GroupV>>
    decreases ts.len() - i,
{
    if i < 0 || i >= ts.len() {
        None
    } else if ts[i] == TokenV::Punct(':') {
        if i + 2 < ts.len() && ts[i + 1] == TokenV::Punct(':') && ts[i + 2] is Ident {
            spec_attr_after_path(ts, i + 3)
        } else {
            None
        }
    } else if ts[i] is Group && i == ts.len() - 1 {
        spec_parse_groups_text(ts[i]->Group_1)
    } else {
        None
    }
}

/// The groups denoted by a full attribute such as `#[safety { ... }]` or
/// `#[rapx::inner(...)]`; the attribute's path name is not checked.
pub open spec fn spec_parse_attr(s: Seq<char>) -> Option<Seq<GroupV>> {
    match spec_tokens(s) {
        None => None,
        Some(ts) => {
            if ts.len() == 2 && ts[0] == TokenV::Punct('#') && ts[1] is Group && ts[1]->Group_0
                == '[' {
                match spec_tokens(ts[1]->Group_1) {
                    None => None,
                    Some(inner) => {
                        if inner.len() >= 1 && inner[0] is Ident {
                            spec_attr_after_path(inner, 1)
                        } else {
                            None
                        }
                    },
                }
            } else {
                None
            }
        },
    }
}

impl View for SafetyAttrArgs {
    type V = Seq<GroupV>;

    open spec fn view(&self) -> Seq<GroupV> {
        self.args@.map(|k: int, g: PropertiesAndReason| g@)
    }
}

/// Parses a full attribute; fails exactly on text the grammar refuses.
#[verifier::loop_isolation(false)]
pub fn parse_safety_attr(attr: &str) -> (r: Option<SafetyAttrArgs>)
    ensures
        match r {
            None => spec_parse_attr(attr@) is None,
            Some(a) => spec_parse_attr(attr@) == Some(a@),
        },
{
    let cv = crate::strutil::chars_of(attr);
    let ts = match lex_chars(&cv) {
        None => {
            return None;
        },
        Some(ts) => ts,
    };
    if ts.len() != 2 {
        return None;
    }
    if !tok_is_punct(&ts[0], '#') {
        return None;
    }
    let inner_text = match &ts[1] {
        Token::Group(d, content) => {
            if *d == '[' {
                content
            } else {
                return None;
            }
        },
        _ => {
            return None;
        },
    };
    let icv = crate::strutil::chars_of(inner_text.as_str());
    let inner = match lex_chars(&icv) {
        None => {
            return None;
        },
        Some(ts2) => ts2,
    };
    let ghost iv = inner@.map(|k: int, t: Token| t@);
    if inner.len() == 0 {
        return None;
    }
    match &inner[0] {
        Token::Ident(_) => {},
        _ => {
            return None;
        },
    }
    let mut i: usize = 1;
    while i < inner.len() && tok_is_punct(&inner[i], ':')
        invariant
            1 <= i <= inner@.len(),
            spec_attr_after_path(iv, 1) == spec_attr_after_path(iv, i as int),
        decreases inner@.len() - i,
    {
        if inner.len() - i > 2 && tok_is_punct(&inner[i + 1], ':') {
            let ok = match &inner[i + 2] {
                Token::Ident(_) => true,
                _ => false,
            };
            if ok {
                i += 3;
            } else {
                return None;
            }
        } else {
            return None;
        }
    }
    if i >= inner.len() {
        return None;
    }
    let body = match &inner[i] {
        Token::Group(_, content) => content,
        _ => {
            return None;
        },
    };
    if i != inner.len() - 1 {
        return None;
    }
    match parse_groups_str(body.as_str()) {
        None => None,
        Some(gs) => Some(SafetyAttrArgs { args: gs }),
    }
}

/// Parses a full attribute to get its property groups, treating any parse
/// failure as "no properties found".
pub fn parse_attr_and_get_properties(attr: &str) -> (r: Vec<PropertiesAndReason>)
    ensures
        match spec_parse_attr(attr@) {
            None => r@.len() == 0,
            Some(gs) => r@.map(|k: int, g: PropertiesAndReason| g@) == gs,
        },
{
    match parse_safety_attr(attr) {
        None => Vec::new(),
        Some(a) => a.args,
    }
}

/// A failed kind check on one property.
#[derive(Debug)]
pub enum TypeCheckError {
    /// The tag is not defined in the registry.
    UnknownTag(String),
    /// The explicit qualifier is not among the tag's declared kinds.
    KindNotDeclared(String),
    /// The tag declares several kinds and the property names none.
    AmbiguousKind(String),
}

/// Whether a property with this name and qualifier is well-typed against
/// the registry entries: `any` always is; otherwise the tag must be
/// defined, an explicit qualifier must be among its kinds, and an absent
/// qualifier demands a single declared kind.
pub open spec fn spec_type_check(
    m: Seq<crate::configuration::RegEntry>,
    name: Seq<char>,
    typ: Option<TagType>,
) -> bool {
    if name == crate::configuration::builtin::spec_any_name() {
        true
    } else {
        match crate::configuration::reg_find(m, name) {
            None => false,
            Some(tag) => match typ {
                Some(q) => tag.types@.contains(q),
                None => tag.types@.len() == 1,
            },
        }
    }
}

impl TagNameType {
    /// The tag name.
    pub fn name(&self) -> (r: &str)
        ensures
            r@ == self.name@,
    {
        self.name.as_str()
    }

    /// The explicit kind qualifier, if one was written.
    pub fn typ(&self) -> (r: Option<TagType>)
        ensures
            r == self.typ,
    {
        self.typ
    }

    /// The name and qualifier together.
    pub fn name_type(&self) -> (r: (&str, Option<TagType>))
        ensures
            r.0@ == self.name@,
            r.1 == self.typ,
    {
        (self.name.as_str(), self.typ)
    }

    /// Checks the qualifier against the tag's declared kinds; fails with
    /// the offending tag's name exactly when `spec_type_check` refuses it.
    #[verifier::loop_isolation(false)]
    pub fn check_type(&self, reg: &crate::configuration::Registry) -> (r: Result<
        (),
        TypeCheckError,
    >)
        ensures
            r is Ok <==> spec_type_check(reg.map@, self.name@, self.typ),
            match r {
                Ok(_) => true,
                Err(TypeCheckError::UnknownTag(n)) => n@ == self.name@
                    && crate::configuration::reg_find(reg.map@, self.name@) is None,
                Err(TypeCheckError::KindNotDeclared(n)) => n@ == self.name@ && self.typ is Some,
                Err(TypeCheckError::AmbiguousKind(n)) => n@ == self.name@ && self.typ is None,
            },
    {
        if crate::strutil::string_eq_str(&self.name, "any") {
            return Ok(());
        }
        let tag = match crate::configuration::get_tag_opt(reg, self.name.as_str()) {
            Some(tag) => tag,
            None => {
                return Err(TypeCheckError::UnknownTag(self.name.clone()));
            },
        };
        match self.typ {
            Some(q) => {
                let mut i: usize = 0;
                while i < tag.types.len()
                    invariant
                        i <= tag.types@.len(),
                        forall|k: int| 0 <= k < i ==> tag.types@[k] != q,
                    decreases tag.types@.len() - i,
                {
                    if tag.types[i] == q {
                        assert(tag.types@.contains(q));
                        return Ok(());
                    }
                    i += 1;
                }
                proof {
                    assert(!tag.types@.contains(q));
                }
                Err(TypeCheckError::KindNotDeclared(self.name.clone()))
            },
            None => {
                if tag.types.len() == 1 {
                    Ok(())
                } else {
                    Err(TypeCheckError::AmbiguousKind(self.name.clone()))
                }
            },
        }
    }

    /// The registry's definition of this tag, if any.
    pub fn get_spec<'a>(&self, reg: &'a crate::configuration::Registry) -> (r: Option<
        &'a crate::configuration::Tag,
    >)
        ensures
            match r {
                Some(tag) => crate::configuration::reg_find(reg.map@, self.name@) == Some(*tag),
                None => crate::configuration::reg_find(reg.map@, self.name@) is None,
            },
    {
        crate::configuration::get_tag_opt(reg, self.name.as_str())
    }
}

/// The kind a well-typed property resolves to: its explicit qualifier, or
/// the tag's single declared kind when no qualifier was written.
pub open spec fn spec_resolved_kind(
    typ: Option<TagType>,
    tag: crate::configuration::Tag,
) -> Option<TagType> {
    match typ {
        Some(t) => Some(t),
        None => if tag.types@.len() == 1 {
            Some(tag.types@[0])
        } else {
            None
        },
    }
}

/// Law: a tag declaring exactly the one kind `k` accepts an unqualified
/// property, which resolves to `k`, and accepts a qualified one exactly
/// when the qualifier is `k`.
pub proof fn lemma_single_kind_check(
    m: Seq<crate::configuration::RegEntry>,
    name: Seq<char>,
    tag: crate::configuration::Tag,
    k: TagType,
    q: TagType,
)
    requires
        name != crate::configuration::builtin::spec_any_name(),
        crate::configuration::reg_find(m, name) == Some(tag),
        tag.types@ == seq![k],
    ensures
        spec_type_check(m, name, None),
        spec_resolved_kind(None, tag) == Some(k),
        spec_type_check(m, name, Some(q)) <==> q == k,
{
    if tag.types@.contains(q) {
        let i = choose|i: int| 0 <= i < tag.types@.len() && tag.types@[i] == q;
        assert(tag.types@[0] == k);
    }
    if q == k {
        assert(tag.types@[0] == q);
        assert(tag.types@.contains(q));
    }
}

/// Law: a tag declaring two or more kinds refuses an unqualified property,
/// and accepts a qualified one exactly when the qualifier is among the
/// declared kinds.
pub proof fn lemma_multi_kind_check(
    m: Seq<crate::configuration::RegEntry>,
    name: Seq<char>,
    tag: crate::configuration::Tag,
    q: TagType,
)
    requires
        name != crate::configuration::builtin::spec_any_name(),
        crate::configuration::reg_find(m, name) == Some(tag),
        tag.types@.len() >= 2,
    ensures
        !spec_type_check(m, name, None),
        spec_type_check(m, name, Some(q)) <==> tag.types@.contains(q),
{
}

/// The groups denoted by the argument texts of an `any(...)` occurrence:
/// each argument parsed as attribute-body text, arguments the grammar
/// refuses contributing nothing.
pub open spec fn spec_groups_of_args(args: Seq<Seq<char>>) -> Seq<GroupV>
    decreases args.len(),
{
    if args.len() == 0 {
        Seq::empty()
    } else {
        (match spec_parse_groups_text(args[0]) {
            Some(gs) => gs,
            None => Seq::empty(),
        }) + spec_groups_of_args(args.drop_first())
    }
}

/// What `args_in_any_tag` denotes on a property's model.
pub open spec fn spec_args_in_any(p: PropV) -> Option<Seq<GroupV>> {
    if p.name == crate::configuration::builtin::spec_any_name() && p.args.len() > 0 {
        Some(spec_groups_of_args(p.args))
    } else {
        None
    }
}

impl Property {
    /// The nested groups of an `any` occurrence; `None` when the tag is
    /// not `any` or has no arguments.
    #[verifier::loop_isolation(false)]
    pub fn args_in_any_tag(&self) -> (r: Option<Vec<PropertiesAndReason>>)
        ensures
            match r {
                None => spec_args_in_any(self@) is None,
                Some(gs) => spec_args_in_any(self@) == Some(
                    gs@.map(|k: int, g: PropertiesAndReason| g@),
                ),
            },
    {
        if !crate::strutil::string_eq_str(&self.tag.name, "any") || self.args.len() == 0 {
            return None;
        }
        let ghost argsv = self.args.deep_view();
        let mut out: Vec<PropertiesAndReason> = Vec::new();
        let mut i: usize = 0;
        proof {
            assert(out@.map(|k: int, g: PropertiesAndReason| g@) =~= Seq::<GroupV>::empty());
            assert(argsv.subrange(0, argsv.len() as int) =~= argsv);
        }
        while i < self.args.len()
            invariant
                i <= argsv.len(),
                spec_groups_of_args(argsv) == out@.map(|k: int, g: PropertiesAndReason| g@)
                    + spec_groups_of_args(argsv.subrange(i as int, argsv.len() as int)),
            decreases argsv.len() - i,
        {
            let ghost outv = out@.map(|k: int, g: PropertiesAndReason| g@);
            let ghost rem = argsv.subrange(i as int, argsv.len() as int);
            match parse_groups_str(self.args[i].as_str()) {
                Some(mut gs) => {
                    let ghost gsv = gs@.map(|k: int, g: PropertiesAndReason| g@);
                    out.append(&mut gs);
                    proof {
                        assert(out@.map(|k: int, g: PropertiesAndReason| g@) =~= outv + gsv);
                    }
                },
                None => {},
            }
            proof {
                assert(rem[0] == argsv[i as int]);
                assert(rem.drop_first() =~= argsv.subrange(i + 1, argsv.len() as int));
                if spec_parse_groups_text(argsv[i as int]) is Some {
                    let gsv0 = spec_parse_groups_text(argsv[i as int]).unwrap();
                    assert((outv + gsv0) + spec_groups_of_args(
                        argsv.subrange(i + 1, argsv.len() as int),
                    ) =~= outv + (gsv0 + spec_groups_of_args(
                        argsv.subrange(i + 1, argsv.len() as int),
                    )));
                } else {
                    assert(outv + Seq::<GroupV>::empty() =~= outv);
                    assert((outv) + spec_groups_of_args(
                        argsv.subrange(i + 1, argsv.len() as int),
                    ) =~= outv + (Seq::<GroupV>::empty() + spec_groups_of_args(
                        argsv.subrange(i + 1, argsv.len() as int),
                    )));
                }
            }
            i += 1;
        }
        proof {
            assert(argsv.subrange(argsv.len() as int, argsv.len() as int) =~= Seq::<
                Seq<char>,
            >::empty());
            assert(out@.map(|k: int, g: PropertiesAndReason| g@) + Seq::<GroupV>::empty() =~= out@
                .map(|k: int, g: PropertiesAndReason| g@));
        }
        Some(out)
    }
}

/// A property paired with its group's reason, as mathematics.
pub open spec fn pr_view(x: (Property, Option<String>)) -> (PropV, Option<Seq<char>>) {
    (
        x.0@,
        match x.1 {
            Some(d) => Some(d@),
            None => None,
        },
    )
}

/// Every property of every group, each paired with the group's reason, in
/// order.
pub open spec fn spec_property_reason(gs: Seq<GroupV>) -> Seq<(PropV, Option<Seq<char>>)>
    decreases gs.len(),
{
    if gs.len() == 0 {
        Seq::empty()
    } else {
        gs[0].tags.map(|k: int, p: PropV| (p, gs[0].desc)) + spec_property_reason(gs.drop_first())
    }
}

impl SafetyAttrArgs {
    /// Every property of every group, each paired with its group's reason.
    #[verifier::loop_isolation(false)]
    pub fn property_reason(&self) -> (r: Vec<(Property, Option<String>)>)
        ensures
            r@.map(|k: int, x: (Property, Option<String>)| pr_view(x)) == spec_property_reason(
                self@,
            ),
    {
        let ghost gsv = self@;
        let mut out: Vec<(Property, Option<String>)> = Vec::new();
        let mut gi: usize = 0;
        proof {
            assert(out@.map(|k: int, x: (Property, Option<String>)| pr_view(x)) =~= Seq::<
                (PropV, Option<Seq<char>>),
            >::empty());
            assert(gsv.subrange(0, gsv.len() as int) =~= gsv);
        }
        while gi < self.args.len()
            invariant
                gi <= gsv.len(),
                gsv.len() == self.args@.len(),
                spec_property_reason(gsv) == out@.map(
                    |k: int, x: (Property, Option<String>)| pr_view(x),
                ) + spec_property_reason(gsv.subrange(gi as int, gsv.len() as int)),
            decreases gsv.len() - gi,
        {
            let ghost outv = out@.map(|k: int, x: (Property, Option<String>)| pr_view(x));
            let ghost rem = gsv.subrange(gi as int, gsv.len() as int);
            let ghost chunk = gsv[gi as int].tags.map(
                |k: int, p: PropV| (p, gsv[gi as int].desc),
            );
            proof {
                assert(forall|k: int|
                    0 <= k < outv.len() ==> pr_view(#[trigger] out@[k]) == outv[k]);
            }
            let group = &self.args[gi];
            let mut pi: usize = 0;
            while pi < group.tags.len()
                invariant
                    pi <= group.tags@.len(),
                    chunk.len() == group.tags@.len(),
                    out@.len() == outv.len() + pi,
                    forall|k: int| 0 <= k < outv.len() ==> pr_view(#[trigger] out@[k]) == outv[k],
                    forall|k: int|
                        0 <= k < pi ==> pr_view(#[trigger] out@[outv.len() + k]) == chunk[k],
                decreases group.tags@.len() - pi,
            {
                let p = clone_property(&group.tags[pi]);
                let d = match &group.desc {
                    Some(s) => Some(s.clone()),
                    None => None,
                };
                proof {
                    let ggi = gsv[gi as int];
                    assert(chunk[pi as int] == (ggi.tags[pi as int], ggi.desc));
                    assert(p@ == ggi.tags[pi as int]);
                    assert(pr_view((p, d)) == (ggi.tags[pi as int], ggi.desc));
                }
                out.push((p, d));
                pi += 1;
            }
            proof {
                let lhs = out@.map(|k: int, x: (Property, Option<String>)| pr_view(x));
                let rhs = outv + chunk;
                assert(lhs.len() == rhs.len());
                assert forall|k: int| 0 <= k < lhs.len() implies lhs[k] == rhs[k] by {
                    assert(lhs[k] == pr_view(out@[k]));
                    if k < outv.len() {
                        assert(pr_view(out@[k]) == outv[k]);
                    } else {
                        assert(pr_view(out@[outv.len() + (k - outv.len())]) == chunk[k
                            - outv.len()]);
                    }
                }
                assert(lhs =~= rhs);
            }
            proof {
                assert(rem[0] == gsv[gi as int]);
                assert(rem.drop_first() =~= gsv.subrange(gi + 1, gsv.len() as int));
                assert((outv + chunk) + spec_property_reason(
                    gsv.subrange(gi + 1, gsv.len() as int),
                ) =~= outv + (chunk + spec_property_reason(
                    gsv.subrange(gi + 1, gsv.len() as int),
                )));
            }
            gi += 1;
        }
        proof {
            assert(gsv.subrange(gsv.len() as int, gsv.len() as int) =~= Seq::<GroupV>::empty());
            assert(out@.map(|k: int, x: (Property, Option<String>)| pr_view(x)) + Seq::<
                (PropV, Option<Seq<char>>),
            >::empty() =~= out@.map(|k: int, x: (Property, Option<String>)| pr_view(x)));
        }
        out
    }
}

/// An exact copy of a parsed property.
#[verifier::loop_isolation(false)]
pub fn clone_property(p: &Property) -> (r: Property)
    ensures
        r@ == p@,
{
    let mut args: Vec<String> = Vec::new();
    let mut i: usize = 0;
    while i < p.args.len()
        invariant
            i <= p.args@.len(),
            args@.len() == i,
            forall|k: int| 0 <= k < i ==> args@[k]@ == p.args@[k]@,
        decreases p.args@.len() - i,
    {
        args.push(p.args[i].clone());
        i += 1;
    }
    let r = Property {
        tag: TagNameType { typ: p.tag.typ, name: p.tag.name.clone() },
        args,
    };
    proof {
        assert(r.args.deep_view() =~= p.args.deep_view());
    }
    r
}

/// The position of the first `}` at or after `i`.
pub open spec fn spec_find_close(s: Seq<char>, i: int) -> Option<int>
    decreases s.len() - i,
{
    if i < 0 || i >= s.len() {
        None
    } else if s[i] == '}' {
        Some(i)
    } else {
        spec_find_close(s, i + 1)
    }
}

proof fn lemma_find_close_bounds(s: Seq<char>, i: int)
    requires
        0 <= i,
    ensures
        match spec_find_close(s, i) {
            Some(j) => i <= j < s.len(),
            None => true,
        },
    decreases s.len() - i,
{
    if i < s.len() && s[i] != '}' {
        lemma_find_close_bounds(s, i + 1);
    }
}

/// Whether `key` is one of the declared placeholder names.
pub open spec fn spec_has_key(keys: Seq<Seq<char>>, key: Seq<char>) -> bool {
    exists|i: int| 0 <= i < keys.len() && keys[i] == key
}

/// The value bound to `key` among the first `n` positional pairs, the last
/// occurrence winning; empty if none of the first `n` keys is `key`.
pub open spec fn spec_lookup(
    keys: Seq<Seq<char>>,
    vals: Seq<Seq<char>>,
    n: int,
    key: Seq<char>,
) -> Seq<char>
    decreases n,
{
    if n <= 0 {
        Seq::empty()
    } else if keys[n - 1] == key {
        vals[n - 1]
    } else {
        spec_lookup(keys, vals, n - 1, key)
    }
}

pub open spec fn min_int(a: int, b: int) -> int {
    if a < b {
        a
    } else {
        b
    }
}

/// What a `{key}` placeholder is replaced by: the user expression zipped
/// positionally against the declared names, missing trailing arguments
/// giving the empty string.
pub open spec fn spec_subst(keys: Seq<Seq<char>>, vals: Seq<Seq<char>>, key: Seq<char>) -> Seq<
    char,
> {
    spec_lookup(keys, vals, min_int(keys.len() as int, vals.len() as int), key)
}

/// The description template rendered from position `i`: `{name}` runs
/// whose name is a declared placeholder are substituted, other text is
/// kept; an unclosed `{` keeps the rest verbatim.
pub open spec fn spec_template(
    desc: Seq<char>,
    keys: Seq<Seq<char>>,
    vals: Seq<Seq<char>>,
    i: int,
    fuel: nat,
) -> Seq<char>
    decreases fuel,
{
    if fuel == 0 || i < 0 || i >= desc.len() {
        Seq::empty()
    } else if desc[i] == '{' {
        match spec_find_close(desc, i + 1) {
            None => desc.subrange(i, desc.len() as int),
            Some(j) => {
                let key = desc.subrange(i + 1, j);
                let rep = if spec_has_key(keys, key) {
                    spec_subst(keys, vals, key)
                } else {
                    desc.subrange(i, j + 1)
                };
                rep + spec_template(desc, keys, vals, j + 1, (fuel - 1) as nat)
            },
        }
    } else {
        seq![desc[i]] + spec_template(desc, keys, vals, i + 1, (fuel - 1) as nat)
    }
}

/// The fully rendered description template.
pub open spec fn spec_template_full(
    desc: Seq<char>,
    keys: Seq<Seq<char>>,
    vals: Seq<Seq<char>>,
) -> Seq<char> {
    spec_template(desc, keys, vals, 0, (desc.len() + 1) as nat)
}

proof fn lemma_template_fuel(
    desc: Seq<char>,
    keys: Seq<Seq<char>>,
    vals: Seq<Seq<char>>,
    i: int,
    f1: nat,
    f2: nat,
)
    requires
        0 <= i,
        desc.len() + 1 - i <= f1,
        desc.len() + 1 - i <= f2,
    ensures
        spec_template(desc, keys, vals, i, f1) == spec_template(desc, keys, vals, i, f2),
    decreases f1,
{
    if i < desc.len() {
        if desc[i] == '{' {
            lemma_find_close_bounds(desc, i + 1);
            match spec_find_close(desc, i + 1) {
                None => {},
                Some(j) => {
                    lemma_template_fuel(desc, keys, vals, j + 1, (f1 - 1) as nat, (f2 - 1) as nat);
                },
            }
        } else {
            lemma_template_fuel(desc, keys, vals, i + 1, (f1 - 1) as nat, (f2 - 1) as nat);
        }
    }
}

/// The last-position value for `key`, or empty when it is only padded.
#[verifier::loop_isolation(false)]
fn lookup_value(keys: &Vec<String>, vals: &Vec<String>, key: &str) -> (r: String)
    ensures
        r@ == spec_subst(keys.deep_view(), vals.deep_view(), key@),
{
    let n = if keys.len() < vals.len() {
        keys.len()
    } else {
        vals.len()
    };
    proof {
        assert(n as int == min_int(keys.deep_view().len() as int, vals.deep_view().len() as int));
    }
    let mut j: usize = n;
    while j > 0
        invariant
            j <= n,
            spec_lookup(keys.deep_view(), vals.deep_view(), n as int, key@) == spec_lookup(
                keys.deep_view(),
                vals.deep_view(),
                j as int,
                key@,
            ),
        decreases j,
    {
        if crate::strutil::string_eq_str(&keys[j - 1], key) {
            proof {
                assert(keys.deep_view()[j - 1] == key@);
            }
            return vals[j - 1].clone();
        }
        j -= 1;
    }
    String::new()
}

/// Renders a description template against positional arguments, mirroring
/// `spec_template_full`.
#[verifier::loop_isolation(false)]
pub fn render_template(desc: &str, keys: &Vec<String>, vals: &Vec<String>) -> (r: String)
    ensures
        r@ == spec_template_full(desc@, keys.deep_view(), vals.deep_view()),
{
    let dv = crate::strutil::chars_of(desc);
    let ghost kd = keys.deep_view();
    let ghost vd = vals.deep_view();
    let mut out = String::new();
    let mut i: usize = 0;
    proof {
        assert(out@ + spec_template(desc@, kd, vd, 0, (desc@.len() + 1) as nat) =~= spec_template(
            desc@,
            kd,
            vd,
            0,
            (desc@.len() + 1) as nat,
        ));
    }
    loop
        invariant
            i <= dv@.len(),
            dv@ == desc@,
            spec_template_full(desc@, kd, vd) == out@ + spec_template(
                desc@,
                kd,
                vd,
                i as int,
                (desc@.len() + 1 - i) as nat,
            ),
        decreases dv@.len() - i,
    {
        if i >= dv.len() {
            proof {
                assert(out@ + Seq::<char>::empty() =~= out@);
            }
            return out;
        }
        let c = dv[i];
        if c == '{' {
            let mut j = i + 1;
            while j < dv.len() && dv[j] != '}'
                invariant
                    i + 1 <= j <= dv@.len(),
                    spec_find_close(dv@, i + 1) == spec_find_close(dv@, j as int),
                decreases dv@.len() - j,
            {
                j += 1;
            }
            if j >= dv.len() {
                // no closing brace: the rest is kept verbatim
                let rest = crate::strutil::range_to_string(&dv, i, dv.len());
                out.append(rest.as_str());
                proof {
                    assert(out@ =~= spec_template_full(desc@, kd, vd));
                }
                return out;
            }
            let key = crate::strutil::range_to_string(&dv, i + 1, j);
            let mut present = false;
            let mut q: usize = 0;
            while q < keys.len()
                invariant
                    q <= kd.len(),
                    !present,
                    forall|z: int| 0 <= z < q ==> kd[z] != key@,
                decreases kd.len() - q,
            {
                if crate::strutil::string_eq_str(&keys[q], key.as_str()) {
                    present = true;
                    proof {
                        assert(kd[q as int] == key@);
                    }
                    break ;
                }
                q += 1;
            }
            let ghost pre = out@;
            if present {
                let v = lookup_value(keys, vals, key.as_str());
                out.append(v.as_str());
                proof {
                    assert(spec_has_key(kd, key@));
                }
            } else {
                let lit = crate::strutil::range_to_string(&dv, i, j + 1);
                out.append(lit.as_str());
                proof {
                    assert(!spec_has_key(kd, key@));
                }
            }
            proof {
                lemma_template_fuel(
                    desc@,
                    kd,
                    vd,
                    j + 1,
                    (desc@.len() - i) as nat,
                    (desc@.len() + 1 - (j + 1)) as nat,
                );
                assert(spec_find_close(desc@, i + 1) == Some(j as int));
                let tnext = spec_template(
                    desc@,
                    kd,
                    vd,
                    j + 1,
                    (desc@.len() + 1 - (j + 1)) as nat,
                );
                let key2 = desc@.subrange(i + 1, j as int);
                assert(key@ == key2);
                let rep = if spec_has_key(kd, key2) {
                    spec_subst(kd, vd, key2)
                } else {
                    desc@.subrange(i as int, j + 1)
                };
                assert(out@ == pre + rep);
                assert(pre + (rep + tnext) =~= (pre + rep) + tnext);
            }
            i = j + 1;
        } else {
            let ghost pre = out@;
            crate::strutil::push_char(&mut out, c);
            proof {
                lemma_template_fuel(
                    desc@,
                    kd,
                    vd,
                    i + 1,
                    (desc@.len() - i) as nat,
                    (desc@.len() + 1 - (i + 1)) as nat,
                );
                let tnext = spec_template(
                    desc@,
                    kd,
                    vd,
                    i + 1,
                    (desc@.len() + 1 - (i + 1)) as nat,
                );
                assert(pre + (seq![desc@[i as int]] + tnext) =~= pre.push(c) + tnext);
            }
            i = i + 1;
        }
    }
}

/// The rendered description of an ordinary (non-`any`) property: its
/// tag's template filled positionally with the written arguments; `None`
/// when the tag is unknown or declares no description.
pub open spec fn spec_gen_doc_plain(
    p: PropV,
    m: Seq<crate::configuration::RegEntry>,
) -> Option<Seq<char>> {
    match crate::configuration::reg_find(m, p.name) {
        None => None,
        Some(tag) => match crate::configuration::tag_model(&tag).desc {
            None => None,
            Some(d) => Some(spec_template_full(d, tag.args.deep_view(), p.args)),
        },
    }
}

/// One bullet line of a nested alternative list.
pub open spec fn spec_sp_in_any_line(
    p: PropV,
    m: Seq<crate::configuration::RegEntry>,
    heading_tag: bool,
) -> Seq<char> {
    match spec_gen_doc_plain(p, m) {
        None => if heading_tag {
            "    * "@ + p.name
        } else {
            Seq::empty()
        },
        Some(d) => if heading_tag {
            "    * "@ + p.name + ": "@ + d
        } else {
            "    * "@ + d
        },
    }
}

/// A nested alternative group rendered as its member lines joined by
/// newlines.
pub open spec fn spec_sp_in_any_group(
    g: GroupV,
    m: Seq<crate::configuration::RegEntry>,
    heading_tag: bool,
) -> Seq<char> {
    crate::strutil::spec_join(
        g.tags.map(|k: int, p: PropV| spec_sp_in_any_line(p, m, heading_tag)),
        "\n"@,
    )
}

/// The nested groups of an `any` occurrence, rendered one after another.
pub open spec fn spec_any_groups_doc(
    gs: Seq<GroupV>,
    m: Seq<crate::configuration::RegEntry>,
    heading_tag: bool,
) -> Seq<char>
    decreases gs.len(),
{
    if gs.len() == 0 {
        Seq::empty()
    } else {
        spec_sp_in_any_group(gs[0], m, heading_tag) + spec_any_groups_doc(
            gs.drop_first(),
            m,
            heading_tag,
        )
    }
}

/// The documentation of one property: an `any` occurrence renders its
/// alternatives as a bulleted sub-list under a fixed lead-in sentence,
/// members rendered by their tags' descriptions; an ordinary property
/// renders its filled template.
pub open spec fn spec_gen_doc(
    p: PropV,
    m: Seq<crate::configuration::RegEntry>,
    heading_tag: bool,
) -> Option<Seq<char>> {
    if p.name == crate::configuration::builtin::spec_any_name() {
        if p.args.len() == 0 {
            None
        } else {
            Some(
                "Only one of the following properties requires being satisfied:\n"@
                    + spec_any_groups_doc(spec_groups_of_args(p.args), m, heading_tag),
            )
        }
    } else {
        spec_gen_doc_plain(p, m)
    }
}

/// Renders the description of an ordinary property.
fn gen_doc_plain(p: &Property, reg: &crate::configuration::Registry) -> (r: Option<String>)
    ensures
        match r {
            None => spec_gen_doc_plain(p@, reg.map@) is None,
            Some(s) => spec_gen_doc_plain(p@, reg.map@) == Some(s@),
        },
{
    match crate::configuration::get_tag_opt(reg, p.tag.name.as_str()) {
        None => None,
        Some(tag) => match &tag.desc {
            None => None,
            Some(d) => Some(render_template(d.as_str(), &tag.args, &p.args)),
        },
    }
}

/// Renders one bullet line of a nested alternative list.
fn sp_in_any_line(
    p: &Property,
    reg: &crate::configuration::Registry,
    heading_tag: bool,
) -> (r: String)
    ensures
        r@ == spec_sp_in_any_line(p@, reg.map@, heading_tag),
{
    match gen_doc_plain(p, reg) {
        None => {
            if heading_tag {
                let mut s = String::from_str("    * ");
                s.append(p.tag.name.as_str());
                s
            } else {
                String::new()
            }
        },
        Some(d) => {
            if heading_tag {
                let mut s = String::from_str("    * ");
                s.append(p.tag.name.as_str());
                s.append(": ");
                s.append(d.as_str());
                s
            } else {
                let mut s = String::from_str("    * ");
                s.append(d.as_str());
                s
            }
        },
    }
}

impl PropertiesAndReason {
    /// Renders this group as a nested alternative sub-list.
    #[verifier::loop_isolation(false)]
    pub fn gen_sp_in_any_doc(
        &self,
        reg: &crate::configuration::Registry,
        heading_tag: bool,
    ) -> (r: String)
        ensures
            r@ == spec_sp_in_any_group(self@, reg.map@, heading_tag),
    {
        let mut lines: Vec<String> = Vec::new();
        let mut i: usize = 0;
        while i < self.tags.len()
            invariant
                i <= self.tags@.len(),
                lines@.len() == i,
                forall|k: int|
                    0 <= k < i ==> (#[trigger] lines@[k])@ == spec_sp_in_any_line(
                        self.tags@[k]@,
                        reg.map@,
                        heading_tag,
                    ),
            decreases self.tags@.len() - i,
        {
            lines.push(sp_in_any_line(&self.tags[i], reg, heading_tag));
            i += 1;
        }
        proof {
            let target = self@.tags.map(
                |k: int, p: PropV| spec_sp_in_any_line(p, reg.map@, heading_tag),
            );
            assert(lines.deep_view().len() == target.len());
            assert forall|k: int| 0 <= k < target.len() implies lines.deep_view()[k]
                == target[k] by {
                assert(lines.deep_view()[k] == lines@[k]@);
                assert(self@.tags[k] == self.tags@[k]@);
            }
            assert(lines.deep_view() =~= target);
        }
        crate::strutil::join_strings(&lines, "\n")
    }

    /// Whether this group contributes any documentation at all.
    pub fn need_gen_doc(&self) -> (r: bool)
        ensures
            r == (self@.desc is Some || self@.tags.len() > 0),
    {
        self.desc.is_some() || self.tags.len() > 0
    }
}

/// Renders the full documentation of one property, alternatives included.
#[verifier::loop_isolation(false)]
pub fn gen_property_doc(
    p: &Property,
    reg: &crate::configuration::Registry,
    heading_tag: bool,
) -> (r: Option<String>)
    ensures
        match r {
            None => spec_gen_doc(p@, reg.map@, heading_tag) is None,
            Some(s) => spec_gen_doc(p@, reg.map@, heading_tag) == Some(s@),
        },
{
    match p.args_in_any_tag() {
        None => {
            if crate::strutil::string_eq_str(&p.tag.name, "any") {
                proof {
                    assert(p@.args.len() == 0);
                }
                return None;
            }
            gen_doc_plain(p, reg)
        },
        Some(groups) => {
            let ghost gsv = groups@.map(|k: int, g: PropertiesAndReason| g@);
            let mut doc = String::from_str(
                "Only one of the following properties requires being satisfied:\n",
            );
            let ghost head = doc@;
            let mut i: usize = 0;
            proof {
                assert(gsv.subrange(0, gsv.len() as int) =~= gsv);
            }
            while i < groups.len()
                invariant
                    i <= gsv.len(),
                    gsv.len() == groups@.len(),
                    head + spec_any_groups_doc(gsv, reg.map@, heading_tag) == doc@
                        + spec_any_groups_doc(
                        gsv.subrange(i as int, gsv.len() as int),
                        reg.map@,
                        heading_tag,
                    ),
                decreases gsv.len() - i,
            {
                let ghost rem = gsv.subrange(i as int, gsv.len() as int);
                let ghost pre = doc@;
                proof {
                    assert(rem[0] == gsv[i as int]);
                    assert(rem.drop_first() =~= gsv.subrange(i + 1, gsv.len() as int));
                }
                let part = groups[i].gen_sp_in_any_doc(reg, heading_tag);
                doc.append(part.as_str());
                proof {
                    assert(gsv[i as int] == groups@[i as int]@);
                    assert(pre + (spec_sp_in_any_group(gsv[i as int], reg.map@, heading_tag)
                        + spec_any_groups_doc(rem.drop_first(), reg.map@, heading_tag)) =~= doc@
                        + spec_any_groups_doc(rem.drop_first(), reg.map@, heading_tag));
                }
                i += 1;
            }
            proof {
                assert(gsv.subrange(gsv.len() as int, gsv.len() as int) =~= Seq::<GroupV>::empty());
                assert(doc@ + Seq::<char>::empty() =~= doc@);
            }
            Some(doc)
        },
    }
}

impl Property {
    /// The documentation this property generates, if any.
    pub fn gen_doc(
        &self,
        reg: &crate::configuration::Registry,
        heading_tag: bool,
    ) -> (r: Option<String>)
        ensures
            match r {
                None => spec_gen_doc(self@, reg.map@, heading_tag) is None,
                Some(s) => spec_gen_doc(self@, reg.map@, heading_tag) == Some(s@),
            },
    {
        gen_property_doc(self, reg, heading_tag)
    }
}

/// One hover line for a property: its name, with its documentation when
/// there is any.
pub open spec fn spec_hover_item(
    p: PropV,
    m: Seq<crate::configuration::RegEntry>,
    heading_tag: bool,
) -> Seq<char> {
    match spec_gen_doc(p, m, heading_tag) {
        Some(d) => "* "@ + p.name + ": "@ + d + "\n"@,
        None => "* "@ + p.name + "\n"@,
    }
}

/// The hover items of a tag list, concatenated.
pub open spec fn spec_hover_items(
    ps: Seq<PropV>,
    m: Seq<crate::configuration::RegEntry>,
    heading_tag: bool,
) -> Seq<char>
    decreases ps.len(),
{
    if ps.len() == 0 {
        Seq::empty()
    } else {
        spec_hover_item(ps[0], m, heading_tag) + spec_hover_items(ps.drop_first(), m, heading_tag)
    }
}

/// The hover rendering of a group: its shared reason first, then one line
/// per property.
pub open spec fn spec_gen_hover_doc(
    g: GroupV,
    m: Seq<crate::configuration::RegEntry>,
    heading_tag: bool,
) -> Seq<char> {
    (match g.desc {
        Some(d) => d + "\n\n"@,
        None => Seq::<char>::empty(),
    }) + spec_hover_items(g.tags, m, heading_tag)
}

impl PropertiesAndReason {
    /// The safety documentation rendered for an editor hover.
    #[verifier::loop_isolation(false)]
    pub fn gen_hover_doc(
        &self,
        reg: &crate::configuration::Registry,
        heading_tag: bool,
    ) -> (r: String)
        ensures
            r@ == spec_gen_hover_doc(self@, reg.map@, heading_tag),
    {
        let mut doc = String::new();
        if let Some(d) = &self.desc {
            doc.append(d.as_str());
            doc.append("\n\n");
        }
        let ghost head = doc@;
        let ghost tv = self@.tags;
        let mut i: usize = 0;
        proof {
            assert(tv.subrange(0, tv.len() as int) =~= tv);
            assert(head + spec_hover_items(tv, reg.map@, heading_tag) == doc@ + spec_hover_items(
                tv.subrange(0, tv.len() as int),
                reg.map@,
                heading_tag,
            ));
        }
        while i < self.tags.len()
            invariant
                i <= tv.len(),
                tv.len() == self.tags@.len(),
                head + spec_hover_items(tv, reg.map@, heading_tag) == doc@ + spec_hover_items(
                    tv.subrange(i as int, tv.len() as int),
                    reg.map@,
                    heading_tag,
                ),
            decreases tv.len() - i,
        {
            let ghost rem = tv.subrange(i as int, tv.len() as int);
            let ghost pre = doc@;
            proof {
                assert(rem[0] == tv[i as int]);
                assert(rem.drop_first() =~= tv.subrange(i + 1, tv.len() as int));
                assert(tv[i as int] == self.tags@[i as int]@);
            }
            let p = &self.tags[i];
            doc.append("* ");
            doc.append(p.tag.name.as_str());
            match gen_property_doc(p, reg, heading_tag) {
                Some(d) => {
                    doc.append(": ");
                    doc.append(d.as_str());
                    doc.append("\n");
                },
                None => {
                    doc.append("\n");
                },
            }
            proof {
                assert(doc@ == pre + spec_hover_item(tv[i as int], reg.map@, heading_tag));
                assert(pre + (spec_hover_item(tv[i as int], reg.map@, heading_tag)
                    + spec_hover_items(rem.drop_first(), reg.map@, heading_tag)) =~= doc@
                    + spec_hover_items(rem.drop_first(), reg.map@, heading_tag));
            }
            i += 1;
        }
        proof {
            assert(tv.subrange(tv.len() as int, tv.len() as int) =~= Seq::<PropV>::empty());
            assert(doc@ + Seq::<char>::empty() =~= doc@);
        }
        doc
    }
}

/// The doc lines of a tag list under the given options: with the heading
/// option the tag name leads each line, without it undocumented tags are
/// skipped.
pub open spec fn spec_tag_doc_lines(
    ps: Seq<PropV>,
    m: Seq<crate::configuration::RegEntry>,
    heading_tag: bool,
) -> Seq<Seq<char>>
    decreases ps.len(),
{
    if ps.len() == 0 {
        Seq::empty()
    } else {
        let rest = spec_tag_doc_lines(ps.drop_first(), m, heading_tag);
        match (heading_tag, spec_gen_doc(ps[0], m, heading_tag)) {
            (true, None) => seq!["* "@ + ps[0].name] + rest,
            (true, Some(d)) => seq!["* "@ + ps[0].name + ": "@ + d] + rest,
            (false, None) => rest,
            (false, Some(d)) => seq!["* "@ + d] + rest,
        }
    }
}

/// The doc lines one group contributes: an optional safety heading, the
/// shared reason, then one line per documented tag.
pub open spec fn spec_gen_doc_lines(
    g: GroupV,
    m: Seq<crate::configuration::RegEntry>,
    opt: crate::configuration::GenDocOption,
) -> Seq<Seq<char>> {
    let head: Seq<Seq<char>> = if opt.heading_safety_title && (g.desc is Some || g.tags.len() > 0) {
        seq!["# Safety\n\n"@]
    } else {
        Seq::empty()
    };
    let desc_part: Seq<Seq<char>> = match g.desc {
        Some(d) => seq![d],
        None => Seq::empty(),
    };
    head + desc_part + spec_tag_doc_lines(g.tags, m, opt.heading_tag)
}

impl PropertiesAndReason {
    /// The doc-comment lines this group generates, one string per line.
    #[verifier::loop_isolation(false)]
    pub fn gen_doc(
        &self,
        reg: &crate::configuration::Registry,
        opt: crate::configuration::GenDocOption,
    ) -> (r: Vec<String>)
        ensures
            r.deep_view() == spec_gen_doc_lines(self@, reg.map@, opt),
    {
        let mut lines: Vec<String> = Vec::new();
        if opt.heading_safety_title && self.need_gen_doc() {
            lines.push(String::from_str("# Safety\n\n"));
        }
        if let Some(d) = &self.desc {
            lines.push(d.clone());
        }
        let ghost head = lines.deep_view();
        let ghost tv = self@.tags;
        let mut i: usize = 0;
        proof {
            assert(tv.subrange(0, tv.len() as int) =~= tv);
            let hd = spec_gen_doc_lines(self@, reg.map@, opt);
            assert(head + spec_tag_doc_lines(tv, reg.map@, opt.heading_tag) =~= hd);
        }
        while i < self.tags.len()
            invariant
                i <= tv.len(),
                tv.len() == self.tags@.len(),
                head + spec_tag_doc_lines(tv, reg.map@, opt.heading_tag) =~= lines.deep_view()
                    + spec_tag_doc_lines(
                    tv.subrange(i as int, tv.len() as int),
                    reg.map@,
                    opt.heading_tag,
                ),
            decreases tv.len() - i,
        {
            let ghost rem = tv.subrange(i as int, tv.len() as int);
            let ghost pre = lines.deep_view();
            proof {
                assert(rem[0] == tv[i as int]);
                assert(rem.drop_first() =~= tv.subrange(i + 1, tv.len() as int));
                assert(tv[i as int] == self.tags@[i as int]@);
            }
            let p = &self.tags[i];
            let doc = gen_property_doc(p, reg, opt.heading_tag);
            if opt.heading_tag {
                let mut line = String::from_str("* ");
                line.append(p.tag.name.as_str());
                match doc {
                    Some(d) => {
                        line.append(": ");
                        line.append(d.as_str());
                    },
                    None => {},
                }
                lines.push(line);
                proof {
                    assert(lines.deep_view() =~= pre.push(lines@[lines@.len() - 1]@));
                }
            } else {
                match doc {
                    Some(d) => {
                        let mut line = String::from_str("* ");
                        line.append(d.as_str());
                        lines.push(line);
                        proof {
                            assert(lines.deep_view() =~= pre.push(lines@[lines@.len() - 1]@));
                        }
                    },
                    None => {},
                }
            }
            proof {
                let step = spec_tag_doc_lines(rem, reg.map@, opt.heading_tag);
                let rest = spec_tag_doc_lines(rem.drop_first(), reg.map@, opt.heading_tag);
                match (opt.heading_tag, spec_gen_doc(tv[i as int], reg.map@, opt.heading_tag)) {
                    (true, None) => {
                        assert(pre + (seq!["* "@ + tv[i as int].name] + rest) =~= lines.deep_view()
                            + rest);
                    },
                    (true, Some(d)) => {
                        assert(pre + (seq!["* "@ + tv[i as int].name + ": "@ + d] + rest)
                            =~= lines.deep_view() + rest);
                    },
                    (false, None) => {
                        assert(pre + rest =~= lines.deep_view() + rest);
                    },
                    (false, Some(d)) => {
                        assert(pre + (seq!["* "@ + d] + rest) =~= lines.deep_view() + rest);
                    },
                }
            }
            i += 1;
        }
        proof {
            assert(tv.subrange(tv.len() as int, tv.len() as int) =~= Seq::<PropV>::empty());
            assert(lines.deep_view() + Seq::<Seq<char>>::empty() =~= lines.deep_view());
            assert(lines.deep_view() =~= spec_gen_doc_lines(self@, reg.map@, opt));
        }
        lines
    }
}

/// Every property of every group, in order, reasons dropped.
pub open spec fn spec_flat_props(gs: Seq<GroupV>) -> Seq<PropV> {
    spec_property_reason(gs).map(|k: int, x: (PropV, Option<Seq<char>>)| x.0)
}

/// A refused attribute: text the grammar rejects, or a property whose kind
/// qualifier the registry refuses.
#[derive(Debug)]
pub enum AttrParseError {
    /// The text is not a well-formed safety attribute.
    Malformed,
    /// The first property that failed the kind check.
    Kind(TypeCheckError),
}

/// The first property in the list that the registry refuses.
pub open spec fn spec_first_bad_idx(
    ps: Seq<PropV>,
    m: Seq<crate::configuration::RegEntry>,
) -> Option<int>
    decreases ps.len(),
{
    if ps.len() == 0 {
        None
    } else if !spec_type_check(m, ps[0].name, ps[0].typ) {
        Some(0)
    } else {
        match spec_first_bad_idx(ps.drop_first(), m) {
            Some(i) => Some(i + 1),
            None => None,
        }
    }
}

pub proof fn lemma_first_bad_props(ps: Seq<PropV>, m: Seq<crate::configuration::RegEntry>)
    ensures
        match spec_first_bad_idx(ps, m) {
            Some(i) => 0 <= i < ps.len() && !spec_type_check(m, ps[i].name, ps[i].typ)
                && forall|k: int| 0 <= k < i ==> spec_type_check(m, ps[k].name, ps[k].typ),
            None => forall|k: int|
                0 <= k < ps.len() ==> spec_type_check(m, ps[k].name, ps[k].typ),
        },
    decreases ps.len(),
{
    if ps.len() > 0 && spec_type_check(m, ps[0].name, ps[0].typ) {
        lemma_first_bad_props(ps.drop_first(), m);
        assert forall|k: int| 1 <= k < ps.len() implies ps.drop_first()[k - 1] == ps[k] by {}
    }
}

/// What a kind-check error must say of the property it refuses.
pub open spec fn spec_kind_error_for(
    e: TypeCheckError,
    p: PropV,
    m: Seq<crate::configuration::RegEntry>,
) -> bool {
    match e {
        TypeCheckError::UnknownTag(n) => n@ == p.name && crate::configuration::reg_find(m, p.name)
            is None,
        TypeCheckError::KindNotDeclared(n) => n@ == p.name && p.typ is Some,
        TypeCheckError::AmbiguousKind(n) => n@ == p.name && p.typ is None,
    }
}

/// Parses a full attribute and checks every property's kind qualifier
/// against the registry: the checking-enabled mode, in which a bad
/// qualifier is fatal to the enclosing parse.
#[verifier::loop_isolation(false)]
pub fn parse_attr_and_check(
    attr: &str,
    reg: &crate::configuration::Registry,
) -> (r: Result<SafetyAttrArgs, AttrParseError>)
    ensures
        match spec_parse_attr(attr@) {
            None => r matches Err(AttrParseError::Malformed),
            Some(gs) => match spec_first_bad_idx(spec_flat_props(gs), reg.map@) {
                None => r matches Ok(a) && a@ == gs,
                Some(i) => r matches Err(AttrParseError::Kind(e)) && spec_kind_error_for(
                    e,
                    spec_flat_props(gs)[i],
                    reg.map@,
                ),
            },
        },
{
    let a = match parse_safety_attr(attr) {
        None => {
            return Err(AttrParseError::Malformed);
        },
        Some(a) => a,
    };
    let flat = a.property_reason();
    let ghost ps = spec_flat_props(a@);
    proof {
        assert(ps.len() == flat@.len());
        assert forall|k: int| 0 <= k < ps.len() implies (#[trigger] flat@[k]).0@ == ps[k] by {
            assert(pr_view(flat@[k]).0 == ps[k]);
        }
        lemma_first_bad_props(ps, reg.map@);
    }
    let mut i: usize = 0;
    while i < flat.len()
        invariant
            i <= ps.len(),
            ps.len() == flat@.len(),
            forall|k: int| 0 <= k < ps.len() ==> (#[trigger] flat@[k]).0@ == ps[k],
            forall|k: int| 0 <= k < i ==> spec_type_check(reg.map@, ps[k].name, ps[k].typ),
        decreases ps.len() - i,
    {
        match flat[i].0.tag.check_type(reg) {
            Ok(_) => {},
            Err(e) => {
                proof {
                    assert(!spec_type_check(reg.map@, ps[i as int].name, ps[i as int].typ));
                    assert(spec_first_bad_idx(ps, reg.map@) == Some(i as int));
                }
                return Err(AttrParseError::Kind(e));
            },
        }
        i += 1;
    }
    proof {
        assert(spec_first_bad_idx(ps, reg.map@) is None);
    }
    Ok(a)
}

} // verus!
