use vstd::prelude::*;
use vstd::string::StrSliceExecFns;
use crate::ast::{lemma_group_view, Expr, ExprModel, LiteralModel, Operator, Type};
use crate::numeric::{i64_of, is_float, is_float_text, parse_i64};
use crate::text::{push_char, strings_view};
use crate::tokenizer::{lemma_token_bounds, tokenize, tokens_of, SyntaxError};

verus! {

/// Why a line could not be read as an expression.
#[derive(Debug, Clone, Copy, PartialEq, Eq, Structural)]
pub enum ParseError {
    /// The line could not be split into tokens.
    Syntax(SyntaxError),
    /// A token holds nothing but white space.
    EmptyToken,
    /// A bare token is neither a number nor an operator (strict mode only).
    UnrecognizedToken,
}

/// What becomes of a bare token that is neither a number nor an operator.
#[derive(Debug, Clone, Copy, PartialEq, Eq, Structural)]
pub enum Mode {
    /// Such a token is an error.
    Strict,
    /// Such a token is a symbol literal.
    Permissive,
}

/// Unicode white space, as `char::is_whitespace` counts it.
pub open spec fn is_white_space(c: char) -> bool {
    ('\u{9}' <= c && c <= '\u{D}') || c == ' ' || c == '\u{85}' || c == '\u{A0}' || c == '\u{1680}'
        || ('\u{2000}' <= c && c <= '\u{200A}') || c == '\u{2028}' || c == '\u{2029}'
        || c == '\u{202F}' || c == '\u{205F}' || c == '\u{3000}'
}

/// Nothing is left of `t` once surrounding white space is trimmed.
pub open spec fn is_blank(t: Seq<char>) -> bool {
    forall|i: int| 0 <= i < t.len() ==> is_white_space(#[trigger] t[i])
}

/// `t` starts with `open` and ends with `close`, as two distinct characters.
pub open spec fn delimited(t: Seq<char>, open: char, close: char) -> bool {
    t.len() >= 2 && t[0] == open && t.last() == close
}

/// `t` without its first and last characters.
pub open spec fn inner(t: Seq<char>) -> Seq<char> {
    t.subrange(1, t.len() - 1)
}

/// The operator that the token `t` spells, if any.
pub open spec fn operator_of(t: Seq<char>) -> Option<Operator> {
    if t.len() == 1 {
        if t[0] == '+' {
            Some(Operator::Add)
        } else if t[0] == '-' {
            Some(Operator::Sub)
        } else if t[0] == '*' {
            Some(Operator::Mul)
        } else if t[0] == '/' {
            Some(Operator::Div)
        } else if t[0] == '%' {
            Some(Operator::Mod)
        } else if t[0] == '>' {
            Some(Operator::Greater)
        } else if t[0] == '<' {
            Some(Operator::Less)
        } else {
            None
        }
    } else if t.len() == 2 && t[0] == '=' && t[1] == '=' {
        Some(Operator::Equal)
    } else {
        None
    }
}

/// What parsing the line `s` gives: a group of the nodes of its tokens.
pub open spec fn parse_model(s: Seq<char>, mode: Mode) -> Result<ExprModel, ParseError>
    decreases s.len(), 2nat, 0nat,
{
    match tokens_of(s) {
        Err(e) => Err(ParseError::Syntax(e)),
        Ok(toks) => match nodes_model(toks, s.len(), mode) {
            Ok(ns) => Ok(ExprModel::Group(ns)),
            Err(e) => Err(e),
        },
    }
}

/// The nodes of the tokens `toks`, in order, or the first token's error.
/// Each token is shorter than `bound`, the length of the line they came from.
pub open spec fn nodes_model(toks: Seq<Seq<char>>, bound: nat, mode: Mode) -> Result<
    Seq<ExprModel>,
    ParseError,
>
    decreases bound, 1nat, toks.len(),
{
    if toks.len() == 0 {
        Ok(seq![])
    } else {
        match nodes_model(toks.drop_last(), bound, mode) {
            Err(e) => Err(e),
            Ok(ns) => match node_model(toks.last(), bound, mode) {
                Err(e) => Err(e),
                Ok(n) => Ok(ns.push(n)),
            },
        }
    }
}

/// The node of one token, by the first rule that applies: integer, float,
/// blank, quoted string, parenthesized group, operator, and last the
/// fallback that `mode` chooses.
pub open spec fn node_model(t: Seq<char>, bound: nat, mode: Mode) -> Result<ExprModel, ParseError>
    decreases bound, 0nat, 0nat,
{
    if i64_of(t) is Some {
        Ok(ExprModel::Lit(LiteralModel::Integer(i64_of(t)->0)))
    } else if is_float_text(t) {
        Ok(ExprModel::Lit(LiteralModel::Float(t)))
    } else if is_blank(t) {
        Err(ParseError::EmptyToken)
    } else if delimited(t, '"', '"') {
        Ok(ExprModel::Lit(LiteralModel::Str(inner(t))))
    } else if delimited(t, '(', ')') {
        if inner(t).len() < bound {
            parse_model(inner(t), mode)
        } else {
            Err(ParseError::EmptyToken)
        }
    } else {
        match operator_of(t) {
            Some(o) => Ok(ExprModel::Op(o)),
            None => match mode {
                Mode::Permissive => Ok(ExprModel::Lit(LiteralModel::Symbol(t))),
                Mode::Strict => Err(ParseError::UnrecognizedToken),
            },
        }
    }
}

/// The models of a sequence of expression nodes.
pub open spec fn nodes_view(v: Seq<Expr>) -> Seq<ExprModel> {
    Seq::new(v.len(), |i: int| v[i]@)
}

proof fn lemma_nodes_error_stays(toks: Seq<Seq<char>>, k: int, bound: nat, mode: Mode)
    requires
        0 <= k <= toks.len(),
        nodes_model(toks.take(k), bound, mode) is Err,
    ensures
        nodes_model(toks, bound, mode) == nodes_model(toks.take(k), bound, mode),
    decreases toks.len() - k,
{
    if k < toks.len() {
        assert(toks.take(k + 1).drop_last() == toks.take(k));
        lemma_nodes_error_stays(toks, k + 1, bound, mode);
    } else {
        assert(toks.take(k) == toks);
    }
}

fn chars_of(s: &String) -> (r: Vec<char>)
    ensures
        r@ == s@,
{
    let n = s.as_str().unicode_len();
    let mut r: Vec<char> = Vec::new();
    let mut i: usize = 0;
    while i < n
        invariant
            n == s@.len(),
            i <= n,
            r@ == s@.take(i as int),
        decreases n - i,
    {
        r.push(s.as_str().get_char(i));
        assert(r@ =~= s@.take(i + 1));
        i = i + 1;
    }
    assert(s@.take(n as int) =~= s@);
    r
}

fn string_of(cs: &Vec<char>, a: usize, b: usize) -> (r: String)
    requires
        a <= b <= cs.len(),
    ensures
        r@ == cs@.subrange(a as int, b as int),
{
    let mut r = String::new();
    let mut i = a;
    while i < b
        invariant
            a <= i <= b <= cs.len(),
            r@ == cs@.subrange(a as int, i as int),
        decreases b - i,
    {
        push_char(&mut r, cs[i]);
        assert(r@ =~= cs@.subrange(a as int, i + 1));
        i = i + 1;
    }
    r
}

fn blank(cs: &Vec<char>) -> (r: bool)
    ensures
        r == is_blank(cs@),
{
    let mut i: usize = 0;
    while i < cs.len()
        invariant
            i <= cs.len(),
            forall|j: int| 0 <= j < i ==> is_white_space(#[trigger] cs@[j]),
        decreases cs.len() - i,
    {
        let c = cs[i];
        if !(('\u{9}' <= c && c <= '\u{D}') || c == ' ' || c == '\u{85}' || c == '\u{A0}'
            || c == '\u{1680}' || ('\u{2000}' <= c && c <= '\u{200A}') || c == '\u{2028}'
            || c == '\u{2029}' || c == '\u{202F}' || c == '\u{205F}' || c == '\u{3000}') {
            return false;
        }
        i = i + 1;
    }
    true
}

fn operator_from(cs: &Vec<char>) -> (r: Option<Operator>)
    ensures
        r == operator_of(cs@),
{
    if cs.len() == 1 {
        let c = cs[0];
        if c == '+' {
            Some(Operator::Add)
        } else if c == '-' {
            Some(Operator::Sub)
        } else if c == '*' {
            Some(Operator::Mul)
        } else if c == '/' {
            Some(Operator::Div)
        } else if c == '%' {
            Some(Operator::Mod)
        } else if c == '>' {
            Some(Operator::Greater)
        } else if c == '<' {
            Some(Operator::Less)
        } else {
            None
        }
    } else if cs.len() == 2 && cs[0] == '=' && cs[1] == '=' {
        Some(Operator::Equal)
    } else {
        None
    }
}

/// Reads one line as an expression. Tokens are classified in order; a
/// parenthesized token is parsed again, whole, as a nested expression.
pub fn parse_expr_with(source: String, mode: Mode) -> (r: Result<Expr, ParseError>)
    ensures
        r matches Ok(e) ==> parse_model(source@, mode) == Ok::<_, ParseError>(e@),
        r matches Err(x) ==> parse_model(source@, mode) == Err::<ExprModel, _>(x),
    decreases source@.len(),
{
    let ghost s = source@;
    let toks = match tokenize(source) {
        Ok(t) => t,
        Err(e) => return Err(ParseError::Syntax(e)),
    };
    let ghost tv = strings_view(toks@);
    proof {
        lemma_token_bounds(s);
    }
    let mut nodes: Vec<Expr> = Vec::new();
    let mut i: usize = 0;
    assert(tv.take(0) =~= Seq::<Seq<char>>::empty());
    assert(nodes_view(nodes@) =~= Seq::<ExprModel>::empty());
    while i < toks.len()
        invariant
            s == source@,
            tokens_of(s) == Ok::<_, SyntaxError>(tv),
            tv == strings_view(toks@),
            forall|k: int| 0 <= k < tv.len() ==> 0 < #[trigger] tv[k].len() <= s.len(),
            i <= toks.len(),
            nodes_model(tv.take(i as int), s.len(), mode) == Ok::<_, ParseError>(nodes_view(nodes@)),
        decreases toks.len() - i,
    {
        let t = &toks[i];
        let cs = chars_of(t);
        let n = cs.len();
        let ghost tc = tv[i as int];
        assert(tc == t@);
        assert(tv.take(i + 1).drop_last() =~= tv.take(i as int));
        assert(tv.take(i + 1).last() == tc);
        let node = if let Some(v) = parse_i64(&cs) {
            Expr::Literal(Type::Integer(v))
        } else if is_float(&cs) {
            Expr::Literal(Type::Float(t.clone()))
        } else if blank(&cs) {
            proof {
                lemma_nodes_error_stays(tv, i + 1, s.len(), mode);
            }
            return Err(ParseError::EmptyToken);
        } else if n >= 2 && cs[0] == '"' && cs[n - 1] == '"' {
            Expr::Literal(Type::String(string_of(&cs, 1, n - 1)))
        } else if n >= 2 && cs[0] == '(' && cs[n - 1] == ')' {
            let inner_text = string_of(&cs, 1, n - 1);
            assert(inner_text@ == inner(tc));
            match parse_expr_with(inner_text, mode) {
                Ok(e) => e,
                Err(x) => {
                    proof {
                        lemma_nodes_error_stays(tv, i + 1, s.len(), mode);
                    }
                    return Err(x);
                },
            }
        } else if let Some(o) = operator_from(&cs) {
            Expr::Operator(o)
        } else {
            match mode {
                Mode::Permissive => Expr::Literal(Type::Symbol(t.clone())),
                Mode::Strict => {
                    proof {
                        lemma_nodes_error_stays(tv, i + 1, s.len(), mode);
                    }
                    return Err(ParseError::UnrecognizedToken);
                },
            }
        };
        assert(node_model(tc, s.len(), mode) == Ok::<_, ParseError>(node@));
        let ghost before = nodes@;
        nodes.push(node);
        assert(nodes_view(nodes@) =~= nodes_view(before).push(node@));
        i = i + 1;
    }
    assert(tv.take(toks.len() as int) =~= tv);
    let ghost nv = nodes;
    let r = Expr::Expr(nodes);
    proof {
        lemma_group_view(nv);
        assert(nodes_view(nv@) =~= Seq::new(nv@.len(), |i: int| nv@[i]@));
    }
    Ok(r)
}

/// Reads one line as an expression; a bare token that is neither a number
/// nor an operator becomes a symbol.
pub fn parse_expr(source: String) -> (r: Result<Expr, ParseError>)
    ensures
        r matches Ok(e) ==> parse_model(source@, Mode::Permissive) == Ok::<_, ParseError>(e@),
        r matches Err(x) ==> parse_model(source@, Mode::Permissive) == Err::<ExprModel, _>(x),
{
    parse_expr_with(source, Mode::Permissive)
}

} // verus!
