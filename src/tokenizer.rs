use vstd::prelude::*;
use vstd::string::StrSliceExecFns;
use crate::text::{strings_view, push_char};

verus! {

/// Why a line could not be split into tokens.
#[derive(Debug, Clone, Copy, PartialEq, Eq, Structural)]
pub enum SyntaxError {
    /// A `)` with no open group, or a group still open at the end of the line.
    UnbalancedParenthesis,
    /// A quoted string still open at the end of the line.
    UnterminatedQuote,
}

/// Characters that separate bare tokens: ASCII space, tab, newline,
/// carriage return and the ideographic (full-width) space.
pub open spec fn is_separator(c: char) -> bool {
    c == ' ' || c == '\n' || c == '\t' || c == '\r' || c == '\u{3000}'
}

/// The tokenizer's state after some prefix of the input.
pub ghost struct ScanState {
    pub tokens: Seq<Seq<char>>,
    pub current: Seq<char>,
    pub depth: nat,
    pub in_quote: bool,
    pub failed: bool,
}

pub open spec fn initial_state() -> ScanState {
    ScanState { tokens: seq![], current: seq![], depth: 0, in_quote: false, failed: false }
}

/// Emits the pending token, if there is one.
pub open spec fn flush(st: ScanState) -> ScanState {
    if st.current.len() > 0 {
        ScanState { tokens: st.tokens.push(st.current), current: seq![], ..st }
    } else {
        st
    }
}

/// Appends one character to the pending token.
pub open spec fn append(st: ScanState, c: char) -> ScanState {
    ScanState { current: st.current.push(c), ..st }
}

/// One character of input, classified in the order the rules are tried.
pub open spec fn step(st: ScanState, c: char) -> ScanState {
    if st.failed {
        st
    } else if c == '(' && !st.in_quote {
        let st1 = if st.depth == 0 { flush(st) } else { st };
        ScanState { depth: st1.depth + 1, ..append(st1, c) }
    } else if c == ')' && !st.in_quote {
        if st.depth == 0 {
            ScanState { failed: true, ..st }
        } else if st.depth == 1 {
            ScanState {
                tokens: st.tokens.push(st.current.push(c)),
                current: seq![],
                depth: 0,
                ..st
            }
        } else {
            ScanState { depth: (st.depth - 1) as nat, ..append(st, c) }
        }
    } else if c == '"' {
        if st.depth > 0 {
            append(st, c)
        } else if st.in_quote {
            ScanState {
                tokens: st.tokens.push(st.current.push(c)),
                current: seq![],
                in_quote: false,
                ..st
            }
        } else {
            ScanState { in_quote: true, ..append(flush(st), c) }
        }
    } else if is_separator(c) {
        if st.depth > 0 || st.in_quote {
            append(st, c)
        } else {
            flush(st)
        }
    } else {
        append(st, c)
    }
}

/// The state after reading all of `s`, left to right.
pub open spec fn scan(s: Seq<char>) -> ScanState
    decreases s.len(),
{
    if s.len() == 0 {
        initial_state()
    } else {
        step(scan(s.drop_last()), s.last())
    }
}

/// What tokenizing `s` gives: the tokens in input order, or the error.
pub open spec fn tokens_of(s: Seq<char>) -> Result<Seq<Seq<char>>, SyntaxError> {
    let st = scan(s);
    if st.failed || st.depth > 0 {
        Err(SyntaxError::UnbalancedParenthesis)
    } else if st.in_quote {
        Err(SyntaxError::UnterminatedQuote)
    } else {
        Ok(flush(st).tokens)
    }
}

/// Splits one line into tokens: bare words, quoted strings with their quotes,
/// and parenthesized groups with their parentheses.
pub fn tokenize(input: String) -> (r: Result<Vec<String>, SyntaxError>)
    ensures
        r matches Ok(v) ==> tokens_of(input@) == Ok::<_, SyntaxError>(strings_view(v@)),
        r matches Err(e) ==> tokens_of(input@) == Err::<Seq<Seq<char>>, _>(e),
        r matches Ok(v) ==> forall|k: int| 0 <= k < v.len() ==> #[trigger] v@[k]@.len() > 0,
{
    proof {
        lemma_token_bounds(input@);
    }
    let n = input.as_str().unicode_len();
    let mut tokens: Vec<String> = Vec::new();
    let mut current = String::new();
    let mut depth: usize = 0;
    let mut in_quote = false;
    let mut i: usize = 0;
    proof {
        assert(input@.take(0) =~= Seq::<char>::empty());
        assert(strings_view(tokens@) =~= Seq::<Seq<char>>::empty());
    }
    while i < n
        invariant
            n == input@.len(),
            i <= n,
            depth <= i,
            scan(input@.take(i as int)) == (ScanState {
                tokens: strings_view(tokens@),
                current: current@,
                depth: depth as nat,
                in_quote,
                failed: false,
            }),
        decreases n - i,
    {
        let c = input.as_str().get_char(i);
        proof {
            assert(input@.take(i + 1).drop_last() == input@.take(i as int));
        }
        if c == '(' && !in_quote {
            if depth == 0 && current.as_str().unicode_len() > 0 {
                tokens.push(current);
                current = String::new();
            }
            depth = depth + 1;
            push_char(&mut current, c);
        } else if c == ')' && !in_quote {
            if depth == 0 {
                proof { lemma_failed_stays(input@, i as int + 1); }
                return Err(SyntaxError::UnbalancedParenthesis);
            }
            push_char(&mut current, c);
            depth = depth - 1;
            if depth == 0 {
                tokens.push(current);
                current = String::new();
            }
        } else if c == '"' {
            if depth > 0 {
                push_char(&mut current, c);
            } else if in_quote {
                push_char(&mut current, c);
                in_quote = false;
                tokens.push(current);
                current = String::new();
            } else {
                if current.as_str().unicode_len() > 0 {
                    tokens.push(current);
                    current = String::new();
                }
                in_quote = true;
                push_char(&mut current, c);
            }
        } else if c == ' ' || c == '\n' || c == '\t' || c == '\r' || c == '\u{3000}' {
            if depth > 0 || in_quote {
                push_char(&mut current, c);
            } else if current.as_str().unicode_len() > 0 {
                tokens.push(current);
                current = String::new();
            }
        } else {
            push_char(&mut current, c);
        }
        proof {
            assert(strings_view(tokens@) =~= scan(input@.take(i + 1)).tokens);
        }
        i = i + 1;
    }
    assert(input@.take(n as int) =~= input@);
    if depth > 0 {
        return Err(SyntaxError::UnbalancedParenthesis);
    }
    if in_quote {
        return Err(SyntaxError::UnterminatedQuote);
    }
    if current.as_str().unicode_len() > 0 {
        tokens.push(current);
    }
    proof {
        assert(strings_view(tokens@) =~= flush(scan(input@)).tokens);
        assert forall|k: int| 0 <= k < tokens.len() implies #[trigger] tokens@[k]@.len() > 0 by {
            assert(strings_view(tokens@)[k] == tokens@[k]@);
        }
    }
    Ok(tokens)
}

/// Every token is non-empty and no longer than the input it came from.
pub proof fn lemma_token_bounds(s: Seq<char>)
    ensures
        scan(s).current.len() <= s.len(),
        scan(s).depth <= s.len(),
        forall|k: int| 0 <= k < scan(s).tokens.len() ==> 0 < #[trigger] scan(s).tokens[k].len() <= s.len(),
        tokens_of(s) matches Ok(t) ==> forall|k: int| 0 <= k < t.len() ==> 0 < #[trigger] t[k].len() <= s.len(),
    decreases s.len(),
{
    if s.len() > 0 {
        lemma_token_bounds(s.drop_last());
    }
    let st = scan(s);
    assert forall|k: int| 0 <= k < flush(st).tokens.len() implies 0 < #[trigger] flush(st).tokens[k].len() <= s.len() by {
        if k < st.tokens.len() {
            assert(flush(st).tokens[k] == st.tokens[k]);
        }
    }
}

/// Once the scan has failed on a prefix, it stays failed on every longer one.
proof fn lemma_failed_stays(s: Seq<char>, k: int)
    requires
        0 <= k <= s.len(),
        scan(s.take(k)).failed,
    ensures
        scan(s).failed,
    decreases s.len() - k,
{
    if k < s.len() {
        assert(s.take(k + 1).drop_last() == s.take(k));
        lemma_failed_stays(s, k + 1);
    } else {
        assert(s.take(k) == s);
    }
}

/// A separator read before anything else changes nothing.
proof fn lemma_leading_separator(c: char, s: Seq<char>)
    requires
        is_separator(c),
    ensures
        scan(seq![c] + s) == scan(s),
    decreases s.len(),
{
    if s.len() == 0 {
        assert((seq![c] + s).drop_last() =~= Seq::<char>::empty());
        assert((seq![c] + s).last() == c);
        assert(scan(Seq::<char>::empty()) == initial_state());
        assert(step(initial_state(), c) == initial_state());
    } else {
        assert((seq![c] + s).drop_last() =~= seq![c] + s.drop_last());
        assert((seq![c] + s).last() == s.last());
        lemma_leading_separator(c, s.drop_last());
    }
}

/// White space around a line does not change its tokens: a separator added
/// before or after the line gives the same tokens, or the same error.
pub proof fn lemma_outer_whitespace(c: char, s: Seq<char>)
    requires
        is_separator(c),
    ensures
        tokens_of(seq![c] + s) == tokens_of(s),
        tokens_of(s + seq![c]) == tokens_of(s),
{
    lemma_leading_separator(c, s);
    assert((s + seq![c]).drop_last() =~= s);
    let st = scan(s);
    if !st.failed && st.depth == 0 && !st.in_quote {
        assert(flush(flush(st)) == flush(st));
    }
}

} // verus!
