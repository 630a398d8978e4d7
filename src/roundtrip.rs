use vstd::prelude::*;
use crate::tokenizer::{
    append, flush, initial_state, is_separator, lemma_outer_whitespace, scan, step, tokens_of,
    ScanState, SyntaxError,
};

verus! {

/// A character that a bare word may hold.
pub open spec fn is_plain(c: char) -> bool {
    !is_separator(c) && c != '(' && c != ')' && c != '"'
}

/// How many groups are open after reading `t`: `(` opens one, `)` closes one.
pub open spec fn nesting(t: Seq<char>) -> int
    decreases t.len(),
{
    if t.len() == 0 {
        0
    } else {
        nesting(t.drop_last()) + if t.last() == '(' {
            1int
        } else if t.last() == ')' {
            -1int
        } else {
            0int
        }
    }
}

pub open spec fn is_bare(t: Seq<char>) -> bool {
    t.len() > 0 && forall|i: int| 0 <= i < t.len() ==> is_plain(#[trigger] t[i])
}

pub open spec fn is_quoted(t: Seq<char>) -> bool {
    t.len() >= 2 && t[0] == '"' && t.last() == '"' && forall|i: int|
        1 <= i < t.len() - 1 ==> #[trigger] t[i] != '"'
}

/// A group is open after every proper prefix, starting at its first `(`,
/// and closed at its end.
pub open spec fn is_group(t: Seq<char>) -> bool {
    t.len() >= 2 && t[0] == '(' && nesting(t) == 0 && forall|k: int|
        1 <= k < t.len() ==> nesting(#[trigger] t.take(k)) > 0
}

/// The three shapes a token can have.
pub open spec fn well_formed_token(t: Seq<char>) -> bool {
    is_bare(t) || is_quoted(t) || is_group(t)
}

/// The tokens, each followed by one space but the last.
pub open spec fn join(toks: Seq<Seq<char>>) -> Seq<char>
    decreases toks.len(),
{
    if toks.len() == 0 {
        seq![]
    } else if toks.len() == 1 {
        toks[0]
    } else {
        join(toks.drop_last()) + seq![' '] + toks.last()
    }
}

/// The state after reading `b` from the state `st`.
pub open spec fn scan_from(st: ScanState, b: Seq<char>) -> ScanState
    decreases b.len(),
{
    if b.len() == 0 {
        st
    } else {
        step(scan_from(st, b.drop_last()), b.last())
    }
}

/// No token pending, no group or quote open.
pub open spec fn is_clean(st: ScanState) -> bool {
    !st.failed && st.current.len() == 0 && st.depth == 0 && !st.in_quote
}

proof fn lemma_scan_from_initial(s: Seq<char>)
    ensures
        scan(s) == scan_from(initial_state(), s),
    decreases s.len(),
{
    if s.len() > 0 {
        lemma_scan_from_initial(s.drop_last());
    }
}

proof fn lemma_scan_from_concat(st: ScanState, a: Seq<char>, b: Seq<char>)
    ensures
        scan_from(st, a + b) == scan_from(scan_from(st, a), b),
    decreases b.len(),
{
    if b.len() == 0 {
        assert(a + b =~= a);
    } else {
        assert((a + b).drop_last() =~= a + b.drop_last());
        assert((a + b).last() == b.last());
        lemma_scan_from_concat(st, a, b.drop_last());
    }
}

proof fn lemma_take_step(t: Seq<char>, k: int)
    requires
        0 < k <= t.len(),
    ensures
        t.take(k).drop_last() == t.take(k - 1),
        t.take(k).last() == t[k - 1],
        t.take(k - 1).push(t[k - 1]) == t.take(k),
{
    assert(t.take(k).drop_last() =~= t.take(k - 1));
    assert(t.take(k - 1).push(t[k - 1]) =~= t.take(k));
}

proof fn lemma_scan_bare(st: ScanState, t: Seq<char>, k: int)
    requires
        is_clean(st),
        is_bare(t),
        0 <= k <= t.len(),
    ensures
        scan_from(st, t.take(k)) == (ScanState { current: t.take(k), ..st }),
    decreases k,
{
    if k == 0 {
        assert(t.take(0) =~= st.current);
    } else {
        lemma_scan_bare(st, t, k - 1);
        lemma_take_step(t, k);
        assert(is_plain(t[k - 1]));
    }
}

proof fn lemma_scan_quoted(st: ScanState, t: Seq<char>, k: int)
    requires
        is_clean(st),
        is_quoted(t),
        1 <= k < t.len(),
    ensures
        scan_from(st, t.take(k)) == (ScanState { current: t.take(k), in_quote: true, ..st }),
    decreases k,
{
    lemma_take_step(t, k);
    assert(scan_from(st, t.take(k)) == step(scan_from(st, t.take(k - 1)), t[k - 1]));
    if k == 1 {
        assert(t.take(0) =~= st.current);
        assert(scan_from(st, t.take(0)) == st);
        assert(flush(st) == st);
    } else {
        lemma_scan_quoted(st, t, k - 1);
        assert(t[k - 1] != '"');
    }
}

proof fn lemma_scan_group(st: ScanState, t: Seq<char>, k: int)
    requires
        is_clean(st),
        is_group(t),
        1 <= k < t.len(),
    ensures
        scan_from(st, t.take(k)) == (ScanState {
            current: t.take(k),
            depth: nesting(t.take(k)) as nat,
            ..st
        }),
    decreases k,
{
    lemma_take_step(t, k);
    assert(nesting(t.take(k)) > 0);
    assert(scan_from(st, t.take(k)) == step(scan_from(st, t.take(k - 1)), t[k - 1]));
    assert(nesting(t.take(k)) == nesting(t.take(k - 1)) + if t[k - 1] == '(' {
        1int
    } else if t[k - 1] == ')' {
        -1int
    } else {
        0int
    });
    if k == 1 {
        assert(t.take(0) =~= st.current);
        assert(scan_from(st, t.take(0)) == st);
        assert(flush(st) == st);
    } else {
        lemma_scan_group(st, t, k - 1);
        assert(nesting(t.take(k - 1)) > 0);
    }
}

/// Reading a well-formed token from a clean state emits it (a bare word
/// stays pending until the next separator).
proof fn lemma_scan_token(st: ScanState, t: Seq<char>)
    requires
        is_clean(st),
        well_formed_token(t),
    ensures
        scan_from(st, t + seq![' ']) == (ScanState { tokens: st.tokens.push(t), ..st }),
{
    lemma_scan_from_concat(st, t, seq![' ']);
    assert(seq![' '].drop_last() =~= Seq::<char>::empty());
    let mid = scan_from(st, t);
    assert(scan_from(mid, seq![' ']) == step(scan_from(mid, Seq::<char>::empty()), ' '));
    assert(scan_from(mid, seq![' ']) == step(mid, ' '));
    assert(t.take(t.len() as int) =~= t);
    assert(st.current =~= Seq::<char>::empty());
    let done = ScanState { tokens: st.tokens.push(t), ..st };
    if is_bare(t) {
        lemma_scan_bare(st, t, t.len() as int);
        assert(step(mid, ' ') == done);
    } else if is_quoted(t) {
        let n = t.len() as int;
        lemma_scan_quoted(st, t, n - 1);
        lemma_take_step(t, n);
        assert(mid == step(scan_from(st, t.take(n - 1)), t[n - 1]));
        assert(mid == done);
        assert(flush(done) == done);
    } else {
        let n = t.len() as int;
        lemma_scan_group(st, t, n - 1);
        lemma_take_step(t, n);
        assert(mid == step(scan_from(st, t.take(n - 1)), t[n - 1]));
        assert(nesting(t) == nesting(t.take(n - 1)) + if t[n - 1] == '(' {
            1int
        } else if t[n - 1] == ')' {
            -1int
        } else {
            0int
        });
        assert(t[n - 1] == ')');
        assert(mid == done);
        assert(flush(done) == done);
    }
}

proof fn lemma_scan_join(toks: Seq<Seq<char>>)
    requires
        forall|i: int| 0 <= i < toks.len() ==> well_formed_token(#[trigger] toks[i]),
    ensures
        scan(join(toks) + seq![' ']) == (ScanState { tokens: toks, ..initial_state() }),
    decreases toks.len(),
{
    let line = join(toks) + seq![' '];
    lemma_scan_from_initial(line);
    if toks.len() == 0 {
        assert(line =~= seq![' ']);
        assert(line.drop_last() =~= Seq::<char>::empty());
        assert(scan(line.drop_last()) == initial_state());
        assert(flush(initial_state()) == initial_state());
        assert(toks =~= initial_state().tokens);
        assert(scan(line) == initial_state());
    } else if toks.len() == 1 {
        assert(join(toks) == toks[0]);
        lemma_scan_token(initial_state(), toks[0]);
        assert(initial_state().tokens.push(toks[0]) =~= toks);
    } else {
        let dl = toks.drop_last();
        let head = join(dl) + seq![' '];
        assert(line =~= head + (toks.last() + seq![' ']));
        assert forall|i: int| 0 <= i < dl.len() implies well_formed_token(#[trigger] dl[i]) by {
            assert(dl[i] == toks[i]);
        }
        lemma_scan_join(dl);
        lemma_scan_from_initial(head);
        lemma_scan_from_concat(initial_state(), head, toks.last() + seq![' ']);
        let mid = ScanState { tokens: dl, ..initial_state() };
        lemma_scan_token(mid, toks.last());
        assert(dl.push(toks.last()) =~= toks);
        assert(join(toks) == join(dl) + seq![' '] + toks.last());
    }
}

/// What the scan state holds between characters: finished tokens are well
/// formed, an open group's text has stayed open since its `(`, an open
/// quote's text has no other quote, and a pending bare word is plain.
pub open spec fn scan_ok(st: ScanState) -> bool {
    &&& forall|i: int| 0 <= i < st.tokens.len() ==> well_formed_token(#[trigger] st.tokens[i])
    &&& st.depth > 0 ==> {
        &&& !st.in_quote
        &&& st.current.len() >= 1
        &&& st.current[0] == '('
        &&& nesting(st.current) == st.depth
        &&& forall|k: int| 1 <= k <= st.current.len() ==> nesting(#[trigger] st.current.take(k)) > 0
    }
    &&& st.in_quote ==> {
        &&& st.depth == 0
        &&& st.current.len() >= 1
        &&& st.current[0] == '"'
        &&& forall|i: int| 1 <= i < st.current.len() ==> #[trigger] st.current[i] != '"'
    }
    &&& (st.depth == 0 && !st.in_quote) ==> forall|i: int|
        0 <= i < st.current.len() ==> is_plain(#[trigger] st.current[i])
}

proof fn lemma_push_facts(x: Seq<char>, c: char)
    ensures
        x.push(c).drop_last() == x,
        x.push(c).last() == c,
        x.push(c).take(x.len() as int + 1) == x.push(c),
        forall|k: int| 0 <= k <= x.len() ==> #[trigger] x.push(c).take(k) == x.take(k),
        nesting(x.push(c)) == nesting(x) + if c == '(' {
            1int
        } else if c == ')' {
            -1int
        } else {
            0int
        },
{
    assert(x.push(c).drop_last() =~= x);
    assert(x.push(c).take(x.len() as int + 1) =~= x.push(c));
    assert forall|k: int| 0 <= k <= x.len() implies #[trigger] x.push(c).take(k) == x.take(k) by {
        assert(x.push(c).take(k) =~= x.take(k));
    }
}

proof fn lemma_flush_ok(st: ScanState)
    requires
        scan_ok(st),
        st.depth == 0,
        !st.in_quote,
    ensures
        forall|i: int| 0 <= i < flush(st).tokens.len() ==> well_formed_token(#[trigger] flush(st).tokens[i]),
{
    assert forall|i: int| 0 <= i < flush(st).tokens.len() implies well_formed_token(#[trigger] flush(st).tokens[i]) by {
        if i < st.tokens.len() {
            assert(flush(st).tokens[i] == st.tokens[i]);
        } else {
            assert(is_bare(st.current));
        }
    }
}

proof fn lemma_step_ok(st: ScanState, c: char)
    requires
        !st.failed,
        scan_ok(st),
        !step(st, c).failed,
    ensures
        scan_ok(step(st, c)),
{
    let x = st.current;
    lemma_push_facts(x, c);
    let n = step(st, c);
    if st.depth == 0 && !st.in_quote {
        lemma_flush_ok(st);
    }
    if c == '(' && !st.in_quote {
        if st.depth == 0 {
            let one = seq!['('];
            assert(one =~= Seq::<char>::empty().push('('));
            lemma_push_facts(Seq::<char>::empty(), '(');
            assert(n.current =~= one);
            assert(n.current.take(1) =~= one);
        }
    } else if c == ')' && !st.in_quote {
        if st.depth == 1 {
            assert forall|i: int| 0 <= i < n.tokens.len() implies well_formed_token(#[trigger] n.tokens[i]) by {
                if i < st.tokens.len() {
                    assert(n.tokens[i] == st.tokens[i]);
                } else {
                    let t = x.push(c);
                    assert(n.tokens[i] == t);
                    assert forall|k: int| 1 <= k < t.len() implies nesting(#[trigger] t.take(k)) > 0 by {
                        assert(t.take(k) == x.take(k));
                    }
                    assert(is_group(t));
                }
            }
        }
    } else if c == '"' {
        if st.depth == 0 && st.in_quote {
            assert forall|i: int| 0 <= i < n.tokens.len() implies well_formed_token(#[trigger] n.tokens[i]) by {
                if i < st.tokens.len() {
                    assert(n.tokens[i] == st.tokens[i]);
                } else {
                    let t = x.push(c);
                    assert(n.tokens[i] == t);
                    assert forall|j: int| 1 <= j < t.len() - 1 implies #[trigger] t[j] != '"' by {
                        assert(t[j] == x[j]);
                    }
                    assert(is_quoted(t));
                }
            }
        } else if st.depth == 0 {
            lemma_push_facts(Seq::<char>::empty(), '"');
            assert(n.current =~= seq!['"']);
        }
    }
    if n.depth > 0 && n.current == x.push(c) {
        assert forall|k: int| 1 <= k <= n.current.len() implies nesting(#[trigger] n.current.take(k)) > 0 by {
            if k <= x.len() {
                assert(n.current.take(k) == x.take(k));
            }
        }
    }
    if n.in_quote && n.current == x.push(c) {
        assert forall|i: int| 1 <= i < n.current.len() implies #[trigger] n.current[i] != '"' by {
            if i < x.len() {
                assert(n.current[i] == x[i]);
            }
        }
    }
    if n.depth == 0 && !n.in_quote && n.current == x.push(c) {
        assert forall|i: int| 0 <= i < n.current.len() implies is_plain(#[trigger] n.current[i]) by {
            if i < x.len() {
                assert(n.current[i] == x[i]);
            }
        }
    }
}

proof fn lemma_scan_ok(s: Seq<char>)
    requires
        !scan(s).failed,
    ensures
        scan_ok(scan(s)),
    decreases s.len(),
{
    if s.len() > 0 {
        let p = scan(s.drop_last());
        if !p.failed {
            lemma_scan_ok(s.drop_last());
            lemma_step_ok(p, s.last());
        }
    }
}

/// Every token of a line is a bare word, a quoted string or a group.
pub proof fn lemma_tokens_well_formed(s: Seq<char>)
    requires
        tokens_of(s) is Ok,
    ensures
        forall|i: int| 0 <= i < tokens_of(s)->Ok_0.len() ==> well_formed_token(#[trigger] tokens_of(s)->Ok_0[i]),
{
    lemma_scan_ok(s);
    lemma_flush_ok(scan(s));
}

/// Joining the tokens of a line with single spaces and tokenizing that
/// again gives the same tokens, so the same number of them.
pub proof fn lemma_join_round_trip(s: Seq<char>)
    requires
        tokens_of(s) is Ok,
    ensures
        tokens_of(join(tokens_of(s)->Ok_0)) == tokens_of(s),
{
    let toks = tokens_of(s)->Ok_0;
    lemma_tokens_well_formed(s);
    lemma_scan_join(toks);
    lemma_outer_whitespace(' ', join(toks));
    let st = scan(join(toks) + seq![' ']);
    assert(flush(st) == st);
}

/// Tokenizing is idempotent: each token of a line, tokenized on its own,
/// gives back exactly that one token.
pub proof fn lemma_token_is_fixed_point(s: Seq<char>, i: int)
    requires
        tokens_of(s) is Ok,
        0 <= i < tokens_of(s)->Ok_0.len(),
    ensures
        tokens_of(tokens_of(s)->Ok_0[i]) == Ok::<_, SyntaxError>(seq![tokens_of(s)->Ok_0[i]]),
{
    let t = tokens_of(s)->Ok_0[i];
    lemma_tokens_well_formed(s);
    let one = seq![t];
    assert(one[0] == t);
    lemma_scan_join(one);
    lemma_outer_whitespace(' ', t);
    let st = scan(t + seq![' ']);
    assert(flush(st) == st);
}

} // verus!
