use vstd::prelude::*;

use crate::errors::ForthError;
use crate::ast::{body_wf, elem_wf, expr_wf, line_wf, stmt_wf, word_elem_wf, Constant, Definition, DefV, DoLoopStatement, ElemV, Expression, ExpressionElement, Ident, IfElseThenStatement, IfThenStatement, Line, LineV, seq_elem_view, seq_word_elem_view, Statement, StmtV, Word, WordElement, WordElemV};
use crate::literal::{Literal, LitV};
use crate::text::{is_digit, spec_parse_i64};

verus! {

// ---------------------------------------------------------------------
// Tokens.
// ---------------------------------------------------------------------
/// The mathematical view of a token.
#[verifier::ext_equal]
pub enum TokV {
    Int(i64),
    Str(Seq<char>),
    Word(Seq<char>),
}

/// One token of a source line: an integer literal, a string literal
/// (the text between its quotes), or a word (any other run of
/// non-blank characters).
#[derive(Debug)]
pub enum Token {
    Int(i64),
    Str(Vec<char>),
    Word(Vec<char>),
}

impl View for Token {
    type V = TokV;

    open spec fn view(&self) -> TokV {
        match self {
            Token::Int(v) => TokV::Int(*v),
            Token::Str(s) => TokV::Str(s@),
            Token::Word(s) => TokV::Word(s@),
        }
    }
}

/// The token-by-token view of a token sequence.
pub open spec fn seq_tok_view(s: Seq<Token>) -> Seq<TokV> {
    Seq::new(
        s.len(),
        |i: int|
            if 0 <= i < s.len() {
                s[i]@
            } else {
                TokV::Word(Seq::empty())
            },
    )
}

// ---------------------------------------------------------------------
// The tokenizer: blanks separate tokens, `( ... )` is a comment that
// must close before a line break or the end of the text, and `"`
// opens a string literal running to the next `"`.
// ---------------------------------------------------------------------
/// The characters that separate tokens.
pub open spec fn is_space(c: char) -> bool {
    c == ' ' || c == '\t' || c == '\r' || c == '\n'
}

/// The index of the first occurrence of `t` in `cs`, or `cs.len()`.
pub open spec fn find_char(cs: Seq<char>, t: char) -> int
    decreases cs.len(),
{
    if cs.len() == 0 {
        0
    } else if cs[0] == t {
        0
    } else {
        1 + find_char(cs.skip(1), t)
    }
}

pub proof fn lemma_find_char(cs: Seq<char>, t: char)
    ensures
        0 <= find_char(cs, t) <= cs.len(),
        find_char(cs, t) < cs.len() ==> cs[find_char(cs, t)] == t,
    decreases cs.len(),
{
    if cs.len() > 0 && cs[0] != t {
        lemma_find_char(cs.skip(1), t);
    }
}

/// The index of the first blank in `cs`, or `cs.len()`.
pub open spec fn find_space(cs: Seq<char>) -> int
    decreases cs.len(),
{
    if cs.len() == 0 {
        0
    } else if is_space(cs[0]) {
        0
    } else {
        1 + find_space(cs.skip(1))
    }
}

pub proof fn lemma_find_space(cs: Seq<char>)
    ensures
        0 <= find_space(cs) <= cs.len(),
        find_space(cs) < cs.len() ==> is_space(cs[find_space(cs)]),
    decreases cs.len(),
{
    if cs.len() > 0 && !is_space(cs[0]) {
        lemma_find_space(cs.skip(1));
    }
}

/// Whether a token chunk is required to read as an integer: it starts
/// with a digit, or with a minus sign followed by a digit.
pub open spec fn looks_numeric(chunk: Seq<char>) -> bool {
    is_digit(chunk[0]) || (chunk[0] == '-' && chunk.len() >= 2 && is_digit(chunk[1]))
}

/// Splits a line into tokens; `None` when the line is malformed: an
/// unterminated comment or string, or a numeric-looking chunk that is
/// not a representable integer.
pub open spec fn spec_tokenize(cs: Seq<char>) -> Option<Seq<TokV>>
    decreases cs.len(),
    via spec_tokenize_dec
{
    if cs.len() == 0 {
        Some(Seq::empty())
    } else if is_space(cs[0]) {
        spec_tokenize(cs.skip(1))
    } else if cs[0] == '(' {
        let j = find_char(cs, ')');
        if j == cs.len() || find_char(cs, '\n') < j {
            None
        } else {
            spec_tokenize(cs.skip(j + 1))
        }
    } else if cs[0] == '"' {
        let k = find_char(cs.skip(1), '"');
        if k == cs.skip(1).len() {
            None
        } else {
            let content = cs.subrange(1, k + 1);
            match spec_tokenize(cs.skip(k + 2)) {
                Some(rest) => Some(seq![TokV::Str(content)] + rest),
                None => None,
            }
        }
    } else {
        let j = find_space(cs);
        let chunk = cs.subrange(0, j);
        if looks_numeric(chunk) {
            match spec_parse_i64(chunk) {
                Some(v) => match spec_tokenize(cs.skip(j)) {
                    Some(rest) => Some(seq![TokV::Int(v)] + rest),
                    None => None,
                },
                None => None,
            }
        } else {
            match spec_tokenize(cs.skip(j)) {
                Some(rest) => Some(seq![TokV::Word(chunk)] + rest),
                None => None,
            }
        }
    }
}

#[via_fn]
proof fn spec_tokenize_dec(cs: Seq<char>) {
    if cs.len() > 0 {
        lemma_find_char(cs, ')');
        lemma_find_char(cs.skip(1), '"');
        lemma_find_space(cs);
    }
}

/// Finds the first `t` at or after `from`; returns its index, or the
/// line length when there is none.
pub(crate) fn scan_to_char(line: &str, from: usize, t: char) -> (j: usize)
    requires
        from <= line@.len(),
    ensures
        from <= j <= line@.len(),
        j - from == find_char(line@.skip(from as int), t),
{
    let n = line.unicode_len();
    let mut cur = from;
    while cur < n
        invariant
            from <= cur <= n,
            n == line@.len(),
            find_char(line@.skip(from as int), t) == cur - from + find_char(
                line@.skip(cur as int),
                t,
            ),
            forall|k: int| from <= k < cur ==> line@[k] != t,
        decreases n - cur,
    {
        let c = line.get_char(cur);
        proof {
            assert(line@.skip(cur as int)[0] == line@[cur as int]);
        }
        if c == t {
            return cur;
        }
        proof {
            assert(line@.skip(cur as int).skip(1) =~= line@.skip(cur + 1));
        }
        cur += 1;
    }
    proof {
        assert(line@.skip(n as int).len() == 0);
    }
    cur
}

/// Finds the first blank at or after `from`; returns its index, or
/// the line length when there is none.
fn scan_to_space(line: &str, from: usize) -> (j: usize)
    requires
        from <= line@.len(),
    ensures
        from <= j <= line@.len(),
        j - from == find_space(line@.skip(from as int)),
{
    let n = line.unicode_len();
    let mut cur = from;
    while cur < n
        invariant
            from <= cur <= n,
            n == line@.len(),
            find_space(line@.skip(from as int)) == cur - from + find_space(
                line@.skip(cur as int),
            ),
        decreases n - cur,
    {
        let c = line.get_char(cur);
        proof {
            assert(line@.skip(cur as int)[0] == line@[cur as int]);
        }
        if c == ' ' || c == '\t' || c == '\r' || c == '\n' {
            return cur;
        }
        proof {
            assert(line@.skip(cur as int).skip(1) =~= line@.skip(cur + 1));
        }
        cur += 1;
    }
    proof {
        assert(line@.skip(n as int).len() == 0);
    }
    cur
}

/// Collects the characters of `line[from..to]`.
fn collect_chunk(line: &str, from: usize, to: usize) -> (chunk: Vec<char>)
    requires
        from <= to <= line@.len(),
    ensures
        chunk@ == line@.subrange(from as int, to as int),
{
    let mut chunk: Vec<char> = Vec::new();
    let mut cur = from;
    while cur < to
        invariant
            from <= cur <= to <= line@.len(),
            chunk@ == line@.subrange(from as int, cur as int),
        decreases to - cur,
    {
        chunk.push(line.get_char(cur));
        proof {
            assert(line@.subrange(from as int, cur + 1) =~= line@.subrange(
                from as int,
                cur as int,
            ).push(line@[cur as int]));
        }
        cur += 1;
    }
    chunk
}

/// Splits `line` into tokens; mirrors [`spec_tokenize`].
pub fn tokenize(line: &str) -> (r: Result<Vec<Token>, ForthError>)
    ensures
        match r {
            Ok(toks) => spec_tokenize(line@) == Some(seq_tok_view(toks@)),
            Err(e) => e == ForthError::ParseError && spec_tokenize(line@) is None,
        },
{
    let n = line.unicode_len();
    let mut toks: Vec<Token> = Vec::new();
    let mut pos: usize = 0;
    proof {
        assert(line@.skip(0) =~= line@);
        assert(seq_tok_view(toks@) =~= Seq::<TokV>::empty());
        match spec_tokenize(line@) {
            Some(rest) => {
                assert(seq_tok_view(toks@) + rest =~= rest);
            },
            None => {},
        }
    }
    while pos < n
        invariant
            pos <= n,
            n == line@.len(),
            spec_tokenize(line@) == (match spec_tokenize(line@.skip(pos as int)) {
                Some(rest) => Some(seq_tok_view(toks@) + rest),
                None => None::<Seq<TokV>>,
            }),
        decreases n - pos,
    {
        let ghost cs = line@.skip(pos as int);
        let c = line.get_char(pos);
        proof {
            assert(cs[0] == line@[pos as int]);
        }
        if c == ' ' || c == '\t' || c == '\r' || c == '\n' {
            proof {
                assert(cs.skip(1) =~= line@.skip(pos + 1));
            }
            pos += 1;
        } else if c == '(' {
            let j = scan_to_char(line, pos, ')');
            let jn = scan_to_char(line, pos, '\n');
            proof {
                assert(line@.skip(pos as int) == cs);
                assert(j - pos == find_char(cs, ')'));
                assert(jn - pos == find_char(cs, '\n'));
            }
            if j == n || jn < j {
                proof {
                    assert(spec_tokenize(cs) is None);
                }
                return Err(ForthError::ParseError);
            }
            proof {
                lemma_find_char(cs, ')');
                assert(find_char(cs, ')') < cs.len());
                assert(cs.skip(find_char(cs, ')') + 1) =~= line@.skip(j + 1));
            }
            pos = j + 1;
        } else if c == '"' {
            proof {
                assert(cs.skip(1) =~= line@.skip(pos + 1));
            }
            let j = scan_to_char(line, pos + 1, '"');
            let ghost k = find_char(cs.skip(1), '"');
            proof {
                assert(j - (pos + 1) == k);
            }
            if j == n {
                proof {
                    assert(k == cs.skip(1).len());
                    assert(spec_tokenize(cs) is None);
                }
                return Err(ForthError::ParseError);
            }
            let content = collect_chunk(line, pos + 1, j);
            proof {
                assert(content@ =~= cs.subrange(1, k + 1));
                assert(cs.skip(k + 2) =~= line@.skip(j + 1));
            }
            let ghost old_toks = toks@;
            toks.push(Token::Str(content));
            proof {
                assert(seq_tok_view(toks@) =~= seq_tok_view(old_toks) + seq![
                    TokV::Str(content@),
                ]);
                match spec_tokenize(line@.skip(j + 1)) {
                    Some(rest) => {
                        assert(seq_tok_view(old_toks) + (seq![TokV::Str(content@)] + rest)
                            =~= seq_tok_view(toks@) + rest);
                    },
                    None => {},
                }
            }
            pos = j + 1;
        } else {
            let j = scan_to_space(line, pos);
            let ghost m = find_space(cs);
            proof {
                assert(j - pos == m);
                assert(m >= 1) by {
                    assert(cs.len() > 0);
                    assert(!is_space(cs[0]));
                    lemma_find_space(cs.skip(1));
                }
            }
            let chunk = collect_chunk(line, pos, j);
            proof {
                assert(chunk@ =~= cs.subrange(0, m));
                assert(cs.skip(m) =~= line@.skip(j as int));
                assert(chunk@[0] == cs[0]);
            }
            let cu = chunk[0] as u32;
            let numeric: bool = if 48 <= cu && cu <= 57 {
                true
            } else if chunk[0] == '-' && chunk.len() >= 2 {
                let c1 = chunk[1] as u32;
                48 <= c1 && c1 <= 57
            } else {
                false
            };
            proof {
                assert(numeric == looks_numeric(chunk@));
            }
            let ghost old_toks = toks@;
            if numeric {
                match crate::text::parse_int_token(&chunk) {
                    Some(v) => {
                        toks.push(Token::Int(v));
                        proof {
                            assert(seq_tok_view(toks@) =~= seq_tok_view(old_toks) + seq![
                                TokV::Int(v),
                            ]);
                            match spec_tokenize(line@.skip(j as int)) {
                                Some(rest) => {
                                    assert(seq_tok_view(old_toks) + (seq![TokV::Int(v)] + rest)
                                        =~= seq_tok_view(toks@) + rest);
                                },
                                None => {},
                            }
                        }
                    },
                    None => {
                        proof {
                            assert(spec_tokenize(cs) is None);
                        }
                        return Err(ForthError::ParseError);
                    },
                }
            } else {
                toks.push(Token::Word(chunk));
                proof {
                    assert(toks@[toks@.len() - 1]@ == TokV::Word(cs.subrange(0, m)));
                    assert(seq_tok_view(toks@) =~= seq_tok_view(old_toks) + seq![
                        TokV::Word(cs.subrange(0, m)),
                    ]);
                    match spec_tokenize(line@.skip(j as int)) {
                        Some(rest) => {
                            assert(seq_tok_view(old_toks) + (seq![TokV::Word(cs.subrange(0, m))]
                                + rest) =~= seq_tok_view(toks@) + rest);
                        },
                        None => {},
                    }
                }
            }
            pos = j;
        }
    }
    proof {
        assert(line@.skip(n as int).len() == 0);
        assert(spec_tokenize(line@.skip(n as int)) == Some(Seq::<TokV>::empty()));
        assert(seq_tok_view(toks@) + Seq::<TokV>::empty() =~= seq_tok_view(toks@));
    }
    Ok(toks)
}

// ---------------------------------------------------------------------
// Parsing tokens into the syntax tree.
// ---------------------------------------------------------------------
/// The reserved words of the grammar; none of them can name a
/// variable, constant, word or expression element.
pub open spec fn is_keyword(w: Seq<char>) -> bool {
    ||| w == "variable"@
    ||| w == "constant"@
    ||| w == ":"@
    ||| w == ";"@
    ||| w == "if"@
    ||| w == "then"@
    ||| w == "else"@
    ||| w == "do"@
    ||| w == "loop"@
}

/// Whether a token is a reserved word.
pub open spec fn is_kw_tok(t: TokV) -> bool {
    match t {
        TokV::Word(w) => is_keyword(w),
        _ => false,
    }
}

/// The expression element a token stands for, if any.
pub open spec fn elem_of(t: TokV) -> Option<ElemV> {
    match t {
        TokV::Int(v) => Some(ElemV::Lit(LitV::Int(v))),
        TokV::Str(s) => Some(ElemV::Lit(LitV::Str(s))),
        TokV::Word(w) => if is_keyword(w) {
            None
        } else {
            Some(ElemV::Id(w))
        },
    }
}

/// Reads a whole token range as expression elements; `None` when a
/// reserved word stands among them.
pub open spec fn parse_elems(ts: Seq<TokV>) -> Option<Seq<ElemV>>
    decreases ts.len(),
{
    if ts.len() == 0 {
        Some(Seq::empty())
    } else {
        match elem_of(ts[0]) {
            Some(e) => match parse_elems(ts.skip(1)) {
                Some(rest) => Some(seq![e] + rest),
                None => None,
            },
            None => None,
        }
    }
}

/// The number of leading tokens before the first reserved word.
pub open spec fn expr_len(ts: Seq<TokV>) -> int
    decreases ts.len(),
{
    if ts.len() == 0 {
        0
    } else if is_kw_tok(ts[0]) {
        0
    } else {
        1 + expr_len(ts.skip(1))
    }
}

pub proof fn lemma_expr_len(ts: Seq<TokV>)
    ensures
        0 <= expr_len(ts) <= ts.len(),
    decreases ts.len(),
{
    if ts.len() > 0 && !is_kw_tok(ts[0]) {
        lemma_expr_len(ts.skip(1));
    }
}

/// Reads a word body: maximal runs of plain tokens form expressions,
/// and `if .. then`, `if .. else .. then` and `do <counter> .. loop`
/// form statements.  Control constructs do not nest syntactically;
/// nesting happens through word invocation.
pub open spec fn spec_parse_body(ts: Seq<TokV>) -> Option<Seq<WordElemV>>
    decreases ts.len(),
    via spec_parse_body_dec
{
    if ts.len() == 0 {
        Some(Seq::empty())
    } else if ts[0] == TokV::Word("if"@) {
        let m = expr_len(ts.skip(1));
        let after = 1 + m;
        if after >= ts.len() {
            None
        } else if ts[after] == TokV::Word("then"@) {
            match (parse_elems(ts.subrange(1, after)), spec_parse_body(ts.skip(after + 1))) {
                (Some(t), Some(rest)) => Some(seq![WordElemV::Stmt(StmtV::IfThen(t))] + rest),
                _ => None,
            }
        } else if ts[after] == TokV::Word("else"@) {
            let m2 = expr_len(ts.skip(after + 1));
            let after2 = after + 1 + m2;
            if after2 >= ts.len() {
                None
            } else if ts[after2] == TokV::Word("then"@) {
                match (
                    parse_elems(ts.subrange(1, after)),
                    parse_elems(ts.subrange(after + 1, after2)),
                    spec_parse_body(ts.skip(after2 + 1)),
                ) {
                    (Some(t), Some(f), Some(rest)) => Some(
                        seq![WordElemV::Stmt(StmtV::IfElseThen(t, f))] + rest,
                    ),
                    _ => None,
                }
            } else {
                None
            }
        } else {
            None
        }
    } else if ts[0] == TokV::Word("do"@) {
        if ts.len() < 2 {
            None
        } else {
            match ts[1] {
                TokV::Word(counter) => if is_keyword(counter) {
                    None
                } else {
                    let m = expr_len(ts.skip(2));
                    let after = 2 + m;
                    if after >= ts.len() {
                        None
                    } else if ts[after] == TokV::Word("loop"@) {
                        match (
                            parse_elems(ts.subrange(2, after)),
                            spec_parse_body(ts.skip(after + 1)),
                        ) {
                            (Some(b), Some(rest)) => Some(
                                seq![WordElemV::Stmt(StmtV::DoLoop(counter, b))] + rest,
                            ),
                            _ => None,
                        }
                    } else {
                        None
                    }
                },
                _ => None,
            }
        }
    } else if is_kw_tok(ts[0]) {
        None
    } else {
        let m = expr_len(ts);
        match (parse_elems(ts.subrange(0, m)), spec_parse_body(ts.skip(m))) {
            (Some(e), Some(rest)) => Some(seq![WordElemV::Expr(e)] + rest),
            _ => None,
        }
    }
}

#[via_fn]
proof fn spec_parse_body_dec(ts: Seq<TokV>) {
    if ts.len() > 0 {
        lemma_expr_len(ts);
        lemma_expr_len(ts.skip(1));
        lemma_expr_len(ts.skip(2));
        if 1 + expr_len(ts.skip(1)) < ts.len() {
            lemma_expr_len(ts.skip(1 + expr_len(ts.skip(1)) + 1));
        }
    }
}

/// Reads a whole line: a definition or an expression.
pub open spec fn spec_parse_line(ts: Seq<TokV>) -> Option<LineV> {
    if ts.len() == 2 && ts[0] == TokV::Word("variable"@) {
        match ts[1] {
            TokV::Word(name) => if !is_keyword(name) {
                Some(LineV::Def(DefV::Var(name)))
            } else {
                None
            },
            _ => None,
        }
    } else if ts.len() == 3 && ts[1] == TokV::Word("constant"@) {
        match (ts[0], ts[2]) {
            (TokV::Int(v), TokV::Word(name)) => if !is_keyword(name) {
                Some(LineV::Def(DefV::Const(name, LitV::Int(v))))
            } else {
                None
            },
            _ => None,
        }
    } else if ts.len() >= 3 && ts[0] == TokV::Word(":"@) {
        match ts[1] {
            TokV::Word(name) => if is_keyword(name) {
                None
            } else if ts[ts.len() - 1] != TokV::Word(";"@) {
                None
            } else {
                match spec_parse_body(ts.subrange(2, ts.len() - 1)) {
                    Some(b) => Some(LineV::Def(DefV::Word(name, b))),
                    None => None,
                }
            },
            _ => None,
        }
    } else {
        match parse_elems(ts) {
            Some(es) => Some(LineV::Expr(es)),
            None => None,
        }
    }
}

/// Reads a whole source line from text.
pub open spec fn spec_parse_source_line(cs: Seq<char>) -> Option<LineV> {
    match spec_tokenize(cs) {
        Some(ts) => spec_parse_line(ts),
        None => None,
    }
}

// ---------------------------------------------------------------------
// The executable parser.
// ---------------------------------------------------------------------
/// Compares a character vector with a string slice.
fn chars_eq_str(v: &Vec<char>, s: &str) -> (b: bool)
    ensures
        b == (v@ == s@),
{
    let m = s.unicode_len();
    if v.len() != m {
        return false;
    }
    let mut i: usize = 0;
    while i < m
        invariant
            i <= m,
            m == s@.len(),
            v@.len() == m,
            forall|j: int| 0 <= j < i ==> v@[j] == s@[j],
        decreases m - i,
    {
        if v[i] != s.get_char(i) {
            return false;
        }
        i += 1;
    }
    proof {
        assert(v@ =~= s@);
    }
    true
}

/// Whether `w` is a reserved word.
fn is_keyword_exec(w: &Vec<char>) -> (b: bool)
    ensures
        b == is_keyword(w@),
{
    chars_eq_str(w, "variable") || chars_eq_str(w, "constant") || chars_eq_str(w, ":")
        || chars_eq_str(w, ";") || chars_eq_str(w, "if") || chars_eq_str(w, "then")
        || chars_eq_str(w, "else") || chars_eq_str(w, "do") || chars_eq_str(w, "loop")
}

/// Whether token `t` is exactly the word `w`.
fn tok_is_word(t: &Token, w: &str) -> (b: bool)
    ensures
        b == (t@ == TokV::Word(w@)),
{
    match t {
        Token::Word(v) => chars_eq_str(v, w),
        _ => false,
    }
}

/// Whether token `t` is a reserved word.
fn tok_is_kw(t: &Token) -> (b: bool)
    ensures
        b == is_kw_tok(t@),
{
    match t {
        Token::Word(v) => is_keyword_exec(v),
        _ => false,
    }
}

/// Counts the leading non-reserved tokens of `ts[from..to]`.
fn scan_expr_len(ts: &Vec<Token>, from: usize, to: usize) -> (m: usize)
    requires
        from <= to <= ts@.len(),
    ensures
        m == expr_len(seq_tok_view(ts@).subrange(from as int, to as int)),
        from + m <= to,
{
    let ghost t_all = seq_tok_view(ts@);
    let mut cur = from;
    while cur < to
        invariant
            from <= cur <= to <= ts@.len(),
            t_all == seq_tok_view(ts@),
            expr_len(t_all.subrange(from as int, to as int)) == cur - from + expr_len(
                t_all.subrange(cur as int, to as int),
            ),
        decreases to - cur,
    {
        proof {
            assert(t_all.subrange(cur as int, to as int)[0] == t_all[cur as int]);
            assert(t_all[cur as int] == ts@[cur as int]@);
        }
        if tok_is_kw(&ts[cur]) {
            return cur - from;
        }
        proof {
            assert(t_all.subrange(cur as int, to as int).skip(1) =~= t_all.subrange(
                cur + 1,
                to as int,
            ));
        }
        cur += 1;
    }
    proof {
        assert(t_all.subrange(to as int, to as int).len() == 0);
    }
    cur - from
}

/// Builds the expression elements of `ts[from..to]`; mirrors
/// [`parse_elems`].
fn build_elems(ts: &Vec<Token>, from: usize, to: usize) -> (r: Result<
    Vec<ExpressionElement>,
    ForthError,
>)
    requires
        from <= to <= ts@.len(),
    ensures
        match r {
            Ok(es) => parse_elems(seq_tok_view(ts@).subrange(from as int, to as int)) == Some(
                seq_elem_view(es@),
            ),
            Err(e) => e == ForthError::ParseError && parse_elems(
                seq_tok_view(ts@).subrange(from as int, to as int),
            ) is None,
        },
{
    let ghost t_all = seq_tok_view(ts@);
    let mut es: Vec<ExpressionElement> = Vec::new();
    let mut cur = from;
    proof {
        assert(seq_elem_view(es@) =~= Seq::<ElemV>::empty());
        match parse_elems(t_all.subrange(from as int, to as int)) {
            Some(rest) => {
                assert(seq_elem_view(es@) + rest =~= rest);
            },
            None => {},
        }
    }
    while cur < to
        invariant
            from <= cur <= to <= ts@.len(),
            t_all == seq_tok_view(ts@),
            parse_elems(t_all.subrange(from as int, to as int)) == (match parse_elems(
                t_all.subrange(cur as int, to as int),
            ) {
                Some(rest) => Some(seq_elem_view(es@) + rest),
                None => None::<Seq<ElemV>>,
            }),
        decreases to - cur,
    {
        proof {
            assert(t_all.subrange(cur as int, to as int)[0] == ts@[cur as int]@);
            assert(t_all.subrange(cur as int, to as int).skip(1) =~= t_all.subrange(
                cur + 1,
                to as int,
            ));
        }
        let ghost old_es = es@;
        match &ts[cur] {
            Token::Int(v) => {
                es.push(ExpressionElement::Literal(Literal::Integer(*v)));
            },
            Token::Str(s) => {
                es.push(
                    ExpressionElement::Literal(
                        Literal::String(crate::host::string_from_chars(s)),
                    ),
                );
            },
            Token::Word(w) => {
                if is_keyword_exec(w) {
                    return Err(ForthError::ParseError);
                }
                es.push(
                    ExpressionElement::Ident(Ident { name: crate::host::string_from_chars(w) }),
                );
            },
        }
        proof {
            assert(seq_elem_view(es@) =~= seq_elem_view(old_es) + seq![es@[es@.len() - 1]@]);
            match parse_elems(t_all.subrange(cur + 1, to as int)) {
                Some(rest) => {
                    assert(seq_elem_view(old_es) + (seq![es@[es@.len() - 1]@] + rest)
                        =~= seq_elem_view(es@) + rest);
                },
                None => {},
            }
        }
        cur += 1;
    }
    proof {
        assert(t_all.subrange(to as int, to as int).len() == 0);
        assert(seq_elem_view(es@) + Seq::<ElemV>::empty() =~= seq_elem_view(es@));
    }
    Ok(es)
}

/// Builds the word-body elements of `ts[from..to]`; mirrors
/// [`spec_parse_body`].
#[verifier::rlimit(100)]
fn parse_body_range(ts: &Vec<Token>, from: usize, to: usize) -> (r: Result<
    Vec<WordElement>,
    ForthError,
>)
    requires
        from <= to <= ts@.len(),
    ensures
        match r {
            Ok(b) => spec_parse_body(seq_tok_view(ts@).subrange(from as int, to as int)) == Some(
                seq_word_elem_view(b@),
            ),
            Err(e) => e == ForthError::ParseError && spec_parse_body(
                seq_tok_view(ts@).subrange(from as int, to as int),
            ) is None,
        },
{
    let ghost t_all = seq_tok_view(ts@);
    let mut body: Vec<WordElement> = Vec::new();
    let mut cur = from;
    proof {
        assert(seq_word_elem_view(body@) =~= Seq::<WordElemV>::empty());
        match spec_parse_body(t_all.subrange(from as int, to as int)) {
            Some(rest) => {
                assert(seq_word_elem_view(body@) + rest =~= rest);
            },
            None => {},
        }
    }
    while cur < to
        invariant
            from <= cur <= to <= ts@.len(),
            t_all == seq_tok_view(ts@),
            spec_parse_body(t_all.subrange(from as int, to as int)) == (match spec_parse_body(
                t_all.subrange(cur as int, to as int),
            ) {
                Some(rest) => Some(seq_word_elem_view(body@) + rest),
                None => None::<Seq<WordElemV>>,
            }),
        decreases to - cur,
    {
        let ghost sub = t_all.subrange(cur as int, to as int);
        proof {
            assert(sub[0] == ts@[cur as int]@);
            assert(sub.skip(1) =~= t_all.subrange(cur + 1, to as int));
        }
        let ghost old_body = body@;
        if tok_is_word(&ts[cur], "if") {
            let m = scan_expr_len(ts, cur + 1, to);
            proof {
                assert(expr_len(sub.skip(1)) == m);
            }
            let after = cur + 1 + m;
            if after >= to {
                proof {
                    assert(spec_parse_body(sub) is None);
                }
                return Err(ForthError::ParseError);
            }
            proof {
                assert(sub[1 + m] == ts@[after as int]@);
                assert(sub.subrange(1, 1 + m as int) =~= t_all.subrange(cur + 1, after as int));
            }
            if tok_is_word(&ts[after], "then") {
                let elems = match build_elems(ts, cur + 1, after) {
                    Ok(es) => es,
                    Err(e) => {
                        proof {
                            assert(spec_parse_body(sub) is None);
                        }
                        return Err(e);
                    },
                };
                proof {
                    assert(sub.skip(1 + m + 1) =~= t_all.subrange(after + 1, to as int));
                }
                body.push(
                    WordElement::Statement(
                        Statement::IfThen(IfThenStatement { true_expr: Expression { elements: elems } }),
                    ),
                );
                proof {
                    assert(seq_word_elem_view(body@) =~= seq_word_elem_view(old_body) + seq![
                        body@[body@.len() - 1]@,
                    ]);
                    match spec_parse_body(t_all.subrange(after + 1, to as int)) {
                        Some(rest) => {
                            assert(seq_word_elem_view(old_body) + (seq![body@[body@.len() - 1]@]
                                + rest) =~= seq_word_elem_view(body@) + rest);
                        },
                        None => {},
                    }
                }
                cur = after + 1;
            } else if tok_is_word(&ts[after], "else") {
                let m2 = scan_expr_len(ts, after + 1, to);
                proof {
                    assert(sub.skip(1 + m + 1) =~= t_all.subrange(after + 1, to as int));
                    assert(expr_len(sub.skip(1 + m + 1)) == m2);
                }
                let after2 = after + 1 + m2;
                if after2 >= to {
                    proof {
                        assert(spec_parse_body(sub) is None);
                    }
                    return Err(ForthError::ParseError);
                }
                proof {
                    assert(sub[1 + m + 1 + m2] == ts@[after2 as int]@);
                    assert(sub.subrange(1 + m + 1, 1 + m + 1 + m2 as int) =~= t_all.subrange(
                        after + 1,
                        after2 as int,
                    ));
                }
                if tok_is_word(&ts[after2], "then") {
                    let t_elems = match build_elems(ts, cur + 1, after) {
                        Ok(es) => es,
                        Err(e) => {
                            proof {
                                assert(spec_parse_body(sub) is None);
                            }
                            return Err(e);
                        },
                    };
                    let f_elems = match build_elems(ts, after + 1, after2) {
                        Ok(es) => es,
                        Err(e) => {
                            proof {
                                assert(spec_parse_body(sub) is None);
                            }
                            return Err(e);
                        },
                    };
                    proof {
                        assert(sub.skip(1 + m + 1 + m2 + 1) =~= t_all.subrange(
                            after2 + 1,
                            to as int,
                        ));
                    }
                    body.push(
                        WordElement::Statement(
                            Statement::IfElseThen(
                                IfElseThenStatement {
                                    true_expr: Expression { elements: t_elems },
                                    false_expr: Expression { elements: f_elems },
                                },
                            ),
                        ),
                    );
                    proof {
                        assert(seq_word_elem_view(body@) =~= seq_word_elem_view(old_body) + seq![
                            body@[body@.len() - 1]@,
                        ]);
                        match spec_parse_body(t_all.subrange(after2 + 1, to as int)) {
                            Some(rest) => {
                                assert(seq_word_elem_view(old_body) + (seq![
                                    body@[body@.len() - 1]@,
                                ] + rest) =~= seq_word_elem_view(body@) + rest);
                            },
                            None => {},
                        }
                    }
                    cur = after2 + 1;
                } else {
                    proof {
                        assert(spec_parse_body(sub) is None);
                    }
                    return Err(ForthError::ParseError);
                }
            } else {
                proof {
                    assert(spec_parse_body(sub) is None);
                }
                return Err(ForthError::ParseError);
            }
        } else if tok_is_word(&ts[cur], "do") {
            if cur + 1 >= to {
                proof {
                    assert(sub.len() < 2);
                    assert(spec_parse_body(sub) is None);
                }
                return Err(ForthError::ParseError);
            }
            proof {
                assert(sub[1] == ts@[cur + 1]@);
            }
            let counter_name = match &ts[cur + 1] {
                Token::Word(cnt) => {
                    if is_keyword_exec(cnt) {
                        proof {
                            assert(spec_parse_body(sub) is None);
                        }
                        return Err(ForthError::ParseError);
                    }
                    crate::host::string_from_chars(cnt)
                },
                _ => {
                    proof {
                        assert(spec_parse_body(sub) is None);
                    }
                    return Err(ForthError::ParseError);
                },
            };
            let m = scan_expr_len(ts, cur + 2, to);
            proof {
                assert(sub.skip(2) =~= t_all.subrange(cur + 2, to as int));
                assert(expr_len(sub.skip(2)) == m);
            }
            let after = cur + 2 + m;
            if after >= to {
                proof {
                    assert(spec_parse_body(sub) is None);
                }
                return Err(ForthError::ParseError);
            }
            proof {
                assert(sub[2 + m] == ts@[after as int]@);
                assert(sub.subrange(2, 2 + m as int) =~= t_all.subrange(cur + 2, after as int));
            }
            if tok_is_word(&ts[after], "loop") {
                let elems = match build_elems(ts, cur + 2, after) {
                    Ok(es) => es,
                    Err(e) => {
                        proof {
                            assert(spec_parse_body(sub) is None);
                        }
                        return Err(e);
                    },
                };
                proof {
                    assert(sub.skip(2 + m + 1) =~= t_all.subrange(after + 1, to as int));
                }
                body.push(
                    WordElement::Statement(
                        Statement::DoLoop(
                            DoLoopStatement {
                                counter: Ident { name: counter_name },
                                expr: Expression { elements: elems },
                            },
                        ),
                    ),
                );
                proof {
                    assert(seq_word_elem_view(body@) =~= seq_word_elem_view(old_body) + seq![
                        body@[body@.len() - 1]@,
                    ]);
                    match spec_parse_body(t_all.subrange(after + 1, to as int)) {
                        Some(rest) => {
                            assert(seq_word_elem_view(old_body) + (seq![body@[body@.len() - 1]@]
                                + rest) =~= seq_word_elem_view(body@) + rest);
                        },
                        None => {},
                    }
                }
                cur = after + 1;
            } else {
                proof {
                    assert(spec_parse_body(sub) is None);
                }
                return Err(ForthError::ParseError);
            }
        } else if tok_is_kw(&ts[cur]) {
            proof {
                assert(spec_parse_body(sub) is None);
            }
            return Err(ForthError::ParseError);
        } else {
            let m = scan_expr_len(ts, cur, to);
            proof {
                assert(sub =~= t_all.subrange(cur as int, to as int));
                assert(expr_len(sub) == m);
                assert(m >= 1) by {
                    assert(sub.len() > 0);
                    assert(!is_kw_tok(sub[0]));
                    lemma_expr_len(sub.skip(1));
                }
                assert(sub.subrange(0, m as int) =~= t_all.subrange(cur as int, (cur + m) as int));
            }
            let elems = match build_elems(ts, cur, cur + m) {
                Ok(es) => es,
                Err(e) => {
                    proof {
                        assert(spec_parse_body(sub) is None);
                    }
                    return Err(e);
                },
            };
            proof {
                assert(sub.skip(m as int) =~= t_all.subrange((cur + m) as int, to as int));
            }
            body.push(WordElement::Expression(Expression { elements: elems }));
            proof {
                assert(seq_word_elem_view(body@) =~= seq_word_elem_view(old_body) + seq![
                    body@[body@.len() - 1]@,
                ]);
                match spec_parse_body(t_all.subrange((cur + m) as int, to as int)) {
                    Some(rest) => {
                        assert(seq_word_elem_view(old_body) + (seq![body@[body@.len() - 1]@]
                            + rest) =~= seq_word_elem_view(body@) + rest);
                    },
                    None => {},
                }
            }
            cur = cur + m;
        }
    }
    proof {
        assert(t_all.subrange(to as int, to as int).len() == 0);
        assert(seq_word_elem_view(body@) + Seq::<WordElemV>::empty() =~= seq_word_elem_view(
            body@,
        ));
    }
    Ok(body)
}

/// The grammar front end: it turns one line of source text into a
/// syntax tree.
#[derive(Debug)]
pub struct ForthParser;

impl ForthParser {
    /// Parses exactly one line; mirrors [`spec_parse_source_line`].
    pub fn parse_line(line: &str) -> (r: Result<Line, ForthError>)
        ensures
            match r {
                Ok(l) => spec_parse_source_line(line@) == Some(l@),
                Err(e) => e == ForthError::ParseError && spec_parse_source_line(line@) is None,
            },
    {
        let toks = match tokenize(line) {
            Ok(ts) => ts,
            Err(e) => {
                return Err(e);
            },
        };
        let ghost t_all = seq_tok_view(toks@);
        let n = toks.len();
        if n == 2 && tok_is_word(&toks[0], "variable") {
            match &toks[1] {
                Token::Word(name) => {
                    if is_keyword_exec(name) {
                        return Err(ForthError::ParseError);
                    }
                    Ok(
                        Line::Definition(
                            Definition::Variable(
                                crate::ast::Variable {
                                    name: Ident { name: crate::host::string_from_chars(name) },
                                    value: None,
                                },
                            ),
                        ),
                    )
                },
                _ => Err(ForthError::ParseError),
            }
        } else if n == 3 && tok_is_word(&toks[1], "constant") {
            match (&toks[0], &toks[2]) {
                (Token::Int(v), Token::Word(name)) => {
                    if is_keyword_exec(name) {
                        return Err(ForthError::ParseError);
                    }
                    Ok(
                        Line::Definition(
                            Definition::Constant(
                                Constant {
                                    name: Ident { name: crate::host::string_from_chars(name) },
                                    value: Literal::Integer(*v),
                                },
                            ),
                        ),
                    )
                },
                _ => Err(ForthError::ParseError),
            }
        } else if n >= 3 && tok_is_word(&toks[0], ":") {
            match &toks[1] {
                Token::Word(name) => {
                    if is_keyword_exec(name) {
                        return Err(ForthError::ParseError);
                    }
                    if !tok_is_word(&toks[n - 1], ";") {
                        return Err(ForthError::ParseError);
                    }
                    let body = match parse_body_range(&toks, 2, n - 1) {
                        Ok(b) => b,
                        Err(e) => {
                            return Err(e);
                        },
                    };
                    Ok(
                        Line::Definition(
                            Definition::Word(
                                Word {
                                    name: Ident { name: crate::host::string_from_chars(name) },
                                    value: body,
                                },
                            ),
                        ),
                    )
                },
                _ => Err(ForthError::ParseError),
            }
        } else {
            proof {
                assert(t_all.subrange(0, n as int) =~= t_all);
            }
            let es = match build_elems(&toks, 0, n) {
                Ok(es) => es,
                Err(e) => {
                    return Err(e);
                },
            };
            Ok(Line::Expression(Expression { elements: es }))
        }
    }
}

// ---------------------------------------------------------------------
// Everything the parser builds is well formed: the only literals it
// produces are integers and strings.
// ---------------------------------------------------------------------
pub proof fn lemma_parse_elems_wf(ts: Seq<TokV>)
    ensures
        match parse_elems(ts) {
            Some(es) => expr_wf(es),
            None => true,
        },
    decreases ts.len(),
{
    if ts.len() > 0 {
        match elem_of(ts[0]) {
            Some(e) => {
                lemma_parse_elems_wf(ts.skip(1));
                match parse_elems(ts.skip(1)) {
                    Some(rest) => {
                        assert(elem_wf(e));
                        let es = seq![e] + rest;
                        assert forall|i: int| 0 <= i < es.len() implies #[trigger] elem_wf(
                            es[i],
                        ) by {
                            if i == 0 {
                                assert(es[i] == e);
                            } else {
                                assert(es[i] == rest[i - 1]);
                                assert(elem_wf(rest[i - 1]));
                            }
                        }
                    },
                    None => {},
                }
            },
            None => {},
        }
    }
}

pub proof fn lemma_parse_body_wf(ts: Seq<TokV>)
    ensures
        match spec_parse_body(ts) {
            Some(b) => body_wf(b),
            None => true,
        },
    decreases ts.len(),
{
    if ts.len() == 0 {
    } else if ts[0] == TokV::Word("if"@) {
        lemma_expr_len(ts.skip(1));
        let m = expr_len(ts.skip(1));
        let after = 1 + m;
        if after >= ts.len() {
        } else if ts[after] == TokV::Word("then"@) {
            lemma_parse_elems_wf(ts.subrange(1, after));
            lemma_parse_body_wf(ts.skip(after + 1));
            match (parse_elems(ts.subrange(1, after)), spec_parse_body(ts.skip(after + 1))) {
                (Some(t), Some(rest)) => {
                    let b = seq![WordElemV::Stmt(StmtV::IfThen(t))] + rest;
                    assert forall|i: int| 0 <= i < b.len() implies #[trigger] word_elem_wf(
                        b[i],
                    ) by {
                        if i == 0 {
                            assert(b[i] == WordElemV::Stmt(StmtV::IfThen(t)));
                        } else {
                            assert(b[i] == rest[i - 1]);
                            assert(word_elem_wf(rest[i - 1]));
                        }
                    }
                },
                _ => {},
            }
        } else if ts[after] == TokV::Word("else"@) {
            lemma_expr_len(ts.skip(after + 1));
            let m2 = expr_len(ts.skip(after + 1));
            let after2 = after + 1 + m2;
            if after2 >= ts.len() {
            } else if ts[after2] == TokV::Word("then"@) {
                lemma_parse_elems_wf(ts.subrange(1, after));
                lemma_parse_elems_wf(ts.subrange(after + 1, after2));
                lemma_parse_body_wf(ts.skip(after2 + 1));
                match (
                    parse_elems(ts.subrange(1, after)),
                    parse_elems(ts.subrange(after + 1, after2)),
                    spec_parse_body(ts.skip(after2 + 1)),
                ) {
                    (Some(t), Some(f), Some(rest)) => {
                        let b = seq![WordElemV::Stmt(StmtV::IfElseThen(t, f))] + rest;
                        assert forall|i: int| 0 <= i < b.len() implies #[trigger] word_elem_wf(
                            b[i],
                        ) by {
                            if i == 0 {
                                assert(b[i] == WordElemV::Stmt(StmtV::IfElseThen(t, f)));
                            } else {
                                assert(b[i] == rest[i - 1]);
                                assert(word_elem_wf(rest[i - 1]));
                            }
                        }
                    },
                    _ => {},
                }
            }
        }
    } else if ts[0] == TokV::Word("do"@) {
        if ts.len() < 2 {
        } else {
            match ts[1] {
                TokV::Word(counter) => if is_keyword(counter) {
                } else {
                    lemma_expr_len(ts.skip(2));
                    let m = expr_len(ts.skip(2));
                    let after = 2 + m;
                    if after >= ts.len() {
                    } else if ts[after] == TokV::Word("loop"@) {
                        lemma_parse_elems_wf(ts.subrange(2, after));
                        lemma_parse_body_wf(ts.skip(after + 1));
                        match (
                            parse_elems(ts.subrange(2, after)),
                            spec_parse_body(ts.skip(after + 1)),
                        ) {
                            (Some(bd), Some(rest)) => {
                                let b = seq![WordElemV::Stmt(StmtV::DoLoop(counter, bd))] + rest;
                                assert forall|i: int|
                                    0 <= i < b.len() implies #[trigger] word_elem_wf(b[i]) by {
                                    if i == 0 {
                                        assert(b[i] == WordElemV::Stmt(
                                            StmtV::DoLoop(counter, bd),
                                        ));
                                    } else {
                                        assert(b[i] == rest[i - 1]);
                                        assert(word_elem_wf(rest[i - 1]));
                                    }
                                }
                            },
                            _ => {},
                        }
                    }
                },
                _ => {},
            }
        }
    } else if is_kw_tok(ts[0]) {
    } else {
        lemma_expr_len(ts);
        let m = expr_len(ts);
        assert(m >= 1) by {
            lemma_expr_len(ts.skip(1));
        }
        lemma_parse_elems_wf(ts.subrange(0, m));
        lemma_parse_body_wf(ts.skip(m));
        match (parse_elems(ts.subrange(0, m)), spec_parse_body(ts.skip(m))) {
            (Some(e), Some(rest)) => {
                let b = seq![WordElemV::Expr(e)] + rest;
                assert forall|i: int| 0 <= i < b.len() implies #[trigger] word_elem_wf(b[i]) by {
                    if i == 0 {
                        assert(b[i] == WordElemV::Expr(e));
                    } else {
                        assert(b[i] == rest[i - 1]);
                        assert(word_elem_wf(rest[i - 1]));
                    }
                }
            },
            _ => {},
        }
    }
}

pub proof fn lemma_parse_line_wf(ts: Seq<TokV>)
    ensures
        match spec_parse_line(ts) {
            Some(l) => line_wf(l),
            None => true,
        },
{
    if ts.len() == 2 && ts[0] == TokV::Word("variable"@) {
    } else if ts.len() == 3 && ts[1] == TokV::Word("constant"@) {
    } else if ts.len() >= 3 && ts[0] == TokV::Word(":"@) {
        match ts[1] {
            TokV::Word(name) => {
                if !is_keyword(name) && ts[ts.len() - 1] == TokV::Word(";"@) {
                    lemma_parse_body_wf(ts.subrange(2, ts.len() - 1));
                }
            },
            _ => {},
        }
    } else {
        lemma_parse_elems_wf(ts);
    }
}

pub proof fn lemma_parse_source_line_wf(cs: Seq<char>)
    ensures
        match spec_parse_source_line(cs) {
            Some(l) => line_wf(l),
            None => true,
        },
{
    match spec_tokenize(cs) {
        Some(ts) => {
            lemma_parse_line_wf(ts);
        },
        None => {},
    }
}

} // verus!
