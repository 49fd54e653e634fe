use vstd::prelude::*;
use vstd::string::*;

verus! {

/// A binary operator of the expression language (and unary negation, which
/// the tokenizer never produces).
#[derive(Clone, Copy, Debug, PartialEq, Eq, Structural)]
pub enum Op {
    Add,
    Sub,
    Div,
    Mul,
    Exp,
    UnNeg,
}

/// The operator that an operator spelling names, if any.
pub open spec fn op_of(s: Seq<char>) -> Option<Op> {
    if s == seq!['+'] {
        Some(Op::Add)
    } else if s == seq!['-'] {
        Some(Op::Sub)
    } else if s == seq!['/'] {
        Some(Op::Div)
    } else if s == seq!['*'] {
        Some(Op::Mul)
    } else if s == seq!['*', '*'] {
        Some(Op::Exp)
    } else {
        None
    }
}

pub open spec fn prec(op: Op) -> u8 {
    match op {
        Op::Add => 0,
        Op::Sub => 0,
        Op::Div => 1,
        Op::Mul => 1,
        Op::Exp => 2,
        Op::UnNeg => 3,
    }
}

pub open spec fn is_op_char(c: char) -> bool {
    c == '+' || c == '-' || c == '/' || c == '*'
}

/// Looks up an operator from the characters that spell it.
fn op_from_chars(cs: &[char]) -> (r: Option<Op>)
    ensures
        r == op_of(cs@),
{
    let n = cs.len();
    if n == 1 {
        let c = cs[0];
        proof {
            assert(cs@ =~= seq![c]);
        }
        if c == '+' {
            Some(Op::Add)
        } else if c == '-' {
            Some(Op::Sub)
        } else if c == '/' {
            Some(Op::Div)
        } else if c == '*' {
            Some(Op::Mul)
        } else {
            proof {
                assert(cs@ != seq!['*', '*']);
                assert(cs@ != seq!['+']);
                assert(cs@[0] == c);
            }
            None
        }
    } else if n == 2 && cs[0] == '*' && cs[1] == '*' {
        proof {
            assert(cs@ =~= seq!['*', '*']);
        }
        Some(Op::Exp)
    } else {
        proof {
            if n == 2 {
                assert(cs@ != seq!['*', '*'] || cs@[0] == '*' && cs@[1] == '*');
            }
            assert(n != 1 ==> cs@.len() != seq!['+'].len());
        }
        None
    }
}

fn chars_of(s: &str) -> (cs: Vec<char>)
    ensures
        cs@ == s@,
{
    let n = s.unicode_len();
    let mut cs: Vec<char> = Vec::new();
    let mut i: usize = 0;
    while i < n
        invariant
            n == s@.len(),
            i <= n,
            cs@ =~= s@.subrange(0, i as int),
        decreases n - i,
    {
        cs.push(s.get_char(i));
        i = i + 1;
    }
    proof {
        assert(cs@ =~= s@);
    }
    cs
}

impl Op {
    /// The operator spelled by `op`: one of `+ - / * **`.
    pub fn from_str(op: &str) -> (r: Option<Op>)
        ensures
            r == op_of(op@),
    {
        let cs = chars_of(op);
        op_from_chars(cs.as_slice())
    }

    /// Binding strength: `+ -` bind least, then `* /`, then `**`.
    pub fn precedence(&self) -> (r: u8)
        ensures
            r == prec(*self),
    {
        match *self {
            Op::Add => 0,
            Op::Sub => 0,
            Op::Div => 1,
            Op::Mul => 1,
            Op::Exp => 2,
            Op::UnNeg => 3,
        }
    }
}

pub fn is_operator_char(c: &char) -> (r: bool)
    ensures
        r == is_op_char(*c),
{
    match *c {
        '+' | '-' | '/' | '*' => true,
        _ => false,
    }
}

/// A lexical token. A number keeps its decimal digits, most significant first.
#[derive(Clone, Debug, PartialEq)]
pub enum Tok {
    Num(Vec<u8>),
    Op(Op),
    Var(String),
    RParen,
    LParen,
}

/// What a token holds, as mathematical values.
pub enum TokV {
    Num(Seq<u8>),
    Op(Op),
    Var(Seq<char>),
    RParen,
    LParen,
}

impl View for Tok {
    type V = TokV;

    open spec fn view(&self) -> TokV {
        match self {
            Tok::Num(d) => TokV::Num(d@),
            Tok::Op(op) => TokV::Op(*op),
            Tok::Var(v) => TokV::Var(v@),
            Tok::RParen => TokV::RParen,
            Tok::LParen => TokV::LParen,
        }
    }
}

pub open spec fn toks_view(ts: Seq<Tok>) -> Seq<TokV> {
    ts.map_values(|t: Tok| t@)
}

/// Why an expression could not be tokenized, converted or evaluated.
#[derive(Clone, Debug, PartialEq)]
pub enum ExprError {
    /// A run of operator characters that spells no operator.
    InvalidOperator(String),
    /// Text at which no token starts.
    Stuck(String),
    /// Unbalanced parentheses.
    Syntax,
    /// An operator found fewer than two operands.
    PrematureStackEnd,
    /// A unary operator was applied as a binary one.
    NotBinary,
    /// Nothing was left to be the result.
    NoResult,
}

pub enum ErrV {
    InvalidOperator(Seq<char>),
    Stuck(Seq<char>),
    Syntax,
    PrematureStackEnd,
    NotBinary,
    NoResult,
}

impl View for ExprError {
    type V = ErrV;

    open spec fn view(&self) -> ErrV {
        match self {
            ExprError::InvalidOperator(s) => ErrV::InvalidOperator(s@),
            ExprError::Stuck(s) => ErrV::Stuck(s@),
            ExprError::Syntax => ErrV::Syntax,
            ExprError::PrematureStackEnd => ErrV::PrematureStackEnd,
            ExprError::NotBinary => ErrV::NotBinary,
            ExprError::NoResult => ErrV::NoResult,
        }
    }
}

/// Unicode white space, as `char::is_whitespace` documents it.
pub open spec fn is_space(c: char) -> bool {
    ('\u{9}' <= c && c <= '\u{d}') || c == ' ' || c == '\u{85}' || c == '\u{a0}'
        || c == '\u{1680}' || ('\u{2000}' <= c && c <= '\u{200a}') || c == '\u{2028}'
        || c == '\u{2029}' || c == '\u{202f}' || c == '\u{205f}' || c == '\u{3000}'
}

pub open spec fn is_digit(c: char) -> bool {
    '0' <= c && c <= '9'
}

pub uninterp spec fn alphabetic(c: char) -> bool;

pub open spec fn is_name_char(c: char) -> bool {
    alphabetic(c) || c == '_'
}

/// The end of the run of characters satisfying `p` that starts at `i`.
pub open spec fn span_end(s: Seq<char>, i: int, p: spec_fn(char) -> bool) -> int
    decreases s.len() - i,
{
    if 0 <= i < s.len() && p(s[i]) {
        span_end(s, i + 1, p)
    } else {
        i
    }
}

pub open spec fn ws_end(s: Seq<char>, i: int) -> int {
    span_end(s, i, |c: char| is_space(c))
}

pub open spec fn digit_end(s: Seq<char>, i: int) -> int {
    span_end(s, i, |c: char| is_digit(c))
}

pub open spec fn op_end(s: Seq<char>, i: int) -> int {
    span_end(s, i, |c: char| is_op_char(c))
}

pub open spec fn name_end(s: Seq<char>, i: int) -> int {
    span_end(s, i, |c: char| is_name_char(c))
}

pub proof fn lemma_span_end(s: Seq<char>, i: int, p: spec_fn(char) -> bool)
    requires
        0 <= i <= s.len(),
    ensures
        i <= span_end(s, i, p) <= s.len(),
        forall|k: int| i <= k < span_end(s, i, p) ==> p(#[trigger] s[k]),
        span_end(s, i, p) < s.len() ==> !p(s[span_end(s, i, p)]),
    decreases s.len() - i,
{
    if i < s.len() && p(s[i]) {
        lemma_span_end(s, i + 1, p);
    }
}

pub open spec fn digit_value(c: char) -> u8 {
    (c as u32 - '0' as u32) as u8
}

pub open spec fn digits_of(s: Seq<char>) -> Seq<u8> {
    s.map_values(|c: char| digit_value(c))
}

/// A token and the rest of the text after it, or nothing.
pub open spec fn matched(r: Option<(Tok, &[char])>, m: Option<(TokV, int)>, s: Seq<char>) -> bool {
    match (r, m) {
        (Some((t, u)), Some((tv, j))) => t@ == tv && u@ == s.skip(j),
        (None, None) => true,
        _ => false,
    }
}

/// A number: leading white space, then a run of decimal digits.
pub open spec fn number_spec(s: Seq<char>) -> Option<(TokV, int)> {
    let i = ws_end(s, 0);
    let j = digit_end(s, i);
    if j > i {
        Some((TokV::Num(digits_of(s.subrange(i, j))), j))
    } else {
        None
    }
}

/// An operator: leading white space, then a run of operator characters,
/// which must spell an operator.
pub open spec fn operator_spec(s: Seq<char>) -> Option<Result<(TokV, int), ErrV>> {
    let i = ws_end(s, 0);
    let j = op_end(s, i);
    if j > i {
        match op_of(s.subrange(i, j)) {
            Some(op) => Some(Ok((TokV::Op(op), j))),
            None => Some(Err(ErrV::InvalidOperator(s.subrange(i, j)))),
        }
    } else {
        None
    }
}

/// A parenthesis after leading white space.
pub open spec fn paren_spec(s: Seq<char>) -> Option<(TokV, int)> {
    let i = ws_end(s, 0);
    if i < s.len() && s[i] == '(' {
        Some((TokV::LParen, i + 1))
    } else if i < s.len() && s[i] == ')' {
        Some((TokV::RParen, i + 1))
    } else {
        None
    }
}

/// A name: leading white space, then a run of letters and underscores.
pub open spec fn var_spec(s: Seq<char>) -> Option<(TokV, int)> {
    let i = ws_end(s, 0);
    let j = name_end(s, i);
    if j > i {
        Some((TokV::Var(s.subrange(i, j)), j))
    } else {
        None
    }
}

/// Relies on `String: FromIterator<char>`: the string holds the characters in order.
#[verifier::external_body]
pub(crate) fn string_of(cs: &[char]) -> (r: String)
    ensures
        r@ == cs@,
{
    cs.iter().collect()
}

/// Relies on `char::is_alphabetic`: whether `c` has the Unicode Alphabetic
/// property, which among ASCII characters holds of the letters alone.
#[verifier::external_body]
fn is_alpha(c: char) -> (r: bool)
    ensures
        r == alphabetic(c),
        c <= '\u{7f}' ==> (r <==> (('a' <= c && c <= 'z') || ('A' <= c && c <= 'Z'))),
{
    c.is_alphabetic()
}

fn is_ws(c: char) -> (r: bool)
    ensures
        r == is_space(c),
{
    ('\u{9}' <= c && c <= '\u{d}') || c == ' ' || c == '\u{85}' || c == '\u{a0}'
        || c == '\u{1680}' || ('\u{2000}' <= c && c <= '\u{200a}') || c == '\u{2028}'
        || c == '\u{2029}' || c == '\u{202f}' || c == '\u{205f}' || c == '\u{3000}'
}

fn ws_len(stream: &[char]) -> (i: usize)
    ensures
        i == ws_end(stream@, 0),
{
    let mut i: usize = 0;
    while i < stream.len() && is_ws(stream[i])
        invariant
            i <= stream@.len(),
            ws_end(stream@, 0) == ws_end(stream@, i as int),
        decreases stream@.len() - i,
    {
        i = i + 1;
    }
    i
}

/// The text after its leading white space.
pub fn skip_whitespace<'a>(stream: &'a [char]) -> (r: &'a [char])
    ensures
        r@ == stream@.skip(ws_end(stream@, 0)),
{
    let i = ws_len(stream);
    proof {
        lemma_span_end(stream@, 0, |c: char| is_space(c));
    }
    &stream[i..stream.len()]
}

/// A number token at the start of `stream`, after white space.
pub fn get_number<'a>(stream: &'a [char]) -> (r: Option<(Tok, &'a [char])>)
    ensures
        matched(r, number_spec(stream@), stream@),
{
    let n = stream.len();
    let mut i = ws_len(stream);
    let ghost s = stream@;
    let ghost start = i as int;
    proof {
        lemma_span_end(s, 0, |c: char| is_space(c));
    }
    let mut digits: Vec<u8> = Vec::new();
    while i < n && '0' <= stream[i] && stream[i] <= '9'
        invariant
            n == s.len(),
            s == stream@,
            0 <= start <= i <= n,
            digit_end(s, start) == digit_end(s, i as int),
            digits@ =~= digits_of(s.subrange(start, i as int)),
        decreases n - i,
    {
        digits.push((stream[i] as u32 - '0' as u32) as u8);
        proof {
            assert(s.subrange(start, i + 1) =~= s.subrange(start, i as int).push(s[i as int]));
        }
        i = i + 1;
    }
    proof {
        lemma_span_end(s, start, |c: char| is_digit(c));
    }
    if digits.len() > 0 {
        Some((Tok::Num(digits), &stream[i..n]))
    } else {
        None
    }
}

/// An operator token, or the error of an unknown operator, at the start of
/// `stream`, after white space.
pub fn get_operator<'a>(stream: &'a [char]) -> (r: Option<Result<(Tok, &'a [char]), ExprError>>)
    ensures
        match (r, operator_spec(stream@)) {
            (Some(Ok((t, u))), Some(Ok((tv, j)))) => t@ == tv && u@ == stream@.skip(j),
            (Some(Err(e)), Some(Err(ev))) => e@ == ev,
            (None, None) => true,
            _ => false,
        },
{
    let n = stream.len();
    let mut i = ws_len(stream);
    let ghost s = stream@;
    let ghost start = i as int;
    proof {
        lemma_span_end(s, 0, |c: char| is_space(c));
    }
    let mut opstr: Vec<char> = Vec::new();
    while i < n && is_operator_char(&stream[i])
        invariant
            n == s.len(),
            s == stream@,
            0 <= start <= i <= n,
            op_end(s, start) == op_end(s, i as int),
            opstr@ =~= s.subrange(start, i as int),
        decreases n - i,
    {
        opstr.push(stream[i]);
        i = i + 1;
    }
    proof {
        lemma_span_end(s, start, |c: char| is_op_char(c));
    }
    if opstr.len() > 0 {
        match op_from_chars(opstr.as_slice()) {
            Some(op) => Some(Ok((Tok::Op(op), &stream[i..n]))),
            None => Some(Err(ExprError::InvalidOperator(string_of(opstr.as_slice())))),
        }
    } else {
        None
    }
}

/// A parenthesis token at the start of `stream`, after white space.
pub fn get_paren<'a>(stream: &'a [char]) -> (r: Option<(Tok, &'a [char])>)
    ensures
        matched(r, paren_spec(stream@), stream@),
{
    let stream0 = stream;
    let stream = skip_whitespace(stream);
    let n = stream.len();
    proof {
        lemma_span_end(stream0@, 0, |c: char| is_space(c));
        let k = ws_end(stream0@, 0);
        if n > 0 {
            assert(stream@[0] == stream0@[k]);
            assert(stream@.skip(1) =~= stream0@.skip(k + 1));
        }
    }
    if n > 0 {
        if stream[0] == '(' {
            Some((Tok::LParen, &stream[1..n]))
        } else if stream[0] == ')' {
            Some((Tok::RParen, &stream[1..n]))
        } else {
            None
        }
    } else {
        None
    }
}

/// A name token at the start of `stream`, after white space.
pub fn get_var<'a>(stream: &'a [char]) -> (r: Option<(Tok, &'a [char])>)
    ensures
        matched(r, var_spec(stream@), stream@),
{
    let n = stream.len();
    let mut i = ws_len(stream);
    let ghost s = stream@;
    let ghost start = i as int;
    proof {
        lemma_span_end(s, 0, |c: char| is_space(c));
    }
    let mut var: Vec<char> = Vec::new();
    while i < n && (is_alpha(stream[i]) || stream[i] == '_')
        invariant
            n == s.len(),
            s == stream@,
            0 <= start <= i <= n,
            name_end(s, start) == name_end(s, i as int),
            var@ =~= s.subrange(start, i as int),
        decreases n - i,
    {
        var.push(stream[i]);
        i = i + 1;
    }
    proof {
        lemma_span_end(s, start, |c: char| is_name_char(c));
    }
    if var.len() > 0 {
        Some((Tok::Var(string_of(var.as_slice())), &stream[i..n]))
    } else {
        None
    }
}

/// Adds the token that a matcher found, and moves past it.
pub open spec fn take_tok(m: Option<(TokV, int)>, acc: Seq<TokV>, t: Seq<char>) -> (Seq<TokV>, Seq<char>) {
    match m {
        Some((tv, j)) => (acc.push(tv), t.skip(j)),
        None => (acc, t),
    }
}

/// The end of a pass: a parenthesis, then a name; a pass that matched
/// nothing is stuck.
pub open spec fn pass_rest(a: Seq<TokV>, t2: Seq<char>) -> Result<(Seq<TokV>, Seq<char>), ErrV> {
    let (c, t3) = take_tok(paren_spec(t2), a, t2);
    let (d, t4) = take_tok(var_spec(t3), c, t3);
    if d.len() == 0 {
        Err(ErrV::Stuck(t4))
    } else {
        Ok((d, t4))
    }
}

/// One pass of the tokenizer over the text `t`: after white space, each
/// matcher in turn (number, operator, parenthesis, name) is tried where the
/// one before left off.
pub open spec fn pass_spec(t: Seq<char>) -> Result<(Seq<TokV>, Seq<char>), ErrV> {
    let t0 = t.skip(ws_end(t, 0));
    let (a, t1) = take_tok(number_spec(t0), seq![], t0);
    match operator_spec(t1) {
        Some(Err(e)) => Err(e),
        Some(Ok(m)) => pass_rest(a.push(m.0), t1.skip(m.1)),
        None => pass_rest(a, t1),
    }
}

pub open spec fn prepend<E>(a: Seq<TokV>, r: Result<Seq<TokV>, E>) -> Result<Seq<TokV>, E> {
    match r {
        Ok(x) => Ok(a + x),
        Err(e) => Err(e),
    }
}

/// The tokens of `t`, or the first error met. (A pass that matched
/// something always consumes text.)
pub open spec fn tokenize_spec(t: Seq<char>) -> Result<Seq<TokV>, ErrV>
    decreases t.len(),
{
    if t.len() == 0 {
        Ok(seq![])
    } else {
        match pass_spec(t) {
            Err(e) => Err(e),
            Ok((ts, rest)) => if rest.len() < t.len() {
                prepend(ts, tokenize_spec(rest))
            } else {
                Err(ErrV::Stuck(rest))
            },
        }
    }
}

proof fn lemma_matchers(s: Seq<char>)
    ensures
        number_spec(s) matches Some((_, j)) ==> 0 < j <= s.len(),
        operator_spec(s) matches Some(Ok((_, j))) ==> 0 < j <= s.len(),
        paren_spec(s) matches Some((_, j)) ==> 0 < j <= s.len(),
        var_spec(s) matches Some((_, j)) ==> 0 < j <= s.len(),
{
    lemma_span_end(s, 0, |c: char| is_space(c));
    let i = ws_end(s, 0);
    lemma_span_end(s, i, |c: char| is_digit(c));
    lemma_span_end(s, i, |c: char| is_op_char(c));
    lemma_span_end(s, i, |c: char| is_name_char(c));
}

proof fn lemma_toks_push(v: Seq<Tok>, t: Tok)
    ensures
        toks_view(v.push(t)) == toks_view(v).push(t@),
{
    assert(toks_view(v.push(t)) =~= toks_view(v).push(t@));
}

/// One pass of the tokenizer: appends the tokens found to `ret` and returns
/// the text after them.
#[verifier::rlimit(50)]
fn scan_pass<'a>(t: &'a [char], ret: &mut Vec<Tok>) -> (r: Result<&'a [char], ExprError>)
    ensures
        match (r, pass_spec(t@)) {
            (Ok(u), Ok((acc, rest))) => u@ == rest && rest.len() < t@.len()
                && toks_view(final(ret)@) == toks_view(old(ret)@) + acc,
            (Err(e), Err(ev)) => e@ == ev,
            _ => false,
        },
{
    let ghost t_in = t@;
    let ghost ret_in = toks_view(ret@);
    let t0 = skip_whitespace(t);
    proof {
        lemma_span_end(t_in, 0, |c: char| is_space(c));
    }
    let ghost mut acc: Seq<TokV> = seq![];
    let mut found = false;
    let mut t1 = t0;
    if let Some((tk, u)) = get_number(t0) {
        proof {
            lemma_matchers(t0@);
            lemma_toks_push(ret@, tk);
            acc = acc.push(tk@);
        }
        ret.push(tk);
        t1 = u;
        found = true;
    }
    proof {
        assert(take_tok(number_spec(t0@), seq![], t0@) == (acc, t1@));
        assert(toks_view(ret@) == ret_in + acc);
    }
    let ghost acc1 = acc;
    let mut t2 = t1;
    if let Some(r) = get_operator(t1) {
        match r {
            Ok((tk, u)) => {
                proof {
                    lemma_matchers(t1@);
                    lemma_toks_push(ret@, tk);
                    acc = acc.push(tk@);
                }
                ret.push(tk);
                t2 = u;
                found = true;
            },
            Err(e) => {
                return Err(e);
            },
        }
    }
    proof {
        assert(toks_view(ret@) =~= ret_in + acc);
        assert(pass_spec(t_in) == pass_rest(acc, t2@));
    }
    let mut t3 = t2;
    if let Some((tk, u)) = get_paren(t2) {
        proof {
            lemma_matchers(t2@);
            lemma_toks_push(ret@, tk);
            acc = acc.push(tk@);
        }
        ret.push(tk);
        t3 = u;
        found = true;
    }
    proof {
        assert(toks_view(ret@) =~= ret_in + acc);
    }
    let mut t4 = t3;
    if let Some((tk, u)) = get_var(t3) {
        proof {
            lemma_matchers(t3@);
            lemma_toks_push(ret@, tk);
            acc = acc.push(tk@);
        }
        ret.push(tk);
        t4 = u;
        found = true;
    }
    proof {
        assert(toks_view(ret@) =~= ret_in + acc);
        assert(found <==> acc.len() > 0);
    }
    if !found {
        return Err(ExprError::Stuck(string_of(t4)));
    }
    Ok(t4)
}

/// The tokens of `s`, or the first error met: an unknown run of operator
/// characters, or text at which no token starts (trailing white space
/// included).
pub fn tok(s: &str) -> (r: Result<Vec<Tok>, ExprError>)
    ensures
        match (r, tokenize_spec(s@)) {
            (Ok(v), Ok(tv)) => toks_view(v@) == tv,
            (Err(e), Err(ev)) => e@ == ev,
            _ => false,
        },
{
    let chars = chars_of(s);
    let mut ret: Vec<Tok> = Vec::new();
    let mut t: &[char] = chars.as_slice();
    proof {
        assert(toks_view(ret@) =~= seq![]);
        assert(prepend(seq![], tokenize_spec(t@)) == tokenize_spec(t@)) by {
            match tokenize_spec(t@) {
                Ok(x) => assert(seq![] + x =~= x),
                Err(_) => {},
            }
        }
    }
    while t.len() != 0
        invariant
            tokenize_spec(s@) == prepend(toks_view(ret@), tokenize_spec(t@)),
        decreases t@.len(),
    {
        let ghost t_in = t@;
        let ghost ret_in = toks_view(ret@);
        t = scan_pass(t, &mut ret)?;
        proof {
            let acc = pass_spec(t_in)->Ok_0.0;
            assert(toks_view(ret@) == ret_in + acc);
            match tokenize_spec(t@) {
                Ok(x) => assert(ret_in + (acc + x) =~= toks_view(ret@) + x),
                Err(_) => {},
            }
        }
    }
    proof {
        assert(toks_view(ret@) + seq![] =~= toks_view(ret@));
    }
    Ok(ret)
}

fn copy_digits(d: &Vec<u8>) -> (e: Vec<u8>)
    ensures
        e@ == d@,
{
    let mut e: Vec<u8> = Vec::new();
    let mut i: usize = 0;
    while i < d.len()
        invariant
            i <= d@.len(),
            e@ =~= d@.subrange(0, i as int),
        decreases d@.len() - i,
    {
        e.push(d[i]);
        i = i + 1;
    }
    proof {
        assert(e@ =~= d@);
    }
    e
}

impl Tok {
    /// A copy of the token.
    pub fn copy(&self) -> (r: Tok)
        ensures
            r@ == self@,
    {
        match self {
            Tok::Num(d) => Tok::Num(copy_digits(d)),
            Tok::Op(op) => Tok::Op(*op),
            Tok::Var(v) => Tok::Var(v.clone()),
            Tok::RParen => Tok::RParen,
            Tok::LParen => Tok::LParen,
        }
    }
}

/// Moves operators from the top of the stack to the output while they bind
/// strictly tighter than precedence `p`.
pub open spec fn pop_greater(post: Seq<TokV>, stack: Seq<TokV>, p: u8) -> (Seq<TokV>, Seq<TokV>)
    decreases stack.len(),
{
    if stack.len() > 0 && (stack.last() matches TokV::Op(top) && prec(top) > p) {
        pop_greater(post.push(stack.last()), stack.drop_last(), p)
    } else {
        (post, stack)
    }
}

/// Moves operators from the top of the stack to the output down to the
/// nearest left parenthesis, which is dropped; nothing if there is none.
pub open spec fn pop_to_lparen(post: Seq<TokV>, stack: Seq<TokV>) -> Option<(Seq<TokV>, Seq<TokV>)>
    decreases stack.len(),
{
    if stack.len() == 0 {
        None
    } else if stack.last() is LParen {
        Some((post, stack.drop_last()))
    } else {
        pop_to_lparen(post.push(stack.last()), stack.drop_last())
    }
}

/// The operator-precedence conversion of `toks`, from output `post` and
/// operator stack `stack`, to the final output and stack: `None` when a
/// right parenthesis has no match.
pub open spec fn convert(toks: Seq<TokV>, post: Seq<TokV>, stack: Seq<TokV>) -> Option<(Seq<TokV>, Seq<TokV>)>
    decreases toks.len(),
{
    if toks.len() == 0 {
        Some((post, stack))
    } else {
        let rest = toks.drop_first();
        match toks[0] {
            TokV::Num(d) => convert(rest, post.push(toks[0]), stack),
            TokV::Op(op) => {
                let (p2, s2) = pop_greater(post, stack, prec(op));
                convert(rest, p2, s2.push(toks[0]))
            },
            TokV::LParen => convert(rest, post, stack.push(TokV::LParen)),
            TokV::RParen => match pop_to_lparen(post, stack) {
                Some((p2, s2)) => convert(rest, p2, s2),
                None => None,
            },
            TokV::Var(_) => convert(rest, post, stack),
        }
    }
}

/// Postfix order of `toks`: the stack starts with a left parenthesis and a
/// right parenthesis closes the input. `None` on unbalanced parentheses:
/// one without a match, or one left open.
pub open spec fn postfix_spec(toks: Seq<TokV>) -> Option<Seq<TokV>> {
    match convert(toks.push(TokV::RParen), seq![], seq![TokV::LParen]) {
        Some((post, stack)) => if stack.len() == 0 {
            Some(post)
        } else {
            None
        },
        None => None,
    }
}

proof fn lemma_toks_pop(v: Seq<Tok>)
    requires
        v.len() > 0,
    ensures
        toks_view(v.drop_last()) == toks_view(v).drop_last(),
        toks_view(v).last() == v.last()@,
{
    assert(toks_view(v.drop_last()) =~= toks_view(v).drop_last());
}

/// The tokens of `e` in postfix order; names are dropped. Unbalanced
/// parentheses are a syntax error.
#[verifier::loop_isolation(false)]
pub fn postfix(e: &str) -> (r: Result<Vec<Tok>, ExprError>)
    ensures
        match (r, postfix_of(e@)) {
            (Ok(v), Ok(pv)) => toks_view(v@) == pv,
            (Err(x), Err(ev)) => x@ == ev,
            _ => false,
        },
{
    let mut tokens = tok(e)?;
    let ghost tv = toks_view(tokens@);
    let mut post: Vec<Tok> = Vec::new();
    let mut stack: Vec<Tok> = Vec::new();
    proof {
        lemma_toks_push(stack@, Tok::LParen);
        lemma_toks_push(tokens@, Tok::RParen);
    }
    stack.push(Tok::LParen);
    tokens.push(Tok::RParen);
    proof {
        assert(toks_view(stack@) =~= seq![TokV::LParen]);
        assert(toks_view(post@) =~= seq![]);
        assert(toks_view(tokens@).skip(0) =~= toks_view(tokens@));
    }
    let n = tokens.len();
    let mut i: usize = 0;
    while i < n
        invariant
            n == tokens@.len(),
            i <= n,
            toks_view(tokens@) == tv.push(TokV::RParen),
            convert(tv.push(TokV::RParen), seq![], seq![TokV::LParen]) == convert(
                toks_view(tokens@).skip(i as int),
                toks_view(post@),
                toks_view(stack@),
            ),
        decreases n - i,
    {
        let ghost all = toks_view(tokens@);
        proof {
            assert(all.skip(i as int)[0] == all[i as int]);
            assert(all.skip(i as int).drop_first() =~= all.skip(i as int + 1));
            assert(all[i as int] == tokens@[i as int]@);
        }
        let ghost old_post = toks_view(post@);
        let ghost old_stack = toks_view(stack@);
        let token = &tokens[i];
        match token {
            Tok::Num(_) => {
                let c = token.copy();
                proof {
                    lemma_toks_push(post@, c);
                }
                post.push(c);
            },
            Tok::Op(op) => {
                let p = op.precedence();
                loop
                    invariant
                        pop_greater(toks_view(post@), toks_view(stack@), p)
                            == pop_greater(old_post, old_stack, p),
                    decreases stack@.len(),
                {
                    let pop_it = match stack.last() {
                        Some(Tok::Op(pp)) => pp.precedence() > p,
                        _ => false,
                    };
                    if pop_it {
                        proof {
                            lemma_toks_pop(stack@);
                            lemma_toks_push(post@, stack@.last());
                        }
                        let top = stack.pop().unwrap();
                        post.push(top);
                    } else {
                        break;
                    }
                }
                let c = token.copy();
                proof {
                    lemma_toks_push(stack@, c);
                }
                stack.push(c);
            },
            Tok::LParen => {
                proof {
                    lemma_toks_push(stack@, Tok::LParen);
                }
                stack.push(Tok::LParen);
            },
            Tok::RParen => {
                loop
                    invariant
                        pop_to_lparen(toks_view(post@), toks_view(stack@))
                            == pop_to_lparen(old_post, old_stack),
                    decreases stack@.len(),
                {
                    proof {
                        if stack@.len() > 0 {
                            lemma_toks_pop(stack@);
                        }
                    }
                    let top = stack.pop();
                    match top {
                        None => {
                            return Err(ExprError::Syntax);
                        },
                        Some(Tok::LParen) => {
                            break;
                        },
                        Some(t) => {
                            proof {
                                lemma_toks_push(post@, t);
                            }
                            post.push(t);
                        },
                    }
                }
            },
            Tok::Var(_) => {},
        }
        i = i + 1;
    }
    proof {
        assert(toks_view(tokens@).skip(n as int) =~= seq![]);
    }
    if stack.len() > 0 {
        return Err(ExprError::Syntax);
    }
    Ok(post)
}

/// An expression tree: a number (its decimal digits, most significant
/// first) or a binary operator applied to two operands.
#[derive(Debug, PartialEq)]
pub enum Expr {
    Num(Vec<u8>),
    Bin(Op, Box<Expr>, Box<Expr>),
}

pub enum ExprV {
    Num(Seq<u8>),
    Bin(Op, Box<ExprV>, Box<ExprV>),
}

impl View for Expr {
    type V = ExprV;

    open spec fn view(&self) -> ExprV
        decreases self,
    {
        match self {
            Expr::Num(d) => ExprV::Num(d@),
            Expr::Bin(op, a, b) => ExprV::Bin(*op, Box::new((**a)@), Box::new((**b)@)),
        }
    }
}

pub open spec fn exprs_view(es: Seq<Expr>) -> Seq<ExprV> {
    es.map_values(|e: Expr| e@)
}

/// The operand stack after running the postfix tokens `post` from `stack`:
/// a number is pushed; an operator takes the two topmost operands (the right
/// one on top) and pushes their combination; other tokens are passed over.
pub open spec fn run_stack(post: Seq<TokV>, stack: Seq<ExprV>) -> Result<Seq<ExprV>, ErrV>
    decreases post.len(),
{
    if post.len() == 0 {
        Ok(stack)
    } else {
        let rest = post.drop_first();
        match post[0] {
            TokV::Num(d) => run_stack(rest, stack.push(ExprV::Num(d))),
            TokV::Op(op) => if stack.len() < 2 {
                Err(ErrV::PrematureStackEnd)
            } else if op is UnNeg {
                Err(ErrV::NotBinary)
            } else {
                let b = stack.last();
                let a = stack.drop_last().last();
                run_stack(
                    rest,
                    stack.drop_last().drop_last().push(ExprV::Bin(op, Box::new(a), Box::new(b))),
                )
            },
            _ => run_stack(rest, stack),
        }
    }
}

/// The expression that postfix tokens denote: the top of the final stack.
pub open spec fn eval_spec(post: Seq<TokV>) -> Result<ExprV, ErrV> {
    match run_stack(post, seq![]) {
        Err(e) => Err(e),
        Ok(st) => if st.len() == 0 {
            Err(ErrV::NoResult)
        } else {
            Ok(st.last())
        },
    }
}

/// The postfix tokens of text `s`, or the first error met.
pub open spec fn postfix_of(s: Seq<char>) -> Result<Seq<TokV>, ErrV> {
    match tokenize_spec(s) {
        Err(e) => Err(e),
        Ok(tv) => match postfix_spec(tv) {
            Some(pv) => Ok(pv),
            None => Err(ErrV::Syntax),
        },
    }
}

/// The expression that text `s` denotes, or the first error met.
pub open spec fn parse_spec(s: Seq<char>) -> Result<ExprV, ErrV> {
    match postfix_of(s) {
        Err(e) => Err(e),
        Ok(pv) => eval_spec(pv),
    }
}

proof fn lemma_exprs_push(v: Seq<Expr>, e: Expr)
    ensures
        exprs_view(v.push(e)) == exprs_view(v).push(e@),
{
    assert(exprs_view(v.push(e)) =~= exprs_view(v).push(e@));
}

proof fn lemma_exprs_pop(v: Seq<Expr>)
    requires
        v.len() > 0,
    ensures
        exprs_view(v.drop_last()) == exprs_view(v).drop_last(),
        exprs_view(v).last() == v.last()@,
{
    assert(exprs_view(v.drop_last()) =~= exprs_view(v).drop_last());
}

/// Runs postfix tokens on an operand stack and returns the expression left
/// on top.
pub fn eval_postfix(post: &Vec<Tok>) -> (r: Result<Expr, ExprError>)
    ensures
        match (r, eval_spec(toks_view(post@))) {
            (Ok(x), Ok(xv)) => x@ == xv,
            (Err(e), Err(ev)) => e@ == ev,
            _ => false,
        },
{
    let ghost pv = toks_view(post@);
    let mut stack: Vec<Expr> = Vec::new();
    let n = post.len();
    let mut i: usize = 0;
    proof {
        assert(pv.skip(0) =~= pv);
        assert(exprs_view(stack@) =~= seq![]);
    }
    while i < n
        invariant
            n == post@.len(),
            pv == toks_view(post@),
            i <= n,
            run_stack(pv, seq![]) == run_stack(pv.skip(i as int), exprs_view(stack@)),
        decreases n - i,
    {
        proof {
            assert(pv.skip(i as int)[0] == post@[i as int]@);
            assert(pv.skip(i as int).drop_first() =~= pv.skip(i as int + 1));
        }
        match &post[i] {
            Tok::Num(d) => {
                let x = Expr::Num(copy_digits(d));
                proof {
                    lemma_exprs_push(stack@, x);
                }
                stack.push(x);
            },
            Tok::Op(op) => {
                if stack.len() < 2 {
                    return Err(ExprError::PrematureStackEnd);
                }
                if *op == Op::UnNeg {
                    return Err(ExprError::NotBinary);
                }
                proof {
                    lemma_exprs_pop(stack@);
                    lemma_exprs_pop(stack@.drop_last());
                }
                let b = stack.pop().unwrap();
                let a = stack.pop().unwrap();
                let x = Expr::Bin(*op, Box::new(a), Box::new(b));
                proof {
                    lemma_exprs_push(stack@, x);
                }
                stack.push(x);
            },
            _ => {},
        }
        i = i + 1;
    }
    proof {
        assert(pv.skip(n as int) =~= seq![]);
        if stack@.len() > 0 {
            lemma_exprs_pop(stack@);
        }
    }
    match stack.pop() {
        Some(x) => Ok(x),
        None => Err(ExprError::NoResult),
    }
}

/// The expression tree of `s`: tokenized, put in postfix order and run on
/// an operand stack. Fails with the first error met.
pub fn parse(s: &str) -> (r: Result<Expr, ExprError>)
    ensures
        match (r, parse_spec(s@)) {
            (Ok(x), Ok(xv)) => x@ == xv,
            (Err(e), Err(ev)) => e@ == ev,
            _ => false,
        },
{
    let post = postfix(s)?;
    eval_postfix(&post)
}

} // verus!
