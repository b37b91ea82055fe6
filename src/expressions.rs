//! Integer arithmetic inside `{{ }}`: `+ - * /` with the usual precedence, parentheses,
//! negative literals and named integer variables. Every operation is checked.
use vstd::prelude::*;
use crate::error::{ConfigError, ParseResult};
use crate::table::{find_index, keys_unique, lookup, lemma_lookup_at};
use crate::text::{chars_of, is_digit, is_name_char, is_ascii_alnum, name_char, string_of, sub_chars, trim, trimmed};

verus! {

/// A lexical unit of an expression.
#[derive(Debug)]
pub enum Token {
    Number(i64),
    Variable(String),
    Plus,
    Minus,
    Multiply,
    Divide,
    LeftParen,
    RightParen,
}

/// The mathematical content of a `Token`.
pub enum Tok {
    Number(i64),
    Variable(Seq<char>),
    Plus,
    Minus,
    Multiply,
    Divide,
    LeftParen,
    RightParen,
}

impl View for Token {
    type V = Tok;

    open spec fn view(&self) -> Tok {
        match self {
            Token::Number(n) => Tok::Number(*n),
            Token::Variable(s) => Tok::Variable(s@),
            Token::Plus => Tok::Plus,
            Token::Minus => Tok::Minus,
            Token::Multiply => Tok::Multiply,
            Token::Divide => Tok::Divide,
            Token::LeftParen => Tok::LeftParen,
            Token::RightParen => Tok::RightParen,
        }
    }
}

pub open spec fn toks(ts: Seq<Token>) -> Seq<Tok> {
    ts.map_values(|t: Token| t@)
}

/// Why an expression could not be evaluated.
pub enum ExprFault {
    Empty,
    UnexpectedCharacter,
    InvalidNumber,
    ExpectedIdentifier,
    UnexpectedEnd,
    MissingParenthesis,
    UnexpectedToken,
    DivisionByZero,
    Overflow,
    UnknownVariable(Seq<char>),
}

/// The reason that an `ExpressionError` gives for a fault.
pub open spec fn fault_reason(f: ExprFault) -> Seq<char> {
    match f {
        ExprFault::Empty => "empty expression"@,
        ExprFault::UnexpectedCharacter => "unexpected character"@,
        ExprFault::InvalidNumber => "invalid number"@,
        ExprFault::ExpectedIdentifier => "expected identifier"@,
        ExprFault::UnexpectedEnd => "unexpected end of expression"@,
        ExprFault::MissingParenthesis => "missing closing parenthesis"@,
        ExprFault::UnexpectedToken => "unexpected token"@,
        ExprFault::DivisionByZero => "division by zero"@,
        ExprFault::Overflow => "integer overflow"@,
        ExprFault::UnknownVariable(_) => Seq::empty(),
    }
}

/// Whether error `e` reports fault `f`: an unknown variable as `VariableNotFound`, every
/// other fault as an `ExpressionError` with its reason.
pub open spec fn reports(e: ConfigError, f: ExprFault) -> bool {
    match f {
        ExprFault::UnknownVariable(n) => e matches ConfigError::VariableNotFound { name } && name@
            == n,
        _ => e matches ConfigError::ExpressionError { reason, .. } && reason@ == fault_reason(f),
    }
}

/// The number that the decimal digits `ds` spell.
pub open spec fn digits_value(ds: Seq<char>) -> int
    decreases ds.len(),
{
    if ds.len() == 0 {
        0
    } else {
        digits_value(ds.drop_last()) * 10 + (ds.last() as int - '0' as int)
    }
}

/// The number of decimal digits that `s` starts with.
pub open spec fn digit_len(s: Seq<char>) -> nat
    decreases s.len(),
{
    if s.len() > 0 && is_digit(s[0]) {
        1 + digit_len(s.skip(1))
    } else {
        0
    }
}

/// The number of identifier characters that `s` starts with.
pub open spec fn ident_len(s: Seq<char>) -> nat
    decreases s.len(),
{
    if s.len() > 0 && is_name_char(s[0]) {
        1 + ident_len(s.skip(1))
    } else {
        0
    }
}

pub proof fn lemma_digit_len_bound(s: Seq<char>)
    ensures
        digit_len(s) <= s.len(),
    decreases s.len(),
{
    if s.len() > 0 && is_digit(s[0]) {
        lemma_digit_len_bound(s.skip(1));
    }
}

pub proof fn lemma_ident_len_bound(s: Seq<char>)
    ensures
        ident_len(s) <= s.len(),
    decreases s.len(),
{
    if s.len() > 0 && is_name_char(s[0]) {
        lemma_ident_len_bound(s.skip(1));
    }
}

pub open spec fn push_front(t: Tok, r: Result<Seq<Tok>, ExprFault>) -> Result<Seq<Tok>, ExprFault> {
    match r {
        Ok(ts) => Ok(seq![t] + ts),
        Err(f) => Err(f),
    }
}

/// The tokens of `s`, or the first lexical fault in it.
pub open spec fn tokens_of(s: Seq<char>) -> Result<Seq<Tok>, ExprFault>
    decreases s.len(),
{
    if s.len() == 0 {
        Ok(Seq::empty())
    } else {
        let c = s[0];
        if c == ' ' || c == '\t' || c == '\n' || c == '\r' {
            tokens_of(s.skip(1))
        } else if c == '+' {
            push_front(Tok::Plus, tokens_of(s.skip(1)))
        } else if c == '-' {
            if s.len() > 1 && is_digit(s[1]) {
                let k = digit_len(s.skip(1)) as int;
                proof {
                    lemma_digit_len_bound(s.skip(1));
                }
                let v = -digits_value(s.subrange(1, 1 + k));
                if !(i64::MIN <= v <= i64::MAX) {
                    Err(ExprFault::InvalidNumber)
                } else {
                    push_front(Tok::Number(v as i64), tokens_of(s.skip(1 + k)))
                }
            } else {
                push_front(Tok::Minus, tokens_of(s.skip(1)))
            }
        } else if c == '*' {
            push_front(Tok::Multiply, tokens_of(s.skip(1)))
        } else if c == '/' {
            push_front(Tok::Divide, tokens_of(s.skip(1)))
        } else if c == '(' {
            push_front(Tok::LeftParen, tokens_of(s.skip(1)))
        } else if c == ')' {
            push_front(Tok::RightParen, tokens_of(s.skip(1)))
        } else if c == '$' {
            let k = ident_len(s.skip(1)) as int;
            proof {
                lemma_ident_len_bound(s.skip(1));
            }
            if k == 0 {
                Err(ExprFault::ExpectedIdentifier)
            } else {
                push_front(Tok::Variable(s.subrange(1, 1 + k)), tokens_of(s.skip(1 + k)))
            }
        } else if is_digit(c) {
            let k = digit_len(s) as int;
            proof {
                lemma_digit_len_bound(s);
            }
            let v = digits_value(s.take(k));
            if !(i64::MIN <= v <= i64::MAX) {
                Err(ExprFault::InvalidNumber)
            } else {
                push_front(Tok::Number(v as i64), tokens_of(s.skip(k)))
            }
        } else if is_ascii_alnum(c) || c == '_' {
            let k = ident_len(s) as int;
            proof {
                lemma_ident_len_bound(s);
            }
            push_front(Tok::Variable(s.take(k)), tokens_of(s.skip(k)))
        } else {
            Err(ExprFault::UnexpectedCharacter)
        }
    }
}

/// A value and the position of the first token after it.
pub type Parsed = Result<(i64, int), ExprFault>;

/// A parenthesised expression, a number or a variable, from position `pos` on.
pub open spec fn primary(vars: Seq<(String, i64)>, ts: Seq<Tok>, pos: int) -> Parsed
    decreases ts.len() - pos, 0int,
{
    if pos < 0 || pos >= ts.len() {
        Err(ExprFault::UnexpectedEnd)
    } else {
        match ts[pos] {
            Tok::Number(n) => Ok((n, pos + 1)),
            Tok::Variable(name) => match lookup(vars, name) {
                Some(v) => Ok((v, pos + 1)),
                None => Err(ExprFault::UnknownVariable(name)),
            },
            Tok::LeftParen => match additive(vars, ts, pos + 1) {
                Ok((v, p)) => if 0 <= p < ts.len() && ts[p] is RightParen {
                    Ok((v, p + 1))
                } else {
                    Err(ExprFault::MissingParenthesis)
                },
                Err(f) => Err(f),
            },
            _ => Err(ExprFault::UnexpectedToken),
        }
    }
}

/// Products and quotients, left to right, from position `pos` on.
pub open spec fn multiplicative(vars: Seq<(String, i64)>, ts: Seq<Tok>, pos: int) -> Parsed
    decreases ts.len() - pos, 1int, 0int,
{
    match primary(vars, ts, pos) {
        Ok((v, p)) => if pos < p <= ts.len() {
            multiplicative_rest(vars, ts, v, p)
        } else {
            Ok((v, p))
        },
        Err(f) => Err(f),
    }
}

/// The `* x` and `/ x` steps that follow a value `acc` at position `p`.
pub open spec fn multiplicative_rest(vars: Seq<(String, i64)>, ts: Seq<Tok>, acc: i64, p: int) -> Parsed
    decreases ts.len() - p, 1int, 1int,
{
    if 0 <= p < ts.len() && (ts[p] is Multiply || ts[p] is Divide) {
        match primary(vars, ts, p + 1) {
            Ok((v, q)) => if p + 1 < q <= ts.len() {
                if ts[p] is Multiply {
                    match acc.checked_mul(v) {
                        Some(x) => multiplicative_rest(vars, ts, x, q),
                        None => Err(ExprFault::Overflow),
                    }
                } else if v == 0 {
                    Err(ExprFault::DivisionByZero)
                } else {
                    match acc.checked_div(v) {
                        Some(x) => multiplicative_rest(vars, ts, x, q),
                        None => Err(ExprFault::Overflow),
                    }
                }
            } else {
                Ok((acc, q))
            },
            Err(f) => Err(f),
        }
    } else {
        Ok((acc, p))
    }
}

/// Sums and differences of products, left to right, from position `pos` on.
pub open spec fn additive(vars: Seq<(String, i64)>, ts: Seq<Tok>, pos: int) -> Parsed
    decreases ts.len() - pos, 2int, 0int,
{
    match multiplicative(vars, ts, pos) {
        Ok((v, p)) => if pos < p <= ts.len() {
            additive_rest(vars, ts, v, p)
        } else {
            Ok((v, p))
        },
        Err(f) => Err(f),
    }
}

/// The `+ x` and `- x` steps that follow a value `acc` at position `p`.
pub open spec fn additive_rest(vars: Seq<(String, i64)>, ts: Seq<Tok>, acc: i64, p: int) -> Parsed
    decreases ts.len() - p, 2int, 1int,
{
    if 0 <= p < ts.len() && (ts[p] is Plus || ts[p] is Minus) {
        match multiplicative(vars, ts, p + 1) {
            Ok((v, q)) => if p + 1 < q <= ts.len() {
                let r = if ts[p] is Plus {
                    acc.checked_add(v)
                } else {
                    acc.checked_sub(v)
                };
                match r {
                    Some(x) => additive_rest(vars, ts, x, q),
                    None => Err(ExprFault::Overflow),
                }
            } else {
                Ok((acc, q))
            },
            Err(f) => Err(f),
        }
    } else {
        Ok((acc, p))
    }
}

/// The value of expression `s` over the integer variables `vars`; tokens after a complete
/// expression are ignored.
pub open spec fn evaluation(vars: Seq<(String, i64)>, s: Seq<char>) -> Result<i64, ExprFault> {
    let t = trim(s);
    if t.len() == 0 {
        Err(ExprFault::Empty)
    } else {
        match tokens_of(t) {
            Err(f) => Err(f),
            Ok(ts) => match additive(vars, ts, 0) {
                Ok((v, _)) => Ok(v),
                Err(f) => Err(f),
            },
        }
    }
}

proof fn lemma_primary_progress(vars: Seq<(String, i64)>, ts: Seq<Tok>, pos: int)
    requires
        0 <= pos,
    ensures
        primary(vars, ts, pos) matches Ok((_, p)) ==> pos < p <= ts.len(),
    decreases ts.len() - pos, 0int,
{
    if pos < ts.len() && ts[pos] is LeftParen {
        lemma_additive_progress(vars, ts, pos + 1);
    }
}

proof fn lemma_multiplicative_progress(vars: Seq<(String, i64)>, ts: Seq<Tok>, pos: int)
    requires
        0 <= pos,
    ensures
        multiplicative(vars, ts, pos) matches Ok((_, p)) ==> pos < p <= ts.len(),
    decreases ts.len() - pos, 1int,
{
    lemma_primary_progress(vars, ts, pos);
    if let Ok((v, p)) = primary(vars, ts, pos) {
        lemma_multiplicative_rest_progress(vars, ts, v, p);
    }
}

proof fn lemma_multiplicative_rest_progress(vars: Seq<(String, i64)>, ts: Seq<Tok>, acc: i64, p: int)
    requires
        0 <= p <= ts.len(),
    ensures
        multiplicative_rest(vars, ts, acc, p) matches Ok((_, q)) ==> p <= q <= ts.len(),
    decreases ts.len() - p, 1int,
{
    if p < ts.len() && (ts[p] is Multiply || ts[p] is Divide) {
        lemma_primary_progress(vars, ts, p + 1);
        if let Ok((v, q)) = primary(vars, ts, p + 1) {
            if ts[p] is Multiply {
                if let Some(x) = acc.checked_mul(v) {
                    lemma_multiplicative_rest_progress(vars, ts, x, q);
                }
            } else if v != 0 {
                if let Some(x) = acc.checked_div(v) {
                    lemma_multiplicative_rest_progress(vars, ts, x, q);
                }
            }
        }
    }
}

proof fn lemma_additive_progress(vars: Seq<(String, i64)>, ts: Seq<Tok>, pos: int)
    requires
        0 <= pos,
    ensures
        additive(vars, ts, pos) matches Ok((_, p)) ==> pos < p <= ts.len(),
    decreases ts.len() - pos, 2int,
{
    lemma_multiplicative_progress(vars, ts, pos);
    if let Ok((v, p)) = multiplicative(vars, ts, pos) {
        lemma_additive_rest_progress(vars, ts, v, p);
    }
}

proof fn lemma_additive_rest_progress(vars: Seq<(String, i64)>, ts: Seq<Tok>, acc: i64, p: int)
    requires
        0 <= p <= ts.len(),
    ensures
        additive_rest(vars, ts, acc, p) matches Ok((_, q)) ==> p <= q <= ts.len(),
    decreases ts.len() - p, 2int,
{
    if p < ts.len() && (ts[p] is Plus || ts[p] is Minus) {
        lemma_multiplicative_progress(vars, ts, p + 1);
        if let Ok((v, q)) = multiplicative(vars, ts, p + 1) {
            let r = if ts[p] is Plus {
                acc.checked_add(v)
            } else {
                acc.checked_sub(v)
            };
            if let Some(x) = r {
                lemma_additive_rest_progress(vars, ts, x, q);
            }
        }
    }
}

pub open spec fn all_digits(s: Seq<char>) -> bool {
    forall|k: int| 0 <= k < s.len() ==> is_digit(s[k])
}

proof fn lemma_digit_len(t: Seq<char>, m: int)
    requires
        0 <= m <= t.len(),
        forall|k: int| 0 <= k < m ==> is_digit(t[k]),
        m == t.len() || !is_digit(t[m]),
    ensures
        digit_len(t) == m,
    decreases m,
{
    if m > 0 {
        lemma_digit_len(t.skip(1), m - 1);
    }
}

proof fn lemma_ident_len(t: Seq<char>, m: int)
    requires
        0 <= m <= t.len(),
        forall|k: int| 0 <= k < m ==> is_name_char(t[k]),
        m == t.len() || !is_name_char(t[m]),
    ensures
        ident_len(t) == m,
    decreases m,
{
    if m > 0 {
        lemma_ident_len(t.skip(1), m - 1);
    }
}

pub proof fn lemma_digits_value_monotone(w: Seq<char>, m: int)
    requires
        all_digits(w),
        0 <= m <= w.len(),
    ensures
        0 <= digits_value(w.take(m)) <= digits_value(w),
    decreases w.len(),
{
    if m < w.len() {
        lemma_digits_value_monotone(w.drop_last(), m);
        assert(w.drop_last().take(m) == w.take(m));
        assert(w.drop_last().take(m) == w.take(m));
        lemma_digits_value_monotone(w.drop_last(), w.len() - 1);
        assert(w.drop_last().take(w.len() - 1) == w.drop_last());
    } else {
        assert(w.take(m) == w);
        if w.len() > 0 {
            lemma_digits_value_monotone(w.drop_last(), w.len() - 1);
            assert(w.drop_last().take(w.len() - 1) == w.drop_last());
        }
    }
}

/// Evaluates arithmetic expressions over a table of integer variables.
pub struct ExpressionEvaluator {
    variables: Vec<(String, i64)>,
}

impl ExpressionEvaluator {
    /// The integer variables, in order of first definition.
    pub closed spec fn vars(&self) -> Seq<(String, i64)> {
        self.variables@
    }

    pub closed spec fn wf(&self) -> bool {
        keys_unique(self.variables@)
    }

    pub fn new() -> (r: Self)
        ensures
            r.wf(),
            r.vars().len() == 0,
    {
        ExpressionEvaluator { variables: Vec::new() }
    }

    /// Defines or redefines the integer variable `name`.
    pub fn set_variable(&mut self, name: String, value: i64)
        requires
            old(self).wf(),
        ensures
            final(self).wf(),
            lookup(final(self).vars(), name@) == Some(value),
            forall|x: Seq<char>|
                x != name@ ==> lookup(final(self).vars(), x) == lookup(old(self).vars(), x),
    {
        crate::table::insert(&mut self.variables, name.as_str(), value);
    }

    /// Evaluates `expr`.
    pub fn evaluate(&self, expr: &str) -> (r: ParseResult<i64>)
        requires
            self.wf(),
        ensures
            match evaluation(self.vars(), expr@) {
                Ok(v) => r == Ok::<i64, ConfigError>(v),
                Err(f) => r matches Err(e) && reports(e, f),
            },
    {
        let t = trimmed(&chars_of(expr));
        if t.len() == 0 {
            return Err(ConfigError::expression("", "empty expression"));
        }
        match self.tokenize(&t) {
            Err(e) => Err(e),
            Ok(ts) => match self.parse_additive(&ts, 0) {
                Ok((v, _)) => Ok(v),
                Err(e) => Err(e),
            },
        }
    }

    fn parse_additive(&self, ts: &Vec<Token>, pos: usize) -> (r: Result<(i64, usize), ConfigError>)
        requires
            self.wf(),
        ensures
            match additive(self.vars(), toks(ts@), pos as int) {
                Ok((v, p)) => r matches Ok((v2, p2)) && v2 == v && p2 == p,
                Err(f) => r matches Err(e) && reports(e, f),
            },
        decreases ts@.len() - pos, 2int,
    {
        let ghost t = toks(ts@);
        let ghost vars = self.vars();
        proof {
            lemma_multiplicative_progress(vars, t, pos as int);
        }
        let (mut acc, mut p) = match self.parse_multiplicative(ts, pos) {
            Ok(x) => x,
            Err(e) => return Err(e),
        };
        while p < ts.len()
            invariant
                self.wf(),
                t == toks(ts@),
                vars == self.vars(),
                pos < p <= ts@.len(),
                additive(vars, t, pos as int) == additive_rest(vars, t, acc, p as int),
            ensures
                additive(vars, t, pos as int) == Ok::<(i64, int), ExprFault>((acc, p as int)),
                pos < p <= ts@.len(),
            decreases ts@.len() - p,
        {
            assert(t[p as int] == ts@[p as int]@);
            let plus = match &ts[p] {
                Token::Plus => true,
                Token::Minus => false,
                _ => break,
            };
            proof {
                lemma_multiplicative_progress(vars, t, p + 1);
            }
            let (v, q) = match self.parse_multiplicative(ts, p + 1) {
                Ok(x) => x,
                Err(e) => return Err(e),
            };
            let next = if plus {
                acc.checked_add(v)
            } else {
                acc.checked_sub(v)
            };
            match next {
                Some(x) => {
                    acc = x;
                    p = q;
                },
                None => return Err(ConfigError::expression("", "integer overflow")),
            }
        }
        Ok((acc, p))
    }

    fn parse_multiplicative(&self, ts: &Vec<Token>, pos: usize) -> (r: Result<(i64, usize), ConfigError>)
        requires
            self.wf(),
        ensures
            match multiplicative(self.vars(), toks(ts@), pos as int) {
                Ok((v, p)) => r matches Ok((v2, p2)) && v2 == v && p2 == p,
                Err(f) => r matches Err(e) && reports(e, f),
            },
        decreases ts@.len() - pos, 1int,
    {
        let ghost t = toks(ts@);
        let ghost vars = self.vars();
        proof {
            lemma_primary_progress(vars, t, pos as int);
        }
        let (mut acc, mut p) = match self.parse_primary(ts, pos) {
            Ok(x) => x,
            Err(e) => return Err(e),
        };
        while p < ts.len()
            invariant
                self.wf(),
                t == toks(ts@),
                vars == self.vars(),
                pos < p <= ts@.len(),
                multiplicative(vars, t, pos as int) == multiplicative_rest(vars, t, acc, p as int),
            ensures
                multiplicative(vars, t, pos as int) == Ok::<(i64, int), ExprFault>((acc, p as int)),
                pos < p <= ts@.len(),
            decreases ts@.len() - p,
        {
            assert(t[p as int] == ts@[p as int]@);
            let times = match &ts[p] {
                Token::Multiply => true,
                Token::Divide => false,
                _ => break,
            };
            proof {
                lemma_primary_progress(vars, t, p + 1);
            }
            let (v, q) = match self.parse_primary(ts, p + 1) {
                Ok(x) => x,
                Err(e) => return Err(e),
            };
            let next = if times {
                acc.checked_mul(v)
            } else {
                if v == 0 {
                    return Err(ConfigError::expression("", "division by zero"));
                }
                acc.checked_div(v)
            };
            match next {
                Some(x) => {
                    acc = x;
                    p = q;
                },
                None => return Err(ConfigError::expression("", "integer overflow")),
            }
        }
        Ok((acc, p))
    }

    fn parse_primary(&self, ts: &Vec<Token>, pos: usize) -> (r: Result<(i64, usize), ConfigError>)
        requires
            self.wf(),
        ensures
            match primary(self.vars(), toks(ts@), pos as int) {
                Ok((v, p)) => r matches Ok((v2, p2)) && v2 == v && p2 == p,
                Err(f) => r matches Err(e) && reports(e, f),
            },
        decreases ts@.len() - pos, 0int,
    {
        let ghost t = toks(ts@);
        if pos >= ts.len() {
            return Err(ConfigError::expression("", "unexpected end of expression"));
        }
        assert(t[pos as int] == ts@[pos as int]@);
        match &ts[pos] {
            Token::Number(n) => Ok((*n, pos + 1)),
            Token::Variable(name) => match find_index(&self.variables, name.as_str()) {
                Some(i) => {
                    proof {
                        lemma_lookup_at(self.variables@, i as int);
                    }
                    Ok((self.variables[i].1, pos + 1))
                },
                None => Err(ConfigError::variable_not_found(name.as_str())),
            },
            Token::LeftParen => {
                let (v, p) = match self.parse_additive(ts, pos + 1) {
                    Ok(x) => x,
                    Err(e) => return Err(e),
                };
                if p < ts.len() {
                    assert(t[p as int] == ts@[p as int]@);
                    match &ts[p] {
                        Token::RightParen => {
                            return Ok((v, p + 1));
                        },
                        _ => {},
                    }
                }
                Err(ConfigError::expression("", "missing closing parenthesis"))
            },
            _ => Err(ConfigError::expression("", "unexpected token")),
        }
    }

    fn tokenize(&self, v: &Vec<char>) -> (r: ParseResult<Vec<Token>>)
        ensures
            match tokens_of(v@) {
                Ok(ts) => r matches Ok(out) && toks(out@) == ts,
                Err(f) => r matches Err(e) && reports(e, f),
            },
    {
        let ghost s = v@;
        let n = v.len();
        let mut out: Vec<Token> = Vec::new();
        let mut i: usize = 0;
        assert(s.skip(0) == s);
        proof {
            match tokens_of(s) {
                Ok(ts) => { assert(toks(out@) + ts =~= ts); },
                Err(_) => {},
            }
        }
        while i < n
            invariant
                n == s.len(),
                s == v@,
                0 <= i <= n,
                tokens_of(s) == match tokens_of(s.skip(i as int)) {
                    Ok(ts) => Ok(toks(out@) + ts),
                    Err(f) => Err(f),
                },
            decreases n - i,
        {
            let ghost before = out@;
            let (tok, next) = match token_at(v, i) {
                Ok(x) => x,
                Err(e) => return Err(e),
            };
            match tok {
                Some(t) => {
                    out.push(t);
                    proof {
                        assert(toks(out@) =~= toks(before).push(t@));
                        match tokens_of(s.skip(next as int)) {
                            Ok(ts) => { assert(toks(out@) + ts =~= toks(before) + (seq![t@] + ts)); },
                            Err(_) => {},
                        }
                    }
                },
                None => {},
            }
            i = next;
        }
        proof {
            assert(s.skip(n as int) =~= Seq::<char>::empty());
            assert(toks(out@) + Seq::<Tok>::empty() =~= toks(out@));
        }
        Ok(out)
    }
}

/// The token that starts at position `i` of `v`, if any (whitespace gives none), and the
/// position after it.
fn token_at(v: &Vec<char>, i: usize) -> (r: Result<(Option<Token>, usize), ConfigError>)
    requires
        i < v@.len(),
    ensures
        match r {
            Ok((Some(t), next)) => i < next <= v@.len() && tokens_of(v@.skip(i as int)) == push_front(
                t@,
                tokens_of(v@.skip(next as int)),
            ),
            Ok((None, next)) => i < next <= v@.len() && tokens_of(v@.skip(i as int)) == tokens_of(
                v@.skip(next as int),
            ),
            Err(e) => tokens_of(v@.skip(i as int)) matches Err(f) && reports(e, f),
        },
{
    let ghost s = v@;
    let n = v.len();
    let mut out: Option<Token> = None;
    let ghost u = s.skip(i as int);
    let c = v[i];
    assert(u[0] == c);
    let mut next: usize = i + 1;
    if c == ' ' || c == '\t' || c == '\n' || c == '\r' {
    } else if c == '+' {
        out = Some(Token::Plus);
    } else if c == '-' {
        if i + 1 < n && '0' <= v[i + 1] && v[i + 1] <= '9' {
            proof {
                let k = digit_len(s.skip(i + 1)) as int;
                lemma_digit_len_bound(s.skip(i + 1));
                assert(u.skip(1) =~= s.skip(i + 1));
                assert(u.subrange(1, 1 + k) =~= s.subrange(i + 1, i + 1 + k));
            }
            let (num, end) = match read_number(v, i + 1, true) {
                Ok(x) => x,
                Err(e) => {
                    return Err(e);
                },
            };
            out = Some(Token::Number(num));
            next = end;
        } else {
            out = Some(Token::Minus);
        }
    } else if c == '*' {
        out = Some(Token::Multiply);
    } else if c == '/' {
        out = Some(Token::Divide);
    } else if c == '(' {
        out = Some(Token::LeftParen);
    } else if c == ')' {
        out = Some(Token::RightParen);
    } else if c == '$' {
        proof {
            let k = ident_len(s.skip(i + 1)) as int;
            lemma_ident_len_bound(s.skip(i + 1));
            assert(u.skip(1) =~= s.skip(i + 1));
            assert(u.subrange(1, 1 + k) =~= s.subrange(i + 1, i + 1 + k));
        }
        let (name, end) = match read_identifier(v, i + 1) {
            Ok(x) => x,
            Err(e) => return Err(e),
        };
        out = Some(Token::Variable(name));
        next = end;
    } else if '0' <= c && c <= '9' {
        proof {
            let k = digit_len(u) as int;
            lemma_digit_len_bound(u);
            assert(u.take(k) =~= s.subrange(i as int, i + k));
        }
        let (num, end) = match read_number(v, i, false) {
            Ok(x) => x,
            Err(e) => return Err(e),
        };
        out = Some(Token::Number(num));
        next = end;
    } else if name_char(c) {
        proof {
            let k = ident_len(u) as int;
            lemma_ident_len_bound(u);
            assert(u.take(k) =~= s.subrange(i as int, i + k));
        }
        let (name, end) = match read_identifier(v, i) {
            Ok(x) => x,
            Err(e) => return Err(e),
        };
        out = Some(Token::Variable(name));
        next = end;
    } else {
        return Err(ConfigError::expression("", "unexpected character"));
    }
    proof {
    assert(u.skip(next - i) =~= s.skip(next as int));
    }
    Ok((out, next))
}

/// Reads the decimal digits of `v` from `start` on (at least one), negated if `negative`.
fn read_number(v: &Vec<char>, start: usize, negative: bool) -> (r: Result<(i64, usize), ConfigError>)
    requires
        start < v@.len(),
        is_digit(v@[start as int]),
    ensures
        ({
            let k = digit_len(v@.skip(start as int)) as int;
            let d = digits_value(v@.subrange(start as int, start + k));
            let val = if negative { -d } else { d };
            if i64::MIN <= val <= i64::MAX {
                r matches Ok((x, end)) && x == val && end == start + k
            } else {
                r matches Err(e) && reports(e, ExprFault::InvalidNumber)
            }
        }),
{
    let n = v.len();
    let mut end: usize = start;
    while end < n && '0' <= v[end] && v[end] <= '9'
        invariant
            start <= end <= n == v@.len(),
            forall|k: int| start <= k < end ==> is_digit(v@[k]),
        decreases n - end,
    {
        end += 1;
    }
    let ghost t = v@.skip(start as int);
    let ghost w = v@.subrange(start as int, end as int);
    proof {
        lemma_digit_len(t, end - start);
    }
    let mut acc: i64 = 0;
    let mut j: usize = start;
    while j < end
        invariant
            start <= j <= end <= n == v@.len(),
            w == v@.subrange(start as int, end as int),
            digit_len(v@.skip(start as int)) == end - start,
            all_digits(w),
            forall|k: int| start <= k < end ==> is_digit(v@[k]),
            acc == if negative { -digits_value(w.take(j - start)) } else { digits_value(w.take(j - start)) },
        decreases end - j,
    {
        let c = v[j];
        let d: i64 = (c as u32 - '0' as u32) as i64;
        let ghost m = j - start;
        proof {
            assert(w.take(m + 1).drop_last() =~= w.take(m));
            assert(w.take(m + 1).last() == c);
            assert(digits_value(w.take(m + 1)) == digits_value(w.take(m)) * 10 + d);
            lemma_digits_value_monotone(w, m + 1);
            lemma_digits_value_monotone(w, m);
        }
        if !negative {
            if acc > 922337203685477580 || (acc == 922337203685477580 && d > 7) {
                proof {
                    assert(digits_value(w.take(m + 1)) > i64::MAX) by (nonlinear_arith)
                        requires
                            digits_value(w.take(m + 1)) == acc * 10 + d,
                            acc > 922337203685477580 || (acc == 922337203685477580 && d > 7),
                            0 <= d <= 9,
                    ;
                    assert(w.take(w.len() as int) =~= w);
                    assert(digits_value(w) > i64::MAX);
                }
                return Err(ConfigError::expression("", "invalid number"));
            }
            proof {
                assert(0 <= acc * 10 + d <= i64::MAX) by (nonlinear_arith)
                    requires
                        0 <= acc <= 922337203685477580,
                        acc < 922337203685477580 || d <= 7,
                        0 <= d <= 9,
                ;
            }
            acc = acc * 10 + d;
        } else {
            if acc < -922337203685477580 || (acc == -922337203685477580 && d > 8) {
                proof {
                    assert(-digits_value(w.take(m + 1)) < i64::MIN) by (nonlinear_arith)
                        requires
                            digits_value(w.take(m + 1)) == -acc * 10 + d,
                            acc < -922337203685477580 || (acc == -922337203685477580 && d > 8),
                            0 <= d <= 9,
                    ;
                    assert(w.take(w.len() as int) =~= w);
                    assert(-digits_value(w) < i64::MIN);
                }
                return Err(ConfigError::expression("", "invalid number"));
            }
            proof {
                assert(i64::MIN <= acc * 10 - d <= 0) by (nonlinear_arith)
                    requires
                        -922337203685477580 <= acc <= 0,
                        acc > -922337203685477580 || d <= 8,
                        0 <= d <= 9,
                ;
            }
            acc = acc * 10 - d;
        }
        j += 1;
    }
    assert(w.take(w.len() as int) =~= w);
    Ok((acc, end))
}

/// Reads the identifier of `v` that starts at `start`; it must not be empty.
fn read_identifier(v: &Vec<char>, start: usize) -> (r: Result<(String, usize), ConfigError>)
    requires
        start <= v@.len(),
    ensures
        ({
            let k = ident_len(v@.skip(start as int)) as int;
            if k == 0 {
                r matches Err(e) && reports(e, ExprFault::ExpectedIdentifier)
            } else {
                r matches Ok((name, end)) && end == start + k && name@ == v@.subrange(
                    start as int,
                    end as int,
                )
            }
        }),
{
    let n = v.len();
    let mut end: usize = start;
    while end < n && name_char(v[end])
        invariant
            start <= end <= n == v@.len(),
            forall|k: int| start <= k < end ==> is_name_char(v@[k]),
        decreases n - end,
    {
        end += 1;
    }
    proof {
        lemma_ident_len(v@.skip(start as int), end - start);
    }
    if end == start {
        return Err(ConfigError::expression("", "expected identifier"));
    }
    Ok((string_of(&sub_chars(v, start, end)), end))
}

/// The decimal digits of `n`.
pub open spec fn digits_of(n: nat) -> Seq<char>
    decreases n,
{
    if n < 10 {
        seq![(n + '0' as nat) as char]
    } else {
        digits_of(n / 10) + seq![((n % 10) + '0' as nat) as char]
    }
}

/// The decimal text of `v`, with a leading `-` when negative.
pub open spec fn decimal(v: int) -> Seq<char> {
    if v < 0 {
        seq!['-'] + digits_of((-v) as nat)
    } else {
        digits_of(v as nat)
    }
}

fn digit_char(d: u64) -> (c: char)
    requires
        d < 10,
    ensures
        c == (d + '0' as nat) as char,
{
    if d == 0 { '0' } else if d == 1 { '1' } else if d == 2 { '2' } else if d == 3 { '3' } else if d
        == 4 { '4' } else if d == 5 { '5' } else if d == 6 { '6' } else if d == 7 { '7' } else if d
        == 8 { '8' } else { '9' }
}

pub(crate) fn push_digits(out: &mut Vec<char>, n: u64)
    ensures
        final(out)@ == old(out)@ + digits_of(n as nat),
    decreases n,
{
    if n >= 10 {
        push_digits(out, n / 10);
    }
    out.push(digit_char(n % 10));
    proof {
        assert(out@ =~= old(out)@ + digits_of(n as nat));
    }
}

/// Appends the decimal text of `v`.
pub fn push_decimal(out: &mut Vec<char>, v: i64)
    ensures
        final(out)@ == old(out)@ + decimal(v as int),
{
    if v < 0 {
        out.push('-');
        let m: u64 = ((-(v + 1)) as u64) + 1;
        let ghost mid = out@;
        push_digits(out, m);
        assert(out@ =~= old(out)@ + decimal(v as int));
    } else {
        push_digits(out, v as u64);
    }
}

/// The expression text of a `{{ }}` span that starts after the opening braces, at nesting
/// `depth`, and the text after its closing braces. An unclosed span runs to the end.
pub open spec fn scan_span(t: Seq<char>, depth: nat) -> (Seq<char>, Seq<char>)
    decreases t.len(),
{
    if t.len() == 0 {
        (Seq::empty(), Seq::empty())
    } else if t[0] == '{' && t.len() > 1 && t[1] == '{' {
        let r = scan_span(t.skip(2), depth + 1);
        (seq!['{', '{'] + r.0, r.1)
    } else if t[0] == '}' && t.len() > 1 && t[1] == '}' {
        if depth <= 1 {
            (Seq::empty(), t.skip(2))
        } else {
            let r = scan_span(t.skip(2), (depth - 1) as nat);
            (seq!['}', '}'] + r.0, r.1)
        }
    } else {
        let r = scan_span(t.skip(1), depth);
        (seq![t[0]] + r.0, r.1)
    }
}

pub proof fn lemma_scan_span_shorter(t: Seq<char>, depth: nat)
    ensures
        scan_span(t, depth).1.len() <= t.len(),
    decreases t.len(),
{
    if t.len() == 0 {
    } else if t[0] == '{' && t.len() > 1 && t[1] == '{' {
        lemma_scan_span_shorter(t.skip(2), depth + 1);
    } else if t[0] == '}' && t.len() > 1 && t[1] == '}' {
        if depth > 1 {
            lemma_scan_span_shorter(t.skip(2), (depth - 1) as nat);
        }
    } else {
        lemma_scan_span_shorter(t.skip(1), depth);
    }
}

pub open spec fn prepend_text(x: Seq<char>, r: Result<Seq<char>, ExprFault>) -> Result<Seq<char>, ExprFault> {
    match r {
        Ok(y) => Ok(x + y),
        Err(f) => Err(f),
    }
}

/// `s` with each `{{ expr }}` span replaced by the decimal value of `expr`.
#[verifier::opaque]
pub open spec fn substituted(vars: Seq<(String, i64)>, s: Seq<char>) -> Result<Seq<char>, ExprFault>
    decreases s.len(),
{
    if s.len() == 0 {
        Ok(Seq::empty())
    } else if s[0] == '{' && s.len() > 1 && s[1] == '{' {
        let span = scan_span(s.skip(2), 1);
        proof {
            lemma_scan_span_shorter(s.skip(2), 1);
        }
        match evaluation(vars, span.0) {
            Ok(v) => prepend_text(decimal(v as int), substituted(vars, span.1)),
            Err(f) => Err(f),
        }
    } else {
        prepend_text(seq![s[0]], substituted(vars, s.skip(1)))
    }
}

/// Reads the span that starts at `start` (after `{{`): its expression text and the position
/// after its closing braces.
fn read_span(v: &Vec<char>, start: usize) -> (r: (Vec<char>, usize))
    requires
        start <= v@.len(),
    ensures
        start <= r.1 <= v@.len(),
        (r.0@, v@.skip(r.1 as int)) == scan_span(v@.skip(start as int), 1),
{
    let n = v.len();
    let mut expr: Vec<char> = Vec::new();
    let mut i: usize = start;
    let mut depth: usize = 1;
    loop
        invariant
            n == v@.len(),
            start <= i <= n,
            1 <= depth <= i - start + 1,
            ({
                let whole = scan_span(v@.skip(start as int), 1);
                let part = scan_span(v@.skip(i as int), depth as nat);
                whole == (expr@ + part.0, part.1)
            }),
        decreases n - i,
    {
        let ghost t = v@.skip(i as int);
        let ghost pre = expr@;
        if i >= n {
            assert(t.len() == 0);
            assert(expr@ + Seq::<char>::empty() =~= expr@);
            return (expr, n);
        }
        let c = v[i];
        assert(t[0] == c);
        if c == '{' && i + 1 < n && v[i + 1] == '{' {
            assert(t.skip(2) =~= v@.skip(i + 2));
            expr.push('{');
            expr.push('{');
            i += 2;
            depth += 1;
            assert(pre + (seq!['{', '{'] + scan_span(v@.skip(i as int), depth as nat).0) =~= expr@ + scan_span(v@.skip(i as int), depth as nat).0);
        } else if c == '}' && i + 1 < n && v[i + 1] == '}' {
            assert(t.skip(2) =~= v@.skip(i + 2));
            if depth == 1 {
                assert(expr@ + Seq::<char>::empty() =~= expr@);
                return (expr, i + 2);
            }
            expr.push('}');
            expr.push('}');
            i += 2;
            depth -= 1;
            assert(pre + (seq!['}', '}'] + scan_span(v@.skip(i as int), depth as nat).0) =~= expr@ + scan_span(v@.skip(i as int), depth as nat).0);
        } else {
            assert(t.skip(1) =~= v@.skip(i + 1));
            expr.push(c);
            i += 1;
            assert(pre + (seq![c] + scan_span(v@.skip(i as int), depth as nat).0) =~= expr@ + scan_span(v@.skip(i as int), depth as nat).0);
        }
    }
}

proof fn lemma_substituted_plain(vars: Seq<(String, i64)>, t: Seq<char>)
    requires
        t.len() > 0,
        !(t[0] == '{' && t.len() > 1 && t[1] == '{'),
    ensures
        substituted(vars, t) == prepend_text(seq![t[0]], substituted(vars, t.skip(1))),
{
    reveal(substituted);
}

/// Evaluates the span whose `{{` stands at position `i` of `v`: the decimal text of its value
/// and the position after it.
fn substitute_span(evaluator: &ExpressionEvaluator, v: &Vec<char>, i: usize) -> (r: ParseResult<(Vec<char>, usize)>)
    requires
        evaluator.wf(),
        i + 1 < v@.len(),
        v@[i as int] == '{',
        v@[i + 1] == '{',
    ensures
        match r {
            Ok((digits, next)) => i < next <= v@.len() && substituted(evaluator.vars(), v@.skip(i as int))
                == prepend_text(digits@, substituted(evaluator.vars(), v@.skip(next as int))),
            Err(e) => substituted(evaluator.vars(), v@.skip(i as int)) matches Err(f) && reports(e, f),
        },
{
    let n = v.len();
    let ghost t = v@.skip(i as int);
    assert(t.skip(2) =~= v@.skip(i + 2));
    proof {
        reveal(substituted);
    }
    let (expr, next) = read_span(v, i + 2);
    let text = string_of(&expr);
    assert(t.len() > 1 && t[0] == '{' && t[1] == '{');
    assert(scan_span(t.skip(2), 1) == (text@, v@.skip(next as int)));
    let value = match evaluator.evaluate(text.as_str()) {
        Ok(x) => x,
        Err(e) => return Err(e),
    };
    let mut digits: Vec<char> = Vec::new();
    push_decimal(&mut digits, value);
    assert(digits@ =~= decimal(value as int));
    Ok((digits, next))
}

/// Replaces each `{{ expr }}` span of `input` by the decimal value of `expr`; the first
/// expression that cannot be evaluated is reported.
pub fn evaluate_expressions_in_string(evaluator: &ExpressionEvaluator, input: &str) -> (r: ParseResult<String>)
    requires
        evaluator.wf(),
    ensures
        match substituted(evaluator.vars(), input@) {
            Ok(x) => r matches Ok(out) && out@ == x,
            Err(f) => r matches Err(e) && reports(e, f),
        },
{
    let v = chars_of(input);
    let n = v.len();
    let ghost s = v@;
    let ghost vars = evaluator.vars();
    let mut out: Vec<char> = Vec::new();
    let mut i: usize = 0;
    assert(s.skip(0) =~= s);
    proof {
        match substituted(vars, s) {
            Ok(y) => { assert(out@ + y =~= y); },
            Err(_) => {},
        }
    }
    while i < n
        invariant
            n == s.len(),
            s == v@,
            s == input@,
            vars == evaluator.vars(),
            evaluator.wf(),
            0 <= i <= n,
            substituted(vars, s) == prepend_text(out@, substituted(vars, s.skip(i as int))),
        decreases n - i,
    {
        let ghost t = s.skip(i as int);
        let ghost pre = out@;
        let c = v[i];
        assert(t[0] == c);
        if c == '{' && i + 1 < n && v[i + 1] == '{' {
            let (digits, next) = match substitute_span(evaluator, &v, i) {
                Ok(x) => x,
                Err(e) => {
                    proof {
                        assert(substituted(vars, s) == substituted(vars, s.skip(i as int)));
                    }
                    return Err(e);
                },
            };
            let mut ds = digits;
            out.append(&mut ds);
            proof {
                match substituted(vars, s.skip(next as int)) {
                    Ok(z) => { assert(pre + (digits@ + z) =~= out@ + z); },
                    Err(_) => {},
                }
            }
            i = next;
        } else {
            assert(t.skip(1) =~= s.skip(i + 1));
            proof {
                lemma_substituted_plain(vars, t);
            }
            out.push(c);
            proof {
                match substituted(vars, s.skip(i + 1)) {
                    Ok(z) => { assert(pre + (seq![c] + z) =~= out@ + z); },
                    Err(_) => {},
                }
            }
            i += 1;
        }
    }
    assert(s.skip(n as int).len() == 0);
    assert(out@ + Seq::<char>::empty() =~= out@);
    proof {
        reveal(substituted);
        assert(substituted(vars, s.skip(n as int)) == Ok::<Seq<char>, ExprFault>(Seq::empty()));
    }
    Ok(string_of(&out))
}

} // verus!
