//! How a raw value becomes its text: escapes are protected, variables expanded, `{{ }}`
//! expressions evaluated, and escaped braces restored.
use vstd::prelude::*;
use crate::error::{ConfigError, ParseResult};
use crate::escaping::{escaped, process_escapes, restore_escaped_braces, restored};
use crate::expressions::{evaluate_expressions_in_string, reports, substituted, ExpressionEvaluator};
use crate::table::views_of;
use crate::variables::{expansion, VariableManager};

verus! {

/// The text that `raw` resolves to, or why it cannot be resolved.
pub enum Resolution {
    /// The resolved text.
    Text(Seq<char>),
    /// Variable expansion met the chain of names again.
    Circular(Seq<Seq<char>>),
    /// An expression failed.
    Failed(crate::expressions::ExprFault),
}

/// What `resolve_value` yields for `raw`.
pub open spec fn resolution(
    vars: Seq<(String, String)>,
    env: Seq<(String, String)>,
    ints: Seq<(String, i64)>,
    raw: Seq<char>,
) -> Resolution {
    match expansion(vars, env, escaped(raw), Seq::empty()) {
        Err(chain) => Resolution::Circular(chain),
        Ok(x) => match substituted(ints, x) {
            Err(f) => Resolution::Failed(f),
            Ok(y) => Resolution::Text(restored(y)),
        },
    }
}

/// Resolves the raw text of a value: escapes are protected, `$NAME`s expanded, `{{ }}`
/// expressions evaluated, and escaped braces restored as literal `{{` and `}}`.
pub fn resolve_value(variables: &VariableManager, expressions: &ExpressionEvaluator, raw: &str) -> (r: ParseResult<String>)
    requires
        variables.wf(),
        expressions.wf(),
    ensures
        match resolution(variables.vars(), variables.env(), expressions.vars(), raw@) {
            Resolution::Text(t) => r matches Ok(s) && s@ == t,
            Resolution::Circular(chain) => r matches Err(ConfigError::CircularDependency { chain: c })
                && views_of(c@) == chain,
            Resolution::Failed(f) => r matches Err(e) && reports(e, f),
        },
{
    let protected = process_escapes(raw);
    let expanded = match variables.expand(protected.as_str()) {
        Ok(x) => x,
        Err(e) => return Err(e),
    };
    let evaluated = match evaluate_expressions_in_string(expressions, expanded.as_str()) {
        Ok(x) => x,
        Err(e) => return Err(e),
    };
    Ok(restore_escaped_braces(evaluated.as_str()))
}

/// The value of `c` as a digit in base `radix` (10 or 16).
pub open spec fn radix_digit(c: char, radix: nat) -> Option<nat> {
    if '0' <= c && c <= '9' {
        Some((c as nat - '0' as nat) as nat)
    } else if radix == 16 && 'a' <= c && c <= 'f' {
        Some((c as nat - 'a' as nat + 10) as nat)
    } else if radix == 16 && 'A' <= c && c <= 'F' {
        Some((c as nat - 'A' as nat + 10) as nat)
    } else {
        None
    }
}

/// Whether every character of `ds` is a digit in base `radix`.
pub open spec fn all_radix_digits(ds: Seq<char>, radix: nat) -> bool {
    forall|k: int| 0 <= k < ds.len() ==> radix_digit(ds[k], radix) is Some
}

/// The number that the digits `ds` spell in base `radix`.
pub open spec fn radix_value(ds: Seq<char>, radix: nat) -> nat
    decreases ds.len(),
{
    if ds.len() == 0 {
        0
    } else {
        radix_value(ds.drop_last(), radix) * radix + match radix_digit(ds.last(), radix) {
            Some(d) => d,
            None => 0,
        }
    }
}

/// The integer that `s` spells: an optional `0x` for base 16, an optional sign, then at least
/// one digit; `None` when it does not spell one or it does not fit in 64 bits.
pub open spec fn parsed_int(s: Seq<char>) -> Option<i64> {
    let hex = s.len() >= 2 && s[0] == '0' && s[1] == 'x';
    let t = if hex { s.skip(2) } else { s };
    let radix: nat = if hex { 16 } else { 10 };
    let signed = t.len() > 0 && (t[0] == '+' || t[0] == '-');
    let body = if signed { t.skip(1) } else { t };
    int_outcome(body, radix, signed && t[0] == '-')
}

proof fn lemma_radix_value_monotone(w: Seq<char>, m: int, radix: nat)
    requires
        0 <= m <= w.len(),
        radix >= 1,
    ensures
        radix_value(w.take(m), radix) <= radix_value(w, radix),
    decreases w.len(),
{
    if m < w.len() {
        lemma_radix_value_monotone(w.drop_last(), m, radix);
        assert(w.drop_last().take(m) == w.take(m));
        let a = radix_value(w.drop_last(), radix);
        assert(a * radix >= a) by (nonlinear_arith)
            requires
                radix >= 1,
        ;
    } else {
        assert(w.take(m) == w);
    }
}

fn digit_value(c: char, radix: u64) -> (r: Option<u64>)
    requires
        radix == 10 || radix == 16,
    ensures
        match radix_digit(c, radix as nat) {
            Some(d) => r == Some(d as u64),
            None => r is None,
        },
{
    if '0' <= c && c <= '9' {
        Some((c as u32 - '0' as u32) as u64)
    } else if radix == 16 && 'a' <= c && c <= 'f' {
        Some((c as u32 - 'a' as u32 + 10) as u64)
    } else if radix == 16 && 'A' <= c && c <= 'F' {
        Some((c as u32 - 'A' as u32 + 10) as u64)
    } else {
        None
    }
}

/// The integer that the digits `body` spell in base `radix`, negated if `negative`, when
/// there is at least one digit, every character is one, and the value fits in 64 bits.
pub open spec fn int_outcome(body: Seq<char>, radix: nat, negative: bool) -> Option<i64> {
    let v = radix_value(body, radix) as int;
    let val = if negative { -v } else { v };
    if body.len() == 0 || !all_radix_digits(body, radix) || val < i64::MIN || val > i64::MAX {
        None
    } else {
        Some(val as i64)
    }
}

/// Reads an integer, decimal or `0x` hexadecimal, with an optional sign.
pub fn parse_int(s: &str) -> (r: ParseResult<i64>)
    ensures
        match parsed_int(s@) {
            Some(v) => r == Ok::<i64, ConfigError>(v),
            None => r matches Err(ConfigError::InvalidNumber { .. }),
        },
{
    let v = crate::text::chars_of(s);
    let n = v.len();
    let hex = n >= 2 && v[0] == '0' && v[1] == 'x';
    let start: usize = if hex { 2 } else { 0 };
    let radix: u64 = if hex { 16 } else { 10 };
    let ghost t = if hex { v@.skip(2) } else { v@ };
    let signed = start < n && (v[start] == '+' || v[start] == '-');
    let negative = signed && v[start] == '-';
    let first: usize = if signed { start + 1 } else { start };
    let ghost body = v@.skip(first as int);
    proof {
        if hex {
            assert(t =~= v@.skip(2));
            if t.len() > 0 {
                assert(t.skip(1) =~= v@.skip(3));
                assert(t[0] == v@[2]);
            }
        } else {
            if t.len() > 0 {
                assert(t.skip(1) =~= v@.skip(1));
            }
        }
        assert(signed == (t.len() > 0 && (t[0] == '+' || t[0] == '-')));
        assert(negative == (signed && t[0] == '-'));
        if signed {
            assert(body == t.skip(1));
        } else {
            assert(body =~= t);
        }
        assert(parsed_int(v@) == int_outcome(body, radix as nat, negative));
    }
    if first >= n {
        return Err(ConfigError::invalid_number(s, "invalid integer"));
    }
    let mut acc: u64 = 0;
    let mut i: usize = first;
    while i < n
        invariant
            first <= i <= n == v@.len(),
            body == v@.skip(first as int),
            v@ == s@,
            parsed_int(s@) == int_outcome(body, radix as nat, negative),
            radix == 10 || radix == 16,
            all_radix_digits(body.take(i - first), radix as nat),
            acc as nat == radix_value(body.take(i - first), radix as nat),
        decreases n - i,
    {
        let ghost m = i - first;
        let d = match digit_value(v[i], radix) {
            Some(d) => d,
            None => {
                assert(!all_radix_digits(body, radix as nat)) by {
                    assert(body[m] == v@[i as int]);
                }
                return Err(ConfigError::invalid_number(s, "invalid integer"));
            },
        };
        proof {
            assert(body.take(m + 1).drop_last() =~= body.take(m));
            assert(body.take(m + 1).last() == v@[i as int]);
            lemma_radix_value_monotone(body, m + 1, radix as nat);
        }
        let next = match acc.checked_mul(radix) {
            Some(x) => x.checked_add(d),
            None => None,
        };
        match next {
            Some(x) => {
                acc = x;
            },
            None => {
                proof {
                    assert(radix_value(body.take(m + 1), radix as nat) > u64::MAX) by (nonlinear_arith)
                        requires
                            radix_value(body.take(m + 1), radix as nat) == acc * radix + d,
                            acc * radix > u64::MAX || acc * radix + d > u64::MAX,
                    {}
                    assert(body.take(body.len() as int) =~= body);
                }
                return Err(ConfigError::invalid_number(s, "invalid integer"));
            },
        }
        i += 1;
        proof {
            assert forall|k: int| 0 <= k < body.take(i - first).len() implies #[trigger] radix_digit(
                body.take(i - first)[k],
                radix as nat,
            ) is Some by {
                if k < m {
                    assert(body.take(i - first)[k] == body.take(m)[k]);
                }
            }
        }
    }
    assert(body.take(n - first) =~= body);
    if negative {
        if acc > 9223372036854775808 {
            return Err(ConfigError::invalid_number(s, "invalid integer"));
        }
        if acc == 9223372036854775808 {
            return Ok(i64::MIN);
        }
        Ok(-(acc as i64))
    } else {
        if acc > 9223372036854775807 {
            return Err(ConfigError::invalid_number(s, "invalid integer"));
        }
        Ok(acc as i64)
    }
}

/// Defines variable `name` from its raw text: escapes are protected and `$NAME`s expanded
/// (expressions stay for the places that use the variable); a value that reads as an
/// integer also becomes an integer variable of the expression evaluator.
pub fn define_variable(
    variables: &mut VariableManager,
    expressions: &mut ExpressionEvaluator,
    name: &str,
    raw: &str,
) -> (r: ParseResult<()>)
    requires
        old(variables).wf(),
        old(expressions).wf(),
    ensures
        final(variables).wf(),
        final(expressions).wf(),
        match expansion(old(variables).vars(), old(variables).env(), escaped(raw@), Seq::empty()) {
            Err(chain) => {
                &&& r matches Err(ConfigError::CircularDependency { chain: c }) && views_of(c@) == chain
                &&& *final(variables) == *old(variables)
                &&& *final(expressions) == *old(expressions)
            },
            Ok(x) => {
                &&& r is Ok
                &&& final(variables).value_of(name@) == Some(x)
                &&& forall|k: Seq<char>| k != name@ ==> final(variables).value_of(k) == old(variables).value_of(k)
                &&& final(variables).env() == old(variables).env()
                &&& match parsed_int(x) {
                    Some(i) => {
                        &&& crate::table::lookup(final(expressions).vars(), name@) == Some(i)
                        &&& forall|k: Seq<char>| k != name@ ==> crate::table::lookup(final(expressions).vars(), k)
                            == crate::table::lookup(old(expressions).vars(), k)
                    },
                    None => *final(expressions) == *old(expressions),
                }
            },
        },
{
    let protected = process_escapes(raw);
    let expanded = match variables.expand(protected.as_str()) {
        Ok(x) => x,
        Err(e) => return Err(e),
    };
    let number = parse_int(expanded.as_str());
    variables.set(crate::text::owned(name), expanded);
    match number {
        Ok(i) => expressions.set_variable(crate::text::owned(name), i),
        Err(_) => {},
    }
    Ok(())
}

} // verus!
