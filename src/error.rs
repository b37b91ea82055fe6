//! The error type shared by every operation of the library.
use vstd::prelude::*;
use crate::text::{chars_of, join, owned, string_of, views};
use crate::expressions::{decimal, push_digits};

verus! {

/// What can go wrong while reading, evaluating or editing a configuration.
#[derive(Debug)]
pub enum ConfigError {
    /// The surface syntax could not be read.
    ParseError { line: usize, column: usize, message: String },
    /// A stored value has another type than the one asked for.
    TypeError { key: String, expected: String, found: String },
    /// A variable named in an expression is not defined.
    VariableNotFound { name: String },
    /// Variable expansion came back to a name already being expanded.
    CircularDependency { chain: Vec<String> },
    /// An arithmetic expression could not be evaluated.
    ExpressionError { expression: String, reason: String },
    /// A color literal is malformed.
    InvalidColor { value: String, reason: String },
    /// A number literal is malformed.
    InvalidNumber { value: String, reason: String },
    /// No value is stored under the key.
    KeyNotFound { key: String },
    /// No such special category, or no such instance of it.
    CategoryNotFound { category: String, key: Option<String> },
    /// A handler is missing or refused its call.
    HandlerError { handler: String, message: String },
    /// Reading or writing a file failed.
    IoError { path: String, message: String },
    /// Any other failure, described in words.
    Custom { message: String },
    /// Several errors reported together, in the order they occurred.
    Multiple { errors: Vec<ConfigError> },
}

/// The result of an operation that may fail with a `ConfigError`.
pub type ParseResult<T> = Result<T, ConfigError>;

impl ConfigError {
    pub fn parse(line: usize, column: usize, message: &str) -> (r: Self)
        ensures
            r matches ConfigError::ParseError { line: l, column: c, message: m }
                && l == line && c == column && m@ == message@,
    {
        ConfigError::ParseError { line, column, message: owned(message) }
    }

    pub fn type_error(key: &str, expected: &str, found: &str) -> (r: Self)
        ensures
            r matches ConfigError::TypeError { key: k, expected: e, found: f }
                && k@ == key@ && e@ == expected@ && f@ == found@,
    {
        ConfigError::TypeError { key: owned(key), expected: owned(expected), found: owned(found) }
    }

    pub fn variable_not_found(name: &str) -> (r: Self)
        ensures
            r matches ConfigError::VariableNotFound { name: n } && n@ == name@,
    {
        ConfigError::VariableNotFound { name: owned(name) }
    }

    pub fn circular_dependency(chain: Vec<String>) -> (r: Self)
        ensures
            r == (ConfigError::CircularDependency { chain }),
    {
        ConfigError::CircularDependency { chain }
    }

    pub fn expression(expression: &str, reason: &str) -> (r: Self)
        ensures
            r matches ConfigError::ExpressionError { expression: e, reason: m }
                && e@ == expression@ && m@ == reason@,
    {
        ConfigError::ExpressionError { expression: owned(expression), reason: owned(reason) }
    }

    pub fn invalid_color(value: &str, reason: &str) -> (r: Self)
        ensures
            r matches ConfigError::InvalidColor { value: v, reason: m }
                && v@ == value@ && m@ == reason@,
    {
        ConfigError::InvalidColor { value: owned(value), reason: owned(reason) }
    }

    pub fn invalid_number(value: &str, reason: &str) -> (r: Self)
        ensures
            r matches ConfigError::InvalidNumber { value: v, reason: m }
                && v@ == value@ && m@ == reason@,
    {
        ConfigError::InvalidNumber { value: owned(value), reason: owned(reason) }
    }

    pub fn key_not_found(key: &str) -> (r: Self)
        ensures
            r matches ConfigError::KeyNotFound { key: k } && k@ == key@,
    {
        ConfigError::KeyNotFound { key: owned(key) }
    }

    pub fn category_not_found(category: &str, key: Option<String>) -> (r: Self)
        ensures
            r matches ConfigError::CategoryNotFound { category: c, key: k }
                && c@ == category@ && k == key,
    {
        ConfigError::CategoryNotFound { category: owned(category), key }
    }

    pub fn handler(handler: &str, message: &str) -> (r: Self)
        ensures
            r matches ConfigError::HandlerError { handler: h, message: m }
                && h@ == handler@ && m@ == message@,
    {
        ConfigError::HandlerError { handler: owned(handler), message: owned(message) }
    }

    pub fn io(path: &str, message: &str) -> (r: Self)
        ensures
            r matches ConfigError::IoError { path: p, message: m } && p@ == path@ && m@
                == message@,
    {
        ConfigError::IoError { path: owned(path), message: owned(message) }
    }

    pub fn custom(message: &str) -> (r: Self)
        ensures
            r matches ConfigError::Custom { message: m } && m@ == message@,
    {
        ConfigError::Custom { message: owned(message) }
    }

    pub fn multiple(errors: Vec<ConfigError>) -> (r: Self)
        ensures
            r == (ConfigError::Multiple { errors }),
    {
        ConfigError::Multiple { errors }
    }
}

/// The text that describes `e`.
pub open spec fn message(e: ConfigError) -> Seq<char>
    decreases e, 0nat,
{
    match e {
        ConfigError::ParseError { line, column, message } => "Parse error at line "@ + decimal(
            line as int,
        ) + ", column "@ + decimal(column as int) + ": "@ + message@,
        ConfigError::TypeError { key, expected, found } => "Type error for '"@ + key@
            + "': expected "@ + expected@ + ", found "@ + found@,
        ConfigError::VariableNotFound { name } => "Variable '"@ + name@ + "' not found"@,
        ConfigError::CircularDependency { chain } => "Circular dependency detected: "@ + join(
            views(chain@),
            " -> "@,
        ),
        ConfigError::ExpressionError { expression, reason } => "Expression error in '"@
            + expression@ + "': "@ + reason@,
        ConfigError::InvalidColor { value, reason } => "Invalid color '"@ + value@ + "': "@
            + reason@,
        ConfigError::InvalidNumber { value, reason } => "Invalid number '"@ + value@ + "': "@
            + reason@,
        ConfigError::KeyNotFound { key } => "Configuration key '"@ + key@ + "' not found"@,
        ConfigError::CategoryNotFound { category, key } => match key {
            Some(k) => "Special category '"@ + category@ + "["@ + k@ + "]' not found"@,
            None => "Special category '"@ + category@ + "' not found"@,
        },
        ConfigError::HandlerError { handler, message } => "Handler '"@ + handler@ + "' error: "@
            + message@,
        ConfigError::IoError { path, message } => "I/O error for '"@ + path@ + "': "@ + message@,
        ConfigError::Custom { message } => message@,
        ConfigError::Multiple { errors } => "Multiple errors occurred:\n"@ + listing(errors@),
    }
}

/// One numbered line per error: `  N. message`.
pub open spec fn listing(es: Seq<ConfigError>) -> Seq<char>
    decreases es, 1nat,
{
    if es.len() == 0 {
        Seq::empty()
    } else {
        listing(es.subrange(0, es.len() - 1)) + "  "@ + decimal(es.len() as int) + ". "@ + message(
            es[es.len() - 1],
        ) + "\n"@
    }
}

fn push_text(out: &mut Vec<char>, s: &str)
    ensures
        final(out)@ == old(out)@ + s@,
{
    let mut cs = chars_of(s);
    out.append(&mut cs);
}

fn push_number(out: &mut Vec<char>, n: usize)
    ensures
        final(out)@ == old(out)@ + decimal(n as int),
{
    push_digits(out, n as u64);
}

fn push_message(e: &ConfigError, out: &mut Vec<char>)
    ensures
        final(out)@ == old(out)@ + message(*e),
    decreases e, 0nat,
{
    let ghost start = out@;
    match e {
        ConfigError::ParseError { line, column, message } => {
            push_text(out, "Parse error at line ");
            push_number(out, *line);
            push_text(out, ", column ");
            push_number(out, *column);
            push_text(out, ": ");
            push_text(out, message.as_str());
        },
        ConfigError::TypeError { key, expected, found } => {
            push_text(out, "Type error for '");
            push_text(out, key.as_str());
            push_text(out, "': expected ");
            push_text(out, expected.as_str());
            push_text(out, ", found ");
            push_text(out, found.as_str());
        },
        ConfigError::VariableNotFound { name } => {
            push_text(out, "Variable '");
            push_text(out, name.as_str());
            push_text(out, "' not found");
        },
        ConfigError::CircularDependency { chain } => {
            push_text(out, "Circular dependency detected: ");
            let joined = crate::text::join_strings(chain.as_slice(), chain.len(), " -> ");
            assert(chain@.take(chain@.len() as int) =~= chain@);
            push_text(out, joined.as_str());
        },
        ConfigError::ExpressionError { expression, reason } => {
            push_text(out, "Expression error in '");
            push_text(out, expression.as_str());
            push_text(out, "': ");
            push_text(out, reason.as_str());
        },
        ConfigError::InvalidColor { value, reason } => {
            push_text(out, "Invalid color '");
            push_text(out, value.as_str());
            push_text(out, "': ");
            push_text(out, reason.as_str());
        },
        ConfigError::InvalidNumber { value, reason } => {
            push_text(out, "Invalid number '");
            push_text(out, value.as_str());
            push_text(out, "': ");
            push_text(out, reason.as_str());
        },
        ConfigError::KeyNotFound { key } => {
            push_text(out, "Configuration key '");
            push_text(out, key.as_str());
            push_text(out, "' not found");
        },
        ConfigError::CategoryNotFound { category, key } => {
            push_text(out, "Special category '");
            push_text(out, category.as_str());
            match key {
                Some(k) => {
                    push_text(out, "[");
                    push_text(out, k.as_str());
                    push_text(out, "]' not found");
                },
                None => {
                    push_text(out, "' not found");
                },
            }
        },
        ConfigError::HandlerError { handler, message } => {
            push_text(out, "Handler '");
            push_text(out, handler.as_str());
            push_text(out, "' error: ");
            push_text(out, message.as_str());
        },
        ConfigError::IoError { path, message } => {
            push_text(out, "I/O error for '");
            push_text(out, path.as_str());
            push_text(out, "': ");
            push_text(out, message.as_str());
        },
        ConfigError::Custom { message } => {
            push_text(out, message.as_str());
        },
        ConfigError::Multiple { errors } => {
            push_text(out, "Multiple errors occurred:\n");
            proof {
                assert(decreases_to!(e => errors@));
            }
            push_listing(errors, out);
        },
    }
    assert(out@ =~= start + message(*e));
}

fn push_listing(es: &Vec<ConfigError>, out: &mut Vec<char>)
    ensures
        final(out)@ == old(out)@ + listing(es@),
    decreases es@, 1nat,
{
    let mut i: usize = 0;
    assert(es@.subrange(0, 0) =~= Seq::<ConfigError>::empty());
    assert(out@ =~= old(out)@ + listing(es@.subrange(0, 0)));
    while i < es.len()
        invariant
            0 <= i <= es@.len(),
            out@ == old(out)@ + listing(es@.subrange(0, i as int)),
        decreases es@.len() - i,
    {
        let ghost pre = out@;
        push_text(out, "  ");
        push_number(out, i + 1);
        push_text(out, ". ");
        proof {
            assert(decreases_to!(es@ => es@[i as int]));
        }
        push_message(&es[i], out);
        push_text(out, "\n");
        proof {
            let sub = es@.subrange(0, i + 1);
            assert(sub.subrange(0, sub.len() - 1) =~= es@.subrange(0, i as int));
            assert(sub[sub.len() - 1] == es@[i as int]);
            assert(out@ =~= old(out)@ + listing(sub));
        }
        i += 1;
    }
    assert(es@.subrange(0, es@.len() as int) =~= es@);
}

impl ConfigError {
    /// The text that describes the error.
    pub fn to_message(&self) -> (r: String)
        ensures
            r@ == message(*self),
    {
        let mut out: Vec<char> = Vec::new();
        push_message(self, &mut out);
        assert(out@ =~= message(*self));
        string_of(&out)
    }
}

} // verus!
