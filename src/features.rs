//! Comment directives (`if`, `endif`, `noerror`), the source-include stack, and multiline
//! values.
use vstd::prelude::*;
use crate::error::{ConfigError, ParseResult};
use crate::table::has_key;
use crate::text::{chars_of, join, join_strings, owned, push_str, str_eq, string_of, sub_chars, trim, trim_end, trimmed, trimmed_end, views};
use crate::variables::VariableManager;

verus! {

/// The state of the comment directives met so far.
pub struct DirectiveProcessor {
    if_stack: Vec<bool>,
    suppress_errors: bool,
}

impl DirectiveProcessor {
    /// The conditions of the open `if` blocks, outermost first.
    pub closed spec fn conditions(&self) -> Seq<bool> {
        self.if_stack@
    }

    /// Whether errors are being suppressed.
    pub closed spec fn suppressing(&self) -> bool {
        self.suppress_errors
    }

    pub fn new() -> (r: Self)
        ensures
            r.conditions().len() == 0,
            !r.suppressing(),
    {
        DirectiveProcessor { if_stack: Vec::new(), suppress_errors: false }
    }

    /// Applies one directive: `if NAME` opens a block that runs when variable `NAME` is
    /// defined, `endif` closes the innermost block, `noerror true|false` switches error
    /// suppression.
    pub fn process_directive(&mut self, directive_type: &str, args: Option<&str>, variables: &VariableManager) -> (r: ParseResult<()>)
        ensures
            directive_type@ == "if"@ ==> match args {
                Some(a) => r is Ok && final(self).conditions() == old(self).conditions().push(
                    has_key(variables.vars(), trim(a@)),
                ) && final(self).suppressing() == old(self).suppressing(),
                None => r matches Err(ConfigError::Custom { .. }) && *final(self) == *old(self),
            },
            directive_type@ == "endif"@ ==> if old(self).conditions().len() == 0 {
                r matches Err(ConfigError::Custom { .. }) && *final(self) == *old(self)
            } else {
                r is Ok && final(self).conditions() == old(self).conditions().drop_last()
                    && final(self).suppressing() == old(self).suppressing()
            },
            directive_type@ == "noerror"@ ==> match args {
                Some(a) => r is Ok && final(self).conditions() == old(self).conditions()
                    && final(self).suppressing() == (trim(a@) == "true"@),
                None => r matches Err(ConfigError::Custom { .. }) && *final(self) == *old(self),
            },
            directive_type@ != "if"@ && directive_type@ != "endif"@ && directive_type@ != "noerror"@
                ==> (r matches Err(ConfigError::Custom { .. }) && *final(self) == *old(self)),
    {
        proof {
            reveal_strlit("if");
            reveal_strlit("endif");
            reveal_strlit("noerror");
            assert("if"@.len() == 2);
            assert("endif"@.len() == 5);
            assert("noerror"@.len() == 7);
        }
        if str_eq(directive_type, "if") {
            match args {
                Some(a) => {
                    let name = string_of(&trimmed(&chars_of(a)));
                    let condition = variables.contains(name.as_str());
                    self.if_stack.push(condition);
                    Ok(())
                },
                None => Err(ConfigError::custom("'if' directive requires a variable name")),
            }
        } else if str_eq(directive_type, "endif") {
            if self.if_stack.len() == 0 {
                return Err(ConfigError::custom("'endif' without matching 'if'"));
            }
            self.if_stack.pop();
            Ok(())
        } else if str_eq(directive_type, "noerror") {
            match args {
                Some(a) => {
                    let value = string_of(&trimmed(&chars_of(a)));
                    self.suppress_errors = str_eq(value.as_str(), "true");
                    Ok(())
                },
                None => Err(ConfigError::custom("'noerror' directive requires a value (true/false)")),
            }
        } else {
            let mut message = owned("unknown directive: ");
            push_str(&mut message, directive_type);
            Err(ConfigError::custom(message.as_str()))
        }
    }

    /// Whether statements run here: every enclosing `if` holds.
    pub fn should_execute(&self) -> (r: bool)
        ensures
            r == forall|i: int| 0 <= i < self.conditions().len() ==> self.conditions()[i],
    {
        let mut i: usize = 0;
        while i < self.if_stack.len()
            invariant
                0 <= i <= self.if_stack@.len(),
                forall|k: int| 0 <= k < i ==> self.if_stack@[k],
            decreases self.if_stack@.len() - i,
        {
            if !self.if_stack[i] {
                assert(!self.conditions()[i as int]);
                return false;
            }
            i += 1;
        }
        true
    }

    /// Whether errors are suppressed.
    pub fn should_suppress_errors(&self) -> (r: bool)
        ensures
            r == self.suppressing(),
    {
        self.suppress_errors
    }

    /// Closes every block and stops suppressing errors.
    pub fn reset(&mut self)
        ensures
            final(self).conditions().len() == 0,
            !final(self).suppressing(),
    {
        self.if_stack = Vec::new();
        self.suppress_errors = false;
    }

    /// Whether an `if` block is still open.
    pub fn has_unclosed_blocks(&self) -> (r: bool)
        ensures
            r == (self.conditions().len() > 0),
    {
        self.if_stack.len() > 0
    }
}

/// Whether a file at `path` may start loading on top of the load stack `stack` with
/// nesting limit `max_depth`.
pub open spec fn admits(stack: Seq<Seq<char>>, max_depth: nat, path: Seq<char>) -> bool {
    stack.len() < max_depth && !stack.contains(path)
}

/// The stack of files being loaded through source directives.
pub struct SourceResolver {
    base_dir: String,
    loading_stack: Vec<String>,
    max_depth: usize,
}

impl SourceResolver {
    /// The directory that relative paths start from.
    pub closed spec fn base(&self) -> Seq<char> {
        self.base_dir@
    }

    /// The files being loaded, outermost first.
    pub closed spec fn stack(&self) -> Seq<Seq<char>> {
        views(self.loading_stack@)
    }

    /// The deepest nesting allowed.
    pub closed spec fn limit(&self) -> nat {
        self.max_depth as nat
    }

    /// A resolver for paths relative to `base_dir`, with a nesting limit of 50.
    pub fn new(base_dir: &str) -> (r: Self)
        ensures
            r.base() == base_dir@,
            r.stack().len() == 0,
            r.limit() == 50,
    {
        SourceResolver { base_dir: owned(base_dir), loading_stack: Vec::new(), max_depth: 50 }
    }

    /// The same resolver with nesting limit `max_depth`.
    pub fn with_max_depth(self, max_depth: usize) -> (r: Self)
        ensures
            r.base() == self.base(),
            r.stack() == self.stack(),
            r.limit() == max_depth,
    {
        SourceResolver { max_depth, ..self }
    }

    /// The path that `path` names: itself when absolute, else joined to the base directory.
    pub fn resolve_path(&self, path: &str) -> (r: String)
        ensures
            r@ == joined_path(self.base(), path@),
    {
        let p = chars_of(path);
        let b = chars_of(self.base_dir.as_str());
        if (p.len() > 0 && p[0] == '/') || b.len() == 0 {
            return owned(path);
        }
        let mut out = owned(self.base_dir.as_str());
        if b[b.len() - 1] != '/' {
            push_str(&mut out, "/");
        }
        push_str(&mut out, path);
        out
    }

    /// Starts loading `path`; fails when the nesting limit is reached or when `path` is
    /// already being loaded.
    pub fn begin_load(&mut self, path: &str) -> (r: ParseResult<()>)
        ensures
            r is Ok <==> admits(old(self).stack(), old(self).limit(), path@),
            r is Ok ==> final(self).stack() == old(self).stack().push(path@),
            r is Err ==> (r matches Err(ConfigError::Custom { .. }) && final(self).stack() == old(self).stack()),
            final(self).limit() == old(self).limit(),
            final(self).base() == old(self).base(),
    {
        if self.loading_stack.len() >= self.max_depth {
            return Err(ConfigError::custom("maximum source directive recursion depth exceeded"));
        }
        let mut i: usize = 0;
        while i < self.loading_stack.len()
            invariant
                0 <= i <= self.loading_stack@.len(),
                forall|k: int| 0 <= k < i ==> self.loading_stack@[k]@ != path@,
            decreases self.loading_stack@.len() - i,
        {
            if str_eq(self.loading_stack[i].as_str(), path) {
                assert(self.stack()[i as int] == path@);
                return Err(ConfigError::custom("circular source directive detected"));
            }
            i += 1;
        }
        assert(!self.stack().contains(path@)) by {
            if self.stack().contains(path@) {
                let k = choose|k: int| 0 <= k < self.stack().len() && self.stack()[k] == path@;
                assert(self.loading_stack@[k]@ == path@);
            }
        }
        let ghost pre = self.loading_stack@;
        self.loading_stack.push(owned(path));
        assert(views(self.loading_stack@) =~= views(pre).push(path@));
        Ok(())
    }

    /// Finishes loading the innermost file.
    pub fn end_load(&mut self)
        ensures
            final(self).stack() == if old(self).stack().len() > 0 {
                old(self).stack().drop_last()
            } else {
                old(self).stack()
            },
            final(self).limit() == old(self).limit(),
            final(self).base() == old(self).base(),
    {
        let ghost pre = self.loading_stack@;
        let _ = self.loading_stack.pop();
        assert(views(self.loading_stack@) =~= if pre.len() > 0 { views(pre).drop_last() } else { views(pre) });
    }

    /// The number of files being loaded.
    pub fn depth(&self) -> (r: usize)
        ensures
            r == self.stack().len(),
    {
        self.loading_stack.len()
    }

    /// Forgets every file being loaded.
    pub fn reset(&mut self)
        ensures
            final(self).stack().len() == 0,
            final(self).limit() == old(self).limit(),
            final(self).base() == old(self).base(),
    {
        self.loading_stack = Vec::new();
    }
}

/// `path` itself when absolute or when there is no base, else `base` and `path` joined by one
/// `/`.
pub open spec fn joined_path(base: Seq<char>, path: Seq<char>) -> Seq<char> {
    if (path.len() > 0 && path[0] == '/') || base.len() == 0 {
        path
    } else if base.last() == '/' {
        base + path
    } else {
        base + "/"@ + path
    }
}

/// A file that is being loaded can never start loading again before it ends: a source
/// directive that includes itself, directly or through other files, fails.
pub proof fn law_self_include_refused(stack: Seq<Seq<char>>, max_depth: nat, outer: Seq<Seq<char>>, path: Seq<char>)
    ensures
        !admits(stack.push(path) + outer, max_depth, path),
{
    assert((stack.push(path) + outer)[stack.len() as int] == path);
}

/// Multiline values: lines continued by a trailing backslash.
pub struct MultilineProcessor;

impl MultilineProcessor {
    /// The lines joined by single spaces.
    pub fn join_lines(lines: &[String]) -> (r: String)
        ensures
            r@ == join(views(lines@), " "@),
    {
        let r = join_strings(lines, lines.len(), " ");
        assert(lines@.take(lines@.len() as int) =~= lines@);
        r
    }

    /// Whether `line` ends with a backslash, trailing whitespace aside.
    pub fn is_continuation(line: &str) -> (r: bool)
        ensures
            r == (trim_end(line@).len() > 0 && trim_end(line@).last() == '\\'),
    {
        let t = trimmed_end(&chars_of(line));
        t.len() > 0 && t[t.len() - 1] == '\\'
    }

    /// `line` without its trailing backslash (and the whitespace after it); a line that does
    /// not continue is returned as it is.
    pub fn remove_backslash(line: &str) -> (r: String)
        ensures
            r@ == if trim_end(line@).len() > 0 && trim_end(line@).last() == '\\' {
                trim_end(line@).drop_last()
            } else {
                line@
            },
    {
        let t = trimmed_end(&chars_of(line));
        if t.len() > 0 && t[t.len() - 1] == '\\' {
            let r = string_of(&sub_chars(&t, 0, t.len() - 1));
            assert(t@.subrange(0, t@.len() - 1) =~= t@.drop_last());
            r
        } else {
            owned(line)
        }
    }
}

} // verus!
