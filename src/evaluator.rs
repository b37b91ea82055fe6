//! The statement evaluator: walks a statement tree, keeps the current category path, and
//! routes each statement to the variables, the value store, the handlers or the special
//! categories.
use vstd::prelude::*;
use crate::calls::{handler_call_spec, is_handler_call, process_handler_call, HandlerCalls};
use crate::document::qualify;
use crate::error::{ConfigError, ParseResult};
use crate::evaluation::{define_variable, resolution, resolve_value, Resolution};
use crate::expressions::ExpressionEvaluator;
use crate::features::{DirectiveProcessor, SourceResolver};
use crate::handlers::HandlerManager;
use crate::special_categories::{SpecialCategoryDescriptor, SpecialCategoryManager};
use crate::handlers::Handler;
use crate::table::{find_index, keys_unique, lookup, lemma_lookup_at};
use crate::text::{chars_of, join, join_strings, owned, push_str, views};
use crate::document::qualified;
use crate::escaping::escaped;
use crate::features::{admits, joined_path};
use crate::special_categories::SpecialCategoryType;
use crate::table::views_of;
use crate::variables::expansion;
use crate::multi_file::{edited, MultiFileDocument};
use crate::variables::VariableManager;

verus! {

/// One statement of a configuration, as the surface syntax gives it; values are raw text.
#[derive(Debug)]
pub enum Statement {
    /// `$NAME = value`.
    VariableDef { name: String, value: String },
    /// `key[:subkey...] = value`.
    Assignment { key: Vec<String>, value: String },
    /// `name { ... }`.
    CategoryBlock { name: String, statements: Vec<Statement> },
    /// `name[key] { ... }`.
    SpecialCategoryBlock { name: String, key: Option<String>, statements: Vec<Statement> },
    /// `keyword [flags] = value`.
    HandlerCall { keyword: String, flags: Option<String>, value: String },
    /// `source = path`.
    Source { path: String },
    /// `# hyprlang <directive> [args]`.
    CommentDirective { directive_type: String, args: Option<String> },
}

/// Reads the statements of a file that a source directive names.
pub trait SourceLoader {
    fn load(&self, path: &str) -> ParseResult<Vec<Statement>>;
}

/// How an evaluation behaves.
#[derive(Debug, Clone)]
pub struct ConfigOptions {
    /// Collect every statement error and report them together instead of stopping at the
    /// first.
    pub throw_all_errors: bool,
    /// Whether more lines may be evaluated after the first evaluation.
    pub allow_dynamic_parsing: bool,
    /// The directory that relative source paths start from; without one they are taken as
    /// written.
    pub base_dir: Option<String>,
}

impl Default for ConfigOptions {
    fn default() -> (r: Self)
        ensures
            !r.throw_all_errors,
            r.allow_dynamic_parsing,
            r.base_dir is None,
    {
        ConfigOptions { throw_all_errors: false, allow_dynamic_parsing: true, base_dir: None }
    }
}

/// The state of an evaluation.
pub struct Evaluator {
    variables: VariableManager,
    expressions: ExpressionEvaluator,
    handlers: HandlerManager,
    calls: HandlerCalls,
    special: SpecialCategoryManager<String>,
    directives: DirectiveProcessor,
    sources: SourceResolver,
    values: Vec<(String, String)>,
    current_path: Vec<String>,
    errors: Vec<ConfigError>,
    throw_all_errors: bool,
}

/// Every special-category instance of `before` still exists in `after`.
pub open spec fn instances_kept(before: Evaluator, after: Evaluator) -> bool {
    forall|n: Seq<char>, k: Seq<char>|
        #[trigger] before.categories().instance(n, k) is Some ==> after.categories().instance(n, k) is Some
}

/// The state facts every evaluation step keeps.
pub open spec fn kept(before: Evaluator, after: Evaluator) -> bool {
    &&& after.wf()
    &&& after.path() == before.path()
    &&& after.loading() == before.loading()
    &&& after.depth_limit() == before.depth_limit()
    &&& after.collecting() == before.collecting()
    &&& after.base() == before.base()
    &&& instances_kept(before, after)
}

/// The effect of a handler call `keyword = value` (value not yet expanded) inside the
/// category path of `before`.
pub open spec fn call_effect(before: Evaluator, after: Evaluator, keyword: Seq<char>, value: Seq<char>, r: ParseResult<()>) -> bool {
    let path = views(before.path());
    match expansion(before.variable_table().vars(), before.variable_table().env(), value, Seq::empty()) {
        Err(chain) => r matches Err(ConfigError::CircularDependency { chain: c }) && views_of(c@) == chain,
        Ok(x) => {
            let k = qualified(path, keyword);
            let applies = before.handler_registry().resolve(path, keyword) is Some;
            &&& (applies || path.len() == 0) ==> after.call_log().calls_of(k) == before.call_log().calls_of(k).push(x)
            &&& !(applies || path.len() == 0) ==> after.call_log().calls_of(k) == before.call_log().calls_of(k)
            &&& !applies ==> r is Ok
        },
    }
}

/// What evaluating `st` does to `before`, giving `after` and the result `r`.
pub open spec fn step(before: Evaluator, after: Evaluator, st: Statement, r: ParseResult<()>) -> bool {
    &&& kept(before, after)
    &&& !before.executing() && !(st is CommentDirective) ==> r is Ok && after == before
    &&& before.executing() ==> match st {
        Statement::VariableDef { name, value } => match expansion(
            before.variable_table().vars(),
            before.variable_table().env(),
            escaped(value@),
            Seq::empty(),
        ) {
            Err(chain) => r matches Err(ConfigError::CircularDependency { chain: c }) && views_of(c@) == chain,
            Ok(x) => {
                &&& r is Ok
                &&& after.variable_table().value_of(name@) == Some(x)
                &&& forall|k: Seq<char>| k != name@ ==> after.variable_table().value_of(k) == before.variable_table().value_of(k)
                &&& forall|k: Seq<char>| k != name@ ==> lookup(after.int_table(), k) == lookup(before.int_table(), k)
                &&& (crate::evaluation::parsed_int(x) matches Some(i) ==> lookup(after.int_table(), name@) == Some(i))
                &&& forall|k: Seq<char>| after.value_of(k) == before.value_of(k)
            },
        },
        Statement::Assignment { key, value } => if handler_call_spec(
            before.handler_registry(),
            views(before.path()),
            views(key@),
        ) {
            call_effect(before, after, key@[0]@, value@, r)
        } else {
            match before.resolves(value@) {
                Resolution::Text(t) => {
                    &&& r is Ok
                    &&& after.value_of(qualified(views(before.path()), join(views(key@), ":"@))) == Some(t)
                    &&& forall|k: Seq<char>|
                        k != qualified(views(before.path()), join(views(key@), ":"@)) ==> after.value_of(k) == before.value_of(k)
                    &&& after.variable_table() == before.variable_table()
                    &&& after.int_table() == before.int_table()
                },
                _ => r is Err,
            }
        },
        Statement::HandlerCall { keyword, value, .. } => call_effect(before, after, keyword@, value@, r),
        Statement::SpecialCategoryBlock { name, key, .. } => {
            &&& (before.categories().descriptor(name@) is None && key is Some) ==> (r matches Err(
                ConfigError::CategoryNotFound { category: c, key: None },
            ) && c@ == name@)
            &&& (before.categories().descriptor(name@) matches Some(d) && d.category_type == SpecialCategoryType::Keyed
                && key is Some) ==> after.categories().instance(name@, key->0@) is Some && copied_into(
                after,
                name@,
                key->0@,
                instance_prefix(views(before.path()), name@, key->0@),
            )
            &&& (before.categories().descriptor(name@) matches Some(d) && d.category_type == SpecialCategoryType::Static
                && key is None) ==> after.categories().instance(name@, "static"@) is Some && copied_into(
                after,
                name@,
                "static"@,
                instance_prefix(views(before.path()), name@, "static"@),
            )
        },
        Statement::Source { path } => match expansion(
            before.variable_table().vars(),
            before.variable_table().env(),
            path@,
            Seq::empty(),
        ) {
            Ok(x) => !admits(before.loading(), before.depth_limit(), joined_path(before.base(), x)) ==> (r matches Err(
                ConfigError::Custom { .. },
            )),
            Err(_) => r is Err,
        },
        _ => true,
    }
}

/// `next` is `mid` after the result `res` of a statement was dealt with: in collect mode an
/// error is added to the collected errors, otherwise nothing changes.
pub open spec fn settled(mid: Evaluator, next: Evaluator, res: ParseResult<()>) -> bool {
    if mid.collecting() {
        match res {
            Err(e) => next.same_except_errors(mid) && next.collected() == mid.collected().push(e),
            Ok(_) => next == mid,
        }
    } else {
        next == mid
    }
}

/// `states` are the states before and after each of the first `results.len()` statements
/// of `statements`, each statement evaluated by `step` with its result in `results`.
pub open spec fn replay(states: Seq<Evaluator>, results: Seq<ParseResult<()>>, statements: Seq<Statement>) -> bool {
    &&& states.len() == results.len() + 1
    &&& results.len() <= statements.len()
    &&& forall|j: int| 0 <= j < results.len() ==> #[trigger] replayed_at(states, results, statements, j)
}

/// Statement `j` takes `states[j]` to `states[j + 1]` with result `results[j]`.
pub open spec fn replayed_at(states: Seq<Evaluator>, results: Seq<ParseResult<()>>, statements: Seq<Statement>, j: int) -> bool {
    exists|m: Evaluator| step(states[j], m, statements[j], results[j]) && #[trigger] settled(m, states[j + 1], results[j])
}

/// The outcome of evaluating `statements` one after another from `start`: the run `states`,
/// `results` replays them, ends in `end`, and returns `r`. Without error collection it stops
/// at the first error, which it returns; with collection every statement runs.
pub open spec fn evaluated(
    start: Evaluator,
    end: Evaluator,
    statements: Seq<Statement>,
    states: Seq<Evaluator>,
    results: Seq<ParseResult<()>>,
    r: ParseResult<()>,
) -> bool {
    &&& replay(states, results, statements)
    &&& states[0] == start
    &&& states.last() == end
    &&& r is Ok ==> results.len() == statements.len() && (start.collecting() || forall|j: int|
        0 <= j < results.len() ==> #[trigger] results[j] is Ok)
    &&& r is Err ==> !start.collecting() && results.len() > 0 && results.last() == r && forall|j: int|
        0 <= j < results.len() - 1 ==> #[trigger] results[j] is Ok
    &&& start.collecting() ==> r is Ok
}

impl Evaluator {
    pub closed spec fn wf(&self) -> bool {
        &&& self.variables.wf()
        &&& self.expressions.wf()
        &&& self.handlers.wf()
        &&& self.calls.wf()
        &&& self.special.wf()
        &&& keys_unique(self.values@)
    }

    /// The category path being evaluated.
    pub closed spec fn path(&self) -> Seq<String> {
        self.current_path@
    }

    /// The files being loaded.
    pub closed spec fn loading(&self) -> Seq<Seq<char>> {
        self.sources.stack()
    }

    /// The deepest nesting of source files.
    pub closed spec fn depth_limit(&self) -> nat {
        self.sources.limit()
    }

    /// The resolved text stored under `key`.
    pub closed spec fn value_of(&self, key: Seq<char>) -> Option<Seq<char>> {
        match lookup(self.values@, key) {
            Some(v) => Some(v@),
            None => None,
        }
    }

    /// Whether statements run: every enclosing `if` directive holds.
    pub closed spec fn executing(&self) -> bool {
        forall|i: int| 0 <= i < self.directives.conditions().len() ==> self.directives.conditions()[i]
    }

    /// The handler registry.
    pub closed spec fn handler_registry(&self) -> HandlerManager {
        self.handlers
    }

    /// Whether statement errors are collected instead of stopping evaluation.
    pub closed spec fn collecting(&self) -> bool {
        self.throw_all_errors
    }

    /// The directory that relative source paths start from.
    pub closed spec fn base(&self) -> Seq<char> {
        self.sources.base()
    }

    /// `self` and `other` agree on everything but the collected errors.
    pub closed spec fn same_except_errors(&self, other: Evaluator) -> bool {
        &&& self.variables == other.variables
        &&& self.expressions == other.expressions
        &&& self.handlers == other.handlers
        &&& self.calls == other.calls
        &&& self.special == other.special
        &&& self.directives == other.directives
        &&& self.sources == other.sources
        &&& self.values == other.values
        &&& self.current_path == other.current_path
        &&& self.throw_all_errors == other.throw_all_errors
    }

    /// The integer variables of the expressions.
    pub closed spec fn int_table(&self) -> Seq<(String, i64)> {
        self.expressions.vars()
    }

    /// The variable table.
    pub closed spec fn variable_table(&self) -> VariableManager {
        self.variables
    }

    /// The recorded handler calls.
    pub closed spec fn call_log(&self) -> HandlerCalls {
        self.calls
    }

    /// The special categories and their instances.
    pub closed spec fn categories(&self) -> SpecialCategoryManager<String> {
        self.special
    }

    /// What the raw text `raw` resolves to in the current state.
    pub closed spec fn resolves(&self, raw: Seq<char>) -> Resolution {
        resolution(self.variables.vars(), self.variables.env(), self.expressions.vars(), raw)
    }

    /// The keys of the stored values, in order of first assignment.
    pub closed spec fn stored_keys(&self) -> Seq<Seq<char>> {
        crate::table::key_seq(self.values@)
    }

    /// The errors collected so far.
    pub closed spec fn collected(&self) -> Seq<ConfigError> {
        self.errors@
    }

    /// An evaluator with no state; relative source paths start at `base_dir`; with
    /// `throw_all_errors` statement errors are collected instead of stopping evaluation.
    pub fn new(base_dir: &str, throw_all_errors: bool) -> (r: Self)
        ensures
            r.wf(),
            r.path().len() == 0,
            r.loading().len() == 0,
            r.collected().len() == 0,
            forall|k: Seq<char>| r.value_of(k) is None,
    {
        Evaluator {
            variables: VariableManager::new(),
            expressions: ExpressionEvaluator::new(),
            handlers: HandlerManager::new(),
            calls: HandlerCalls::new(),
            special: SpecialCategoryManager::new(),
            directives: DirectiveProcessor::new(),
            sources: SourceResolver::new(base_dir),
            values: Vec::new(),
            current_path: Vec::new(),
            errors: Vec::new(),
            throw_all_errors,
        }
    }

    /// An evaluator set up by `options`.
    pub fn with_options(options: &ConfigOptions) -> (r: Self)
        ensures
            r.wf(),
            r.path().len() == 0,
            r.loading().len() == 0,
            r.collected().len() == 0,
            forall|k: Seq<char>| r.value_of(k) is None,
    {
        match &options.base_dir {
            Some(dir) => Evaluator::new(dir.as_str(), options.throw_all_errors),
            None => Evaluator::new("", options.throw_all_errors),
        }
    }

    /// Evaluates `statements` at the top level, in order. Without error collection the first
    /// error stops evaluation and is returned; with it every error is kept and reported
    /// together at the end.
    pub fn run<L: SourceLoader>(&mut self, statements: &Vec<Statement>, loader: &L) -> (r: ParseResult<()>)
        requires
            old(self).wf(),
            old(self).loading().len() < old(self).depth_limit(),
        ensures
            final(self).wf(),
            final(self).path() == old(self).path(),
            final(self).loading() == old(self).loading(),
            exists|t: Seq<Evaluator>, rs: Seq<ParseResult<()>>, inner: ParseResult<()>|
                #[trigger] evaluated(*old(self), t.last(), statements@, t, rs, inner) && if old(self).collecting() {
                    &&& t.last().collected().len() == 0 ==> r is Ok && *final(self) == t.last()
                    &&& t.last().collected().len() > 0 ==> (r matches Err(ConfigError::Multiple { errors })
                        && errors@ == t.last().collected()) && final(self).collected().len() == 0
                        && final(self).same_except_errors(t.last())
                } else {
                    *final(self) == t.last() && (r is Ok <==> inner is Ok) && (inner is Err ==> r == inner)
                },
    {
        let inner = self.process_all(statements, loader);
        let ghost gin = inner;
        let ghost pa = *self;
        let ghost (t, rs) = choose|t: Seq<Evaluator>, rs: Seq<ParseResult<()>>| #[trigger] evaluated(*old(self), pa, statements@, t, rs, gin);
        let ok = inner.is_ok();
        match inner {
            Err(e) => return Err(e),
            Ok(()) => {},
        }
        assert(ok && gin is Ok);
        if self.throw_all_errors && self.errors.len() > 0 {
            let mut taken: Vec<ConfigError> = Vec::new();
            std::mem::swap(&mut taken, &mut self.errors);
            proof {
                assert(self.same_except_errors(pa));
                assert(taken@ == pa.collected());
            }
            return Err(ConfigError::multiple(taken));
        }
        proof {
            assert(t.last() == pa);
            assert(evaluated(*old(self), t.last(), statements@, t, rs, gin));
            assert(old(self).collecting() ==> pa.collected().len() == 0);
            assert(*self == pa);
            assert(old(self).collecting() == pa.collecting());
        }
        Ok(())
    }

    fn process_all<L: SourceLoader>(&mut self, statements: &Vec<Statement>, loader: &L) -> (r: ParseResult<()>)
        requires
            old(self).wf(),
            old(self).loading().len() <= old(self).depth_limit(),
        ensures
            final(self).wf(),
            final(self).path() == old(self).path(),
            final(self).loading() == old(self).loading(),
            final(self).depth_limit() == old(self).depth_limit(),
            kept(*old(self), *final(self)),
            exists|t: Seq<Evaluator>, rs: Seq<ParseResult<()>>|
                #[trigger] evaluated(*old(self), *final(self), statements@, t, rs, r),
        decreases old(self).depth_limit() - old(self).loading().len(), statements@, 1nat,
    {
        let mut i: usize = 0;
        let ghost mut t: Seq<Evaluator> = seq![*self];
        let ghost mut rs: Seq<ParseResult<()>> = Seq::empty();
        while i < statements.len()
            invariant
                self.wf(),
                self.path() == old(self).path(),
                self.loading() == old(self).loading(),
                self.depth_limit() == old(self).depth_limit(),
                self.loading().len() <= self.depth_limit(),
                kept(*old(self), *self),
                0 <= i <= statements@.len(),
                replay(t, rs, statements@),
                rs.len() == i,
                t[0] == *old(self),
                t.last() == *self,
                !old(self).collecting() ==> forall|j: int| 0 <= j < rs.len() ==> #[trigger] rs[j] is Ok,
            decreases statements@.len() - i,
        {
            proof {
                assert(decreases_to!(statements@ => statements@[i as int]));
            }
            let ghost before = *self;
            let res = self.process_statement(&statements[i], loader);
            let ghost mid = *self;
            let ghost gres = res;
            match res {
                Ok(()) => {},
                Err(e) => {
                    if self.throw_all_errors {
                        self.errors.push(e);
                        proof {
                            assert(self.same_except_errors(mid));
                            assert(self.collected() == mid.collected().push(e));
                        }
                    } else {
                        proof {
                            let t2 = t.push(*self);
                            let rs2 = rs.push(gres);
                            assert(settled(mid, t2[i + 1], rs2[i as int]));
                            assert forall|j: int| 0 <= j < rs2.len() implies #[trigger] replayed_at(t2, rs2, statements@, j) by {
                                if j < i {
                                    assert(t2[j] == t[j] && t2[j + 1] == t[j + 1] && rs2[j] == rs[j]);
                                    assert(replayed_at(t, rs, statements@, j));
                                } else {
                                    assert(step(t2[j], mid, statements@[j], rs2[j]));
                                }
                            }
                            assert(replay(t2, rs2, statements@));
                            assert(evaluated(*old(self), *self, statements@, t2, rs2, Err(e)));
                        }
                        return Err(e);
                    }
                },
            }
            proof {
                let t2 = t.push(*self);
                let rs2 = rs.push(gres);
                assert(settled(mid, t2[i + 1], rs2[i as int]));
                assert forall|j: int| 0 <= j < rs2.len() implies #[trigger] replayed_at(t2, rs2, statements@, j) by {
                    if j < i {
                        assert(t2[j] == t[j] && t2[j + 1] == t[j + 1] && rs2[j] == rs[j]);
                        assert(replayed_at(t, rs, statements@, j));
                    } else {
                        assert(step(t2[j], mid, statements@[j], rs2[j]));
                    }
                }
                t = t2;
                rs = rs2;
            }
            i += 1;
        }
        proof {
            assert(evaluated(*old(self), *self, statements@, t, rs, Ok(())));
        }
        Ok(())
    }

    /// Evaluates one statement. While an `if` directive does not hold, only directives are
    /// evaluated. An assignment that is not a handler call stores the resolved text of its
    /// value under its key qualified by the category path.
    pub fn process_statement<L: SourceLoader>(&mut self, statement: &Statement, loader: &L) -> (r: ParseResult<()>)
        requires
            old(self).wf(),
            old(self).loading().len() <= old(self).depth_limit(),
        ensures
            step(*old(self), *final(self), *statement, r),
        decreases old(self).depth_limit() - old(self).loading().len(), statement, 0nat,
    {
        if !self.directives.should_execute() {
            return match statement {
                Statement::CommentDirective { directive_type, args } => {
                    let a: Option<&str> = match args {
                        Some(s) => Some(s.as_str()),
                        None => None,
                    };
                    self.directives.process_directive(directive_type.as_str(), a, &self.variables)
                },
                _ => Ok(()),
            };
        }
        match statement {
            Statement::VariableDef { name, value } => {
                define_variable(&mut self.variables, &mut self.expressions, name.as_str(), value.as_str())
            },
            Statement::Assignment { key, value } => {
                if is_handler_call(&self.handlers, self.current_path.as_slice(), key.as_slice()) {
                    let expanded = match self.variables.expand(value.as_str()) {
                        Ok(x) => x,
                        Err(e) => return Err(e),
                    };
                    process_handler_call(
                        &self.handlers,
                        &mut self.calls,
                        self.current_path.as_slice(),
                        key[0].as_str(),
                        expanded.as_str(),
                        None,
                    )
                } else {
                    self.assign(key, value)
                }
            },
            Statement::CategoryBlock { name, statements } => {
                proof {
                    assert(decreases_to!(statement => statements@));
                }
                self.in_block(name.clone(), statements, loader)
            },
            Statement::SpecialCategoryBlock { name, key, statements } => {
                proof {
                    assert(decreases_to!(statement => statements@));
                }
                if !self.special.is_registered(name.as_str()) {
                    if key.is_none() {
                        return self.in_block(name.clone(), statements, loader);
                    }
                    return Err(ConfigError::category_not_found(name.as_str(), None));
                }
                let given: Option<String> = match key {
                    Some(k) => Some(k.clone()),
                    None => None,
                };
                let instance_key = match self.special.create_instance(name.as_str(), given) {
                    Ok(k) => k,
                    Err(e) => return Err(e),
                };
                let mut segment = name.clone();
                push_str(&mut segment, "[");
                push_str(&mut segment, instance_key.as_str());
                push_str(&mut segment, "]");
                let result = self.in_block(segment, statements, loader);
                self.copy_into_instance(name.as_str(), instance_key.as_str(), key_prefix_after(&self.current_path, name.as_str(), instance_key.as_str()).as_str());
                result
            },
            Statement::HandlerCall { keyword, flags, value } => {
                let expanded = match self.variables.expand(value.as_str()) {
                    Ok(x) => x,
                    Err(e) => return Err(e),
                };
                let f: Option<String> = match flags {
                    Some(s) => Some(s.clone()),
                    None => None,
                };
                process_handler_call(
                    &self.handlers,
                    &mut self.calls,
                    self.current_path.as_slice(),
                    keyword.as_str(),
                    expanded.as_str(),
                    f,
                )
            },
            Statement::Source { path } => {
                let expanded = match self.variables.expand(path.as_str()) {
                    Ok(x) => x,
                    Err(e) => return Err(e),
                };
                let resolved = self.sources.resolve_path(expanded.as_str());
                let ghost stack0 = self.loading();
                match self.sources.begin_load(resolved.as_str()) {
                    Ok(()) => {},
                    Err(e) => return Err(e),
                }
                let ghost stack1 = self.loading();
                let result = match loader.load(resolved.as_str()) {
                    Ok(statements) => self.process_all(&statements, loader),
                    Err(e) => Err(e),
                };
                self.sources.end_load();
                proof {
                    assert(stack1 == stack0.push(resolved@));
                    assert(stack1.drop_last() =~= stack0);
                }
                result
            },
            Statement::CommentDirective { directive_type, args } => {
                let a: Option<&str> = match args {
                    Some(s) => Some(s.as_str()),
                    None => None,
                };
                self.directives.process_directive(directive_type.as_str(), a, &self.variables)
            },
        }
    }

    /// Registers `handler` for `keyword` everywhere.
    pub fn register_handler<H: Handler + 'static>(&mut self, keyword: &str, handler: H)
        requires
            old(self).wf(),
        ensures
            final(self).wf(),
            final(self).path() == old(self).path(),
            final(self).loading() == old(self).loading(),
            final(self).depth_limit() == old(self).depth_limit(),
            kept(*old(self), *final(self)),
            crate::table::has_key(final(self).handler_registry().globals(), keyword@),
    {
        self.handlers.register_global(keyword, handler);
    }

    /// Registers `handler` for `keyword` within the joined category path `category`.
    pub fn register_category_handler<H: Handler + 'static>(&mut self, category: &str, keyword: &str, handler: H)
        requires
            old(self).wf(),
        ensures
            final(self).wf(),
            final(self).path() == old(self).path(),
            final(self).loading() == old(self).loading(),
            final(self).depth_limit() == old(self).depth_limit(),
            kept(*old(self), *final(self)),
            final(self).handler_registry().scoped(category@, keyword@) is Some,
    {
        self.handlers.register_category(category, keyword, handler);
    }

    /// Registers a special category.
    pub fn register_special_category(&mut self, descriptor: SpecialCategoryDescriptor<String>)
        requires
            old(self).wf(),
            keys_unique(descriptor.default_values@),
        ensures
            final(self).wf(),
            final(self).path() == old(self).path(),
            final(self).loading() == old(self).loading(),
            final(self).depth_limit() == old(self).depth_limit(),
            kept(*old(self), *final(self)),
            final(self).categories().descriptor(descriptor.name@) == Some(descriptor),
            forall|n: Seq<char>|
                n != descriptor.name@ ==> final(self).categories().descriptor(n) == old(self).categories().descriptor(n),
            forall|n: Seq<char>, k: Seq<char>|
                final(self).categories().instance(n, k) == old(self).categories().instance(n, k),
            forall|n: Seq<char>| final(self).categories().counter(n) == old(self).categories().counter(n),
    {
        self.special.register(descriptor);
    }

    /// The resolved text stored under `key`.
    pub fn get(&self, key: &str) -> (r: Option<&String>)
        requires
            self.wf(),
        ensures
            match self.value_of(key@) {
                Some(v) => r matches Some(s) && s@ == v,
                None => r is None,
            },
    {
        match find_index(&self.values, key) {
            Some(i) => {
                proof {
                    lemma_lookup_at(self.values@, i as int);
                }
                Some(&self.values[i].1)
            },
            None => None,
        }
    }

    /// The value of variable `name`.
    pub fn get_variable(&self, name: &str) -> (r: Option<&str>)
        requires
            self.wf(),
        ensures
            match self.variable_table().value_of(name@) {
                Some(v) => r matches Some(s) && s@ == v,
                None => r is None,
            },
    {
        self.variables.get(name)
    }

    /// The recorded calls of handler key `key`.
    pub fn get_handler_calls(&self, key: &str) -> (r: Option<&Vec<String>>)
        requires
            self.wf(),
        ensures
            r is Some <==> self.call_log().has(key@),
            r matches Some(v) ==> crate::table::views_of(v@) == self.call_log().calls_of(key@),
    {
        self.calls.get_handler_calls(key)
    }

    /// The keys of the instances of special category `name`.
    pub fn list_special_category_keys(&self, name: &str) -> (r: Vec<String>)
        requires
            self.wf(),
        ensures
            crate::table::views_of(r@) == self.categories().instance_keys(name@),
    {
        self.special.list_keys(name)
    }

    /// Property `property` of instance `key` of special category `name`.
    pub fn get_special_category_value(&self, name: &str, key: &str, property: &str) -> (r: Option<&String>)
        requires
            self.wf(),
        ensures
            match self.categories().instance(name@, key@) {
                Some(inst) => match lookup(inst.values@, property@) {
                    Some(v) => r == Some(&v),
                    None => r is None,
                },
                None => r is None,
            },
    {
        match self.special.get_instance(name, key) {
            Ok(inst) => inst.get(property),
            Err(_) => None,
        }
    }

    /// The errors collected so far, oldest first.
    pub fn errors(&self) -> (r: &Vec<ConfigError>)
        ensures
            r@ == self.collected(),
    {
        &self.errors
    }

    /// Stores `text` under `key`.
    pub fn set_value(&mut self, key: &str, text: String)
        requires
            old(self).wf(),
        ensures
            final(self).wf(),
            final(self).value_of(key@) == Some(text@),
            forall|k: Seq<char>| k != key@ ==> final(self).value_of(k) == old(self).value_of(k),
            final(self).path() == old(self).path(),
            final(self).loading() == old(self).loading(),
            final(self).depth_limit() == old(self).depth_limit(),
            kept(*old(self), *final(self)),
    {
        crate::table::insert(&mut self.values, key, text);
    }

    /// Removes the value stored under `key` and returns it; fails when there is none.
    pub fn remove(&mut self, key: &str) -> (r: ParseResult<String>)
        requires
            old(self).wf(),
        ensures
            final(self).wf(),
            match old(self).value_of(key@) {
                Some(v) => r matches Ok(s) && s@ == v,
                None => r matches Err(ConfigError::KeyNotFound { key: k }) && k@ == key@,
            },
            final(self).value_of(key@) is None,
            forall|k: Seq<char>| k != key@ ==> final(self).value_of(k) == old(self).value_of(k),
            final(self).path() == old(self).path(),
            final(self).loading() == old(self).loading(),
            final(self).depth_limit() == old(self).depth_limit(),
            kept(*old(self), *final(self)),
    {
        match crate::table::remove(&mut self.values, key) {
            Some(v) => Ok(v),
            None => Err(ConfigError::key_not_found(key)),
        }
    }

    /// Sets variable `name` to `value` as written; a value that reads as an integer also
    /// becomes an integer variable of the expressions.
    pub fn set_variable(&mut self, name: String, value: String)
        requires
            old(self).wf(),
        ensures
            final(self).wf(),
            final(self).variable_table().value_of(name@) == Some(value@),
            forall|k: Seq<char>|
                k != name@ ==> final(self).variable_table().value_of(k) == old(self).variable_table().value_of(k),
            match crate::evaluation::parsed_int(value@) {
                Some(i) => lookup(final(self).int_table(), name@) == Some(i),
                None => final(self).int_table() == old(self).int_table(),
            },
            forall|k: Seq<char>| k != name@ ==> lookup(final(self).int_table(), k) == lookup(old(self).int_table(), k),
            final(self).path() == old(self).path(),
            final(self).loading() == old(self).loading(),
            final(self).depth_limit() == old(self).depth_limit(),
            kept(*old(self), *final(self)),
    {
        let number = crate::evaluation::parse_int(value.as_str());
        let copy = name.clone();
        self.variables.set(name, value);
        match number {
            Ok(i) => self.expressions.set_variable(copy, i),
            Err(_) => {},
        }
    }

    /// Removes variable `name` and returns its value.
    pub fn remove_variable(&mut self, name: &str) -> (r: Option<String>)
        requires
            old(self).wf(),
        ensures
            final(self).wf(),
            match old(self).variable_table().value_of(name@) {
                Some(v) => r matches Some(s) && s@ == v,
                None => r is None,
            },
            final(self).variable_table().value_of(name@) is None,
            final(self).path() == old(self).path(),
            final(self).loading() == old(self).loading(),
            final(self).depth_limit() == old(self).depth_limit(),
            kept(*old(self), *final(self)),
    {
        self.variables.remove(name)
    }

    /// Removes the call at `index` of handler key `key` and returns its value.
    pub fn remove_handler_call(&mut self, key: &str, index: usize) -> (r: ParseResult<String>)
        requires
            old(self).wf(),
        ensures
            final(self).wf(),
            old(self).call_log().has(key@) && index < old(self).call_log().calls_of(key@).len() ==> (r matches Ok(v)
                && v@ == old(self).call_log().calls_of(key@)[index as int] && final(self).call_log().calls_of(key@)
                == old(self).call_log().calls_of(key@).remove(index as int)),
            !(old(self).call_log().has(key@) && index < old(self).call_log().calls_of(key@).len()) ==> r is Err,
            final(self).path() == old(self).path(),
            final(self).loading() == old(self).loading(),
            final(self).depth_limit() == old(self).depth_limit(),
            kept(*old(self), *final(self)),
    {
        self.calls.remove_handler_call(key, index)
    }

    /// Removes every call of handler key `key` and returns them.
    pub fn remove_handler_calls(&mut self, key: &str) -> (r: Option<Vec<String>>)
        requires
            old(self).wf(),
        ensures
            final(self).wf(),
            r is Some <==> old(self).call_log().has(key@),
            !final(self).call_log().has(key@),
            final(self).path() == old(self).path(),
            final(self).loading() == old(self).loading(),
            final(self).depth_limit() == old(self).depth_limit(),
            kept(*old(self), *final(self)),
    {
        self.calls.remove_handler_calls(key)
    }

    /// The keys of the stored values, in order of first assignment.
    pub fn keys(&self) -> (r: Vec<String>)
        ensures
            crate::table::views_of(r@) == self.stored_keys(),
    {
        crate::table::keys_of(&self.values)
    }

    /// Stores `text` under `key` and writes the same assignment into the document of the file
    /// that owns `key`, which is marked changed.
    pub fn set_value_in_files(&mut self, files: &mut MultiFileDocument, key: &str, text: &str) -> (r: ParseResult<()>)
        requires
            old(self).wf(),
            old(files).wf(),
        ensures
            final(self).wf(),
            final(files).wf(),
            kept(*old(self), *final(self)),
            final(self).value_of(key@) == Some(text@),
            forall|k: Seq<char>| k != key@ ==> final(self).value_of(k) == old(self).value_of(k),
            r is Ok ==> edited(*old(files), *final(files), key@),
            r is Err ==> *final(files) == *old(files),
            old(files).document(old(files).owner(key@)) matches Some(d) && d.tree().len() < usize::MAX ==> r is Ok,
    {
        self.set_value(key, owned(text));
        match files.update_value(key, text) {
            Ok(_) => Ok(()),
            Err(e) => Err(e),
        }
    }

    /// Removes the value stored under `key` and its first assignment in the document of the file
    /// that owns `key`, which is marked changed; returns the value.
    pub fn remove_in_files(&mut self, files: &mut MultiFileDocument, key: &str) -> (r: ParseResult<String>)
        requires
            old(self).wf(),
            old(files).wf(),
        ensures
            final(self).wf(),
            final(files).wf(),
            kept(*old(self), *final(self)),
            final(self).value_of(key@) is None,
            forall|k: Seq<char>| k != key@ ==> final(self).value_of(k) == old(self).value_of(k),
            old(self).value_of(key@) is None ==> (r matches Err(ConfigError::KeyNotFound { .. }) && *final(files) == *old(files)),
            r matches Ok(v) ==> old(self).value_of(key@) == Some(v@) && edited(*old(files), *final(files), key@),
    {
        let value = match self.remove(key) {
            Ok(v) => v,
            Err(e) => return Err(e),
        };
        match files.remove_value(key) {
            Ok(_) => Ok(value),
            Err(e) => Err(e),
        }
    }

    /// Appends `value` to the calls of handler key `key` and the same handler call to the
    /// document of the file that owns `key`, which is marked changed.
    pub fn add_handler_call_in_files(&mut self, files: &mut MultiFileDocument, key: &str, value: &str) -> (r: ParseResult<()>)
        requires
            old(self).wf(),
            old(files).wf(),
        ensures
            final(self).wf(),
            final(files).wf(),
            kept(*old(self), *final(self)),
            final(self).call_log().calls_of(key@) == old(self).call_log().calls_of(key@).push(value@),
            forall|k: Seq<char>| k != key@ ==> final(self).call_log().calls_of(k) == old(self).call_log().calls_of(k),
            r is Ok ==> edited(*old(files), *final(files), key@),
            r is Err ==> *final(files) == *old(files),
            old(files).document(old(files).owner(key@)) matches Some(d) && d.tree().len() < usize::MAX ==> r is Ok,
    {
        self.calls.record(key, owned(value));
        match files.add_handler_call(key, value) {
            Ok(_) => Ok(()),
            Err(e) => Err(e),
        }
    }

    /// Sets variable `name` to `value` (see `set_variable`) and in the document of the file that
    /// defines it, which is marked changed.
    pub fn set_variable_in_files(&mut self, files: &mut MultiFileDocument, name: &str, value: &str) -> (r: ParseResult<()>)
        requires
            old(self).wf(),
            old(files).wf(),
        ensures
            final(self).wf(),
            final(files).wf(),
            kept(*old(self), *final(self)),
            final(self).variable_table().value_of(name@) == Some(value@),
            forall|k: Seq<char>|
                k != name@ ==> final(self).variable_table().value_of(k) == old(self).variable_table().value_of(k),
            match crate::evaluation::parsed_int(value@) {
                Some(i) => lookup(final(self).int_table(), name@) == Some(i),
                None => final(self).int_table() == old(self).int_table(),
            },
            r is Ok ==> edited(*old(files), *final(files), "$"@ + name@),
            r is Err ==> *final(files) == *old(files),
    {
        self.set_variable(owned(name), owned(value));
        match files.update_variable(name, value) {
            Ok(_) => Ok(()),
            Err(e) => Err(e),
        }
    }

    fn in_block<L: SourceLoader>(&mut self, segment: String, statements: &Vec<Statement>, loader: &L) -> (r: ParseResult<()>)
        requires
            old(self).wf(),
            old(self).loading().len() <= old(self).depth_limit(),
        ensures
            final(self).wf(),
            final(self).path() == old(self).path(),
            final(self).loading() == old(self).loading(),
            final(self).depth_limit() == old(self).depth_limit(),
            kept(*old(self), *final(self)),
        decreases old(self).depth_limit() - old(self).loading().len(), statements@, 2nat,
    {
        let ghost pre = self.current_path@;
        self.current_path.push(segment);
        let r = self.process_all(statements, loader);
        self.current_path.pop();
        assert(self.current_path@ =~= pre);
        r
    }

    fn assign(&mut self, key: &Vec<String>, value: &String) -> (r: ParseResult<()>)
        requires
            old(self).wf(),
        ensures
            final(self).wf(),
            final(self).path() == old(self).path(),
            final(self).loading() == old(self).loading(),
            final(self).depth_limit() == old(self).depth_limit(),
            kept(*old(self), *final(self)),
            final(self).variable_table() == old(self).variable_table(),
            final(self).int_table() == old(self).int_table(),
            forall|k: Seq<char>|
                k != qualified(views(old(self).path()), join(views(key@), ":"@)) ==> final(self).value_of(k) == old(self).value_of(k),
            match old(self).resolves(value@) {
                Resolution::Text(t) => r is Ok && final(self).value_of(
                    qualified(views(old(self).path()), join(views(key@), ":"@)),
                ) == Some(t),
                _ => r is Err,
            },
    {
        let joined = join_strings(key.as_slice(), key.len(), ":");
        assert(key@.take(key@.len() as int) =~= key@);
        let full_key = qualify(&self.current_path, joined.as_str());
        let text = match resolve_value(&self.variables, &self.expressions, value.as_str()) {
            Ok(t) => t,
            Err(e) => return Err(e),
        };
        crate::table::insert(&mut self.values, full_key.as_str(), text);
        Ok(())
    }

    fn copy_into_instance(&mut self, name: &str, instance_key: &str, prefix: &str)
        requires
            old(self).wf(),
            old(self).categories().instance(name@, instance_key@) is Some,
        ensures
            final(self).wf(),
            final(self).path() == old(self).path(),
            final(self).loading() == old(self).loading(),
            final(self).depth_limit() == old(self).depth_limit(),
            kept(*old(self), *final(self)),
            forall|k: Seq<char>| final(self).value_of(k) == old(self).value_of(k),
            copied_into(*final(self), name@, instance_key@, prefix@),
    {
        let p = chars_of(prefix);
        let mut i: usize = 0;
        while i < self.values.len()
            invariant
                self.wf(),
                self.path() == old(self).path(),
                self.loading() == old(self).loading(),
                self.depth_limit() == old(self).depth_limit(),
                kept(*old(self), *self),
                self.values == old(self).values,
                p@ == prefix@,
                self.categories().instance(name@, instance_key@) is Some,
                0 <= i <= self.values@.len(),
                forall|j: int| 0 <= j < i ==> #[trigger] copied_at(*self, name@, instance_key@, prefix@, self.values@[j]),
            decreases self.values@.len() - i,
        {
            let k = chars_of(self.values[i].0.as_str());
            if starts_with(&k, &p) {
                let sub = crate::text::string_of(&crate::text::sub_chars(&k, p.len(), k.len()));
                let v = self.values[i].1.clone();
                let ghost pre = *self;
                let _ = self.special.set_property(name, instance_key, sub, v);
                proof {
                    let vi = self.values@[i as int];
                    assert(k@ =~= prefix@ + sub@);
                    assert forall|j: int| 0 <= j < i + 1 implies #[trigger] copied_at(*self, name@, instance_key@, prefix@, self.values@[j]) by {
                        let vj = self.values@[j];
                        if j < i {
                            assert(copied_at(pre, name@, instance_key@, prefix@, vj));
                            if has_prefix(vj.0@, prefix@) {
                                assert(vj.0@ =~= prefix@ + vj.0@.skip(prefix@.len() as int));
                                assert(vj.0@ != vi.0@);
                                assert(vj.0@.skip(prefix@.len() as int) != sub@);
                            }
                        } else {
                            assert(sub@ == vi.0@.skip(prefix@.len() as int));
                        }
                    }
                }
            } else {
                proof {
                    assert(!has_prefix(self.values@[i as int].0@, prefix@));
                }
            }
            i += 1;
        }
        proof {
            assert forall|k: Seq<char>| #[trigger] self.value_of(k) is Some && has_prefix(k, prefix@) implies (
                self.categories().instance(name@, instance_key@) matches Some(inst) && lookup(
                    inst.values@,
                    k.skip(prefix@.len() as int),
                ) matches Some(v) && v@ == self.value_of(k)->0) by {
                let j = choose|j: int| 0 <= j < self.values@.len() && #[trigger] self.values@[j].0@ == k;
                crate::table::lemma_lookup_at(self.values@, j);
                assert(copied_at(*self, name@, instance_key@, prefix@, self.values@[j]));
            }
        }
    }
}

/// The prefix `path:name[key]:` of the keys stored inside an instance block.
pub open spec fn instance_prefix(path: Seq<Seq<char>>, name: Seq<char>, key: Seq<char>) -> Seq<char> {
    qualified(path, name + "["@ + key + "]"@) + ":"@
}

/// Whether `s` starts with `p`.
pub open spec fn has_prefix(s: Seq<char>, p: Seq<char>) -> bool {
    p.len() <= s.len() && s.subrange(0, p.len() as int) == p
}

/// The stored entry `e`, if its key starts with `prefix`, is a property of the instance
/// (named by the rest of the key) with the same text.
pub open spec fn copied_at(ev: Evaluator, name: Seq<char>, key: Seq<char>, prefix: Seq<char>, e: (String, String)) -> bool {
    has_prefix(e.0@, prefix) ==> (ev.categories().instance(name, key) matches Some(inst) && lookup(
        inst.values@,
        e.0@.skip(prefix.len() as int),
    ) matches Some(v) && v@ == e.1@)
}

/// Every stored value whose key starts with `prefix` is a property of instance `key` of
/// category `name`, named by the rest of the key, with the same text.
pub open spec fn copied_into(ev: Evaluator, name: Seq<char>, key: Seq<char>, prefix: Seq<char>) -> bool {
    forall|k: Seq<char>|
        #[trigger] ev.value_of(k) is Some && has_prefix(k, prefix) ==> (ev.categories().instance(name, key) matches Some(inst)
            && lookup(inst.values@, k.skip(prefix.len() as int)) matches Some(v) && v@ == ev.value_of(k)->0)
}

fn starts_with(s: &Vec<char>, p: &Vec<char>) -> (r: bool)
    ensures
        r == has_prefix(s@, p@),
{
    if p.len() > s.len() {
        return false;
    }
    let mut i: usize = 0;
    while i < p.len()
        invariant
            p@.len() <= s@.len(),
            0 <= i <= p@.len(),
            forall|k: int| 0 <= k < i ==> s@[k] == p@[k],
        decreases p@.len() - i,
    {
        if s[i] != p[i] {
            assert(s@.subrange(0, p@.len() as int)[i as int] != p@[i as int]);
            return false;
        }
        i += 1;
    }
    assert(s@.subrange(0, p@.len() as int) =~= p@);
    true
}

/// The prefix, `path:name[key]:`, of the keys stored inside an instance block.
fn key_prefix_after(path: &Vec<String>, name: &str, instance_key: &str) -> (r: String)
    ensures
        r@ == instance_prefix(views(path@), name@, instance_key@),
{
    let mut seg = owned(name);
    push_str(&mut seg, "[");
    push_str(&mut seg, instance_key);
    push_str(&mut seg, "]");
    let mut out = qualify(path, seg.as_str());
    push_str(&mut out, ":");
    out
}

} // verus!
