//! Keyword handlers: side-effecting callbacks registered globally or for a category path,
//! looked up from the most specific category prefix to the global table.
use vstd::prelude::*;
use crate::error::{ConfigError, ParseResult};
use crate::table::{find_index, has_key, keys_of, keys_unique, lookup, key_seq, views_of, lemma_lookup_at};
use crate::text::{clone_strings, join, join_strings, owned, views};

verus! {

/// What a handler is told about the statement that invoked it.
pub struct HandlerContext {
    /// The category path where the handler is invoked.
    pub category: Vec<String>,
    /// The keyword that triggered the handler.
    pub keyword: String,
    /// The value passed to the handler.
    pub value: String,
    /// The flags written after the keyword, if any.
    pub flags: Option<String>,
}

impl HandlerContext {
    pub fn new(keyword: String, value: String) -> (r: Self)
        ensures
            r.category@.len() == 0,
            r.keyword == keyword,
            r.value == value,
            r.flags is None,
    {
        HandlerContext { category: Vec::new(), keyword, value, flags: None }
    }

    pub fn with_category(self, category: Vec<String>) -> (r: Self)
        ensures
            r.category == category,
            r.keyword == self.keyword,
            r.value == self.value,
            r.flags == self.flags,
    {
        HandlerContext { category, ..self }
    }

    pub fn with_flags(self, flags: String) -> (r: Self)
        ensures
            r.category == self.category,
            r.keyword == self.keyword,
            r.value == self.value,
            r.flags == Some(flags),
    {
        HandlerContext { flags: Some(flags), ..self }
    }

    /// The category path joined with `:`.
    pub fn category_path(&self) -> (r: String)
        ensures
            r@ == join(views(self.category@), ":"@),
    {
        let n = self.category.len();
        let r = join_strings(self.category.as_slice(), n, ":");
        assert(self.category@.take(n as int) =~= self.category@);
        r
    }
}

/// A keyword handler.
pub trait Handler {
    /// Whether the handler takes flags.
    spec fn takes_flags(&self) -> bool;

    /// Whether `result` is an outcome of handling `context`.
    spec fn handles(&self, context: HandlerContext, result: ParseResult<()>) -> bool;

    /// Handles one invocation.
    fn handle(&self, context: &HandlerContext) -> (r: ParseResult<()>)
        ensures
            self.handles(*context, r),
    ;

    /// The handler's name.
    fn name(&self) -> &str;

    /// Whether the handler takes flags.
    fn accepts_flags(&self) -> (r: bool)
        ensures
            r == self.takes_flags(),
    ;
}

/// A handler that calls a function.
pub struct FunctionHandler<F: Fn(&HandlerContext) -> ParseResult<()>> {
    name: String,
    accepts_flags: bool,
    handler: F,
}

impl<F: Fn(&HandlerContext) -> ParseResult<()>> FunctionHandler<F> {
    #[verifier::type_invariant]
    spec fn callable(&self) -> bool {
        forall|c: &HandlerContext| call_requires(self.handler, (c,))
    }

    pub closed spec fn spec_name(&self) -> Seq<char> {
        self.name@
    }

    /// A handler that refuses flags.
    pub fn new(name: &str, handler: F) -> (r: Self)
        requires
            forall|c: &HandlerContext| call_requires(handler, (c,)),
        ensures
            r.spec_name() == name@,
            !r.takes_flags(),
    {
        FunctionHandler { name: owned(name), accepts_flags: false, handler }
    }

    /// A handler that takes flags.
    pub fn with_flags(name: &str, handler: F) -> (r: Self)
        requires
            forall|c: &HandlerContext| call_requires(handler, (c,)),
        ensures
            r.spec_name() == name@,
            r.takes_flags(),
    {
        FunctionHandler { name: owned(name), accepts_flags: true, handler }
    }
}

impl<F: Fn(&HandlerContext) -> ParseResult<()>> Handler for FunctionHandler<F> {
    closed spec fn takes_flags(&self) -> bool {
        self.accepts_flags
    }

    closed spec fn handles(&self, context: HandlerContext, result: ParseResult<()>) -> bool {
        call_ensures(self.handler, (&context,), result)
    }

    fn handle(&self, context: &HandlerContext) -> (r: ParseResult<()>) {
        proof {
            use_type_invariant(self);
        }
        (self.handler)(context)
    }

    fn name(&self) -> &str {
        self.name.as_str()
    }

    fn accepts_flags(&self) -> (r: bool) {
        self.accepts_flags
    }
}

/// Where a handler is registered.
#[derive(Debug, Clone, Copy, PartialEq, Eq, Hash)]
pub enum HandlerScope {
    /// Available everywhere.
    Global,
    /// Available within one category path.
    Category,
}

/// The table of one scope: keyword and handler pairs.
pub type HandlerTable = Vec<(String, Box<dyn Handler>)>;

/// The registry of handlers.
pub struct HandlerManager {
    global_handlers: HandlerTable,
    category_handlers: Vec<(String, HandlerTable)>,
}

impl HandlerManager {
    /// The global handlers, by keyword.
    pub closed spec fn globals(&self) -> Seq<(String, Box<dyn Handler>)> {
        self.global_handlers@
    }

    /// The category-scoped tables, by joined category path.
    pub closed spec fn categories(&self) -> Seq<(String, HandlerTable)> {
        self.category_handlers@
    }

    pub closed spec fn wf(&self) -> bool {
        &&& keys_unique(self.global_handlers@)
        &&& keys_unique(self.category_handlers@)
        &&& forall|c: Seq<char>|
            #[trigger] lookup(self.category_handlers@, c) matches Some(t) ==> keys_unique(t@)
    }

    /// The handler registered for `keyword` under the joined category path `category`.
    pub open spec fn scoped(&self, category: Seq<char>, keyword: Seq<char>) -> Option<Box<dyn Handler>> {
        match lookup(self.categories(), category) {
            Some(t) => lookup(t@, keyword),
            None => None,
        }
    }

    /// The handler found for `keyword` when the prefixes of `path` of length `i` down to 0
    /// are tried in turn, and the global table after them.
    pub open spec fn resolve_from(&self, path: Seq<Seq<char>>, keyword: Seq<char>, i: int) -> Option<
        Box<dyn Handler>,
    >
        decreases i + 1,
    {
        if i < 0 {
            lookup(self.globals(), keyword)
        } else {
            let found = self.scoped(join(path.take(i), ":"@), keyword);
            if found is Some {
                found
            } else {
                self.resolve_from(path, keyword, i - 1)
            }
        }
    }

    /// The handler that applies to `keyword` inside category path `path`.
    pub open spec fn resolve(&self, path: Seq<Seq<char>>, keyword: Seq<char>) -> Option<Box<dyn Handler>> {
        self.resolve_from(path, keyword, path.len() as int)
    }

    pub fn new() -> (r: Self)
        ensures
            r.wf(),
            r.globals().len() == 0,
            r.categories().len() == 0,
    {
        HandlerManager { global_handlers: Vec::new(), category_handlers: Vec::new() }
    }

    /// Registers `handler` for `keyword` everywhere, replacing a global handler of that keyword.
    pub fn register_global<H: Handler + 'static>(&mut self, keyword: &str, handler: H)
        requires
            old(self).wf(),
        ensures
            final(self).wf(),
            has_key(final(self).globals(), keyword@),
            forall|k: Seq<char>|
                k != keyword@ ==> lookup(final(self).globals(), k) == lookup(old(self).globals(), k),
            final(self).categories() == old(self).categories(),
    {
        let b: Box<dyn Handler> = Box::new(handler);
        crate::table::insert(&mut self.global_handlers, keyword, b);
    }

    /// Registers `handler` for `keyword` within the joined category path `category`.
    pub fn register_category<H: Handler + 'static>(&mut self, category: &str, keyword: &str, handler: H)
        requires
            old(self).wf(),
        ensures
            final(self).wf(),
            final(self).scoped(category@, keyword@) is Some,
            forall|c: Seq<char>, k: Seq<char>|
                c != category@ || k != keyword@ ==> final(self).scoped(c, k) == old(self).scoped(c, k),
            final(self).globals() == old(self).globals(),
    {
        let b: Box<dyn Handler> = Box::new(handler);
        let ghost pre = self.category_handlers@;
        let mut table: HandlerTable = match crate::table::remove(&mut self.category_handlers, category) {
            Some(t) => t,
            None => Vec::new(),
        };
        let ghost before = table@;
        crate::table::insert(&mut table, keyword, b);
        proof {
            assert forall|k: Seq<char>| k != keyword@ implies lookup(table@, k) == match lookup(pre, category@) {
                Some(t) => lookup(t@, k),
                None => None,
            } by {
                match lookup(pre, category@) {
                    Some(t) => { assert(before == t@); },
                    None => { assert(before.len() == 0); assert(!has_key(before, k)); },
                }
            }
        }
        crate::table::insert(&mut self.category_handlers, category, table);
    }

    /// The handler that applies to `keyword` inside `category_path`: the one registered for
    /// the longest prefix of the path (the empty prefix included), else the global one.
    pub fn find_handler(&self, category_path: &[String], keyword: &str) -> (r: Option<&Box<dyn Handler>>)
        requires
            self.wf(),
        ensures
            match self.resolve(views(category_path@), keyword@) {
                Some(b) => r matches Some(h) && *h == b,
                None => r is None,
            },
    {
        let ghost path = views(category_path@);
        let mut k: usize = category_path.len();
        loop
            invariant
                self.wf(),
                path == views(category_path@),
                0 <= k <= category_path@.len(),
                self.resolve(path, keyword@) == self.resolve_from(path, keyword@, k as int),
            ensures
                path == views(category_path@),
                self.resolve(path, keyword@) == self.resolve_from(path, keyword@, -1),
            decreases k,
        {
            let joined = join_strings(category_path, k, ":");
            assert(views(category_path@.take(k as int)) =~= path.take(k as int));
            match find_index(&self.category_handlers, joined.as_str()) {
                Some(ci) => {
                    proof {
                        lemma_lookup_at(self.category_handlers@, ci as int);
                    }
                    match find_index(&self.category_handlers[ci].1, keyword) {
                        Some(ki) => {
                            proof {
                                let t = self.category_handlers@[ci as int].1;
                                lemma_lookup_at(t@, ki as int);
                                assert(joined@ == join(path.take(k as int), ":"@));
                                assert(lookup(self.categories(), joined@) == Some(t));
                                assert(self.scoped(joined@, keyword@) == Some(t@[ki as int].1));
                            }
                            return Some(&self.category_handlers[ci].1[ki].1);
                        },
                        None => {},
                    }
                },
                None => {},
            }
            if k == 0 {
                break;
            }
            k -= 1;
        }
        match find_index(&self.global_handlers, keyword) {
            Some(gi) => {
                proof {
                    lemma_lookup_at(self.global_handlers@, gi as int);
                }
                return Some(&self.global_handlers[gi].1);
            },
            None => {},
        }
        None
    }

    /// Whether a handler applies to `keyword` inside `category_path`.
    pub fn has_handler(&self, category_path: &[String], keyword: &str) -> (r: bool)
        requires
            self.wf(),
        ensures
            r == self.resolve(views(category_path@), keyword@) is Some,
    {
        self.find_handler(category_path, keyword).is_some()
    }

    /// Runs the handler that applies to `keyword` inside `category_path` on `value`.
    ///
    /// Fails when no handler applies, or when flags are given to a handler that takes none;
    /// otherwise the result is the handler's own.
    pub fn execute(&self, category_path: &[String], keyword: &str, value: &str, flags: Option<String>) -> (r: ParseResult<()>)
        requires
            self.wf(),
        ensures
            self.resolve(views(category_path@), keyword@) is None ==> (r matches Err(
                ConfigError::HandlerError { handler, message },
            ) && handler@ == keyword@ && message@ == "handler not found"@),
            (self.resolve(views(category_path@), keyword@) matches Some(b) && flags is Some
                && !b.takes_flags()) ==> (r matches Err(ConfigError::HandlerError { handler, message })
                && handler@ == keyword@ && message@ == "handler does not accept flags"@),
            (self.resolve(views(category_path@), keyword@) matches Some(b) && !(flags is Some
                && !b.takes_flags())) ==> (exists|c: HandlerContext|
                c.keyword@ == keyword@ && c.value@ == value@ && views(c.category@) == views(category_path@)
                    && (c.flags matches Some(f) && f@ == match flags {
                    Some(g) => g@,
                    None => Seq::<char>::empty(),
                }) && #[trigger] self.resolve(views(category_path@), keyword@)->0.handles(c, r)),
    {
        let handler = match self.find_handler(category_path, keyword) {
            Some(h) => h,
            None => return Err(ConfigError::handler(keyword, "handler not found")),
        };
        if flags.is_some() && !handler.accepts_flags() {
            return Err(ConfigError::handler(keyword, "handler does not accept flags"));
        }
        let given = match flags {
            Some(f) => f,
            None => String::new(),
        };
        let context = HandlerContext::new(owned(keyword), owned(value)).with_category(
            clone_strings(category_path),
        ).with_flags(given);
        handler.handle(&context)
    }

    /// Forgets every handler.
    pub fn clear(&mut self)
        ensures
            final(self).wf(),
            final(self).globals().len() == 0,
            final(self).categories().len() == 0,
    {
        self.global_handlers = Vec::new();
        self.category_handlers = Vec::new();
    }

    /// The keywords of the global handlers, in order of registration.
    pub fn global_keywords(&self) -> (r: Vec<String>)
        ensures
            views_of(r@) == key_seq(self.globals()),
    {
        keys_of(&self.global_handlers)
    }

    /// The keywords registered within the joined category path `category`.
    pub fn category_keywords(&self, category: &str) -> (r: Vec<String>)
        requires
            self.wf(),
        ensures
            match lookup(self.categories(), category@) {
                Some(t) => views_of(r@) == key_seq(t@),
                None => r@.len() == 0,
            },
    {
        match find_index(&self.category_handlers, category) {
            Some(i) => {
                proof {
                    lemma_lookup_at(self.category_handlers@, i as int);
                }
                keys_of(&self.category_handlers[i].1)
            },
            None => Vec::new(),
        }
    }
}

proof fn lemma_resolve_down(m: &HandlerManager, path: Seq<Seq<char>>, keyword: Seq<char>, i: int, j: int)
    requires
        0 <= i <= j <= path.len(),
        m.scoped(join(path.take(i), ":"@), keyword) is Some,
        forall|l: int| i < l <= path.len() ==> m.scoped(#[trigger] join(path.take(l), ":"@), keyword) is None,
    ensures
        m.resolve_from(path, keyword, j) == m.scoped(join(path.take(i), ":"@), keyword),
    decreases j,
{
    if j > i {
        lemma_resolve_down(m, path, keyword, i, j - 1);
    }
}

/// A handler registered for keyword `keyword` under a prefix of the category path always
/// wins over the global handler of that keyword: the handler found is the one of the longest
/// such prefix, whatever the global table holds.
pub proof fn law_category_handler_shadows_global(
    m: &HandlerManager,
    path: Seq<Seq<char>>,
    keyword: Seq<char>,
    i: int,
)
    requires
        0 <= i <= path.len(),
        m.scoped(join(path.take(i), ":"@), keyword) is Some,
        forall|l: int| i < l <= path.len() ==> m.scoped(#[trigger] join(path.take(l), ":"@), keyword) is None,
    ensures
        m.resolve(path, keyword) == m.scoped(join(path.take(i), ":"@), keyword),
{
    lemma_resolve_down(m, path, keyword, i, path.len() as int);
}

/// Registering or replacing global handlers, in any order, never changes which handler a
/// keyword finds when a category-scoped handler applies.
pub proof fn law_global_registration_order_irrelevant(
    before: &HandlerManager,
    after: &HandlerManager,
    path: Seq<Seq<char>>,
    keyword: Seq<char>,
    i: int,
)
    requires
        before.categories() == after.categories(),
        0 <= i <= path.len(),
        before.scoped(join(path.take(i), ":"@), keyword) is Some,
    ensures
        after.resolve(path, keyword) == before.resolve(path, keyword),
    decreases path.len() - i,
{
    if exists|l: int| i < l <= path.len() && before.scoped(#[trigger] join(path.take(l), ":"@), keyword) is Some {
        let l = choose|l: int| i < l <= path.len() && before.scoped(#[trigger] join(path.take(l), ":"@), keyword) is Some;
        law_global_registration_order_irrelevant(before, after, path, keyword, l);
    } else {
        lemma_resolve_down(before, path, keyword, i, path.len() as int);
        lemma_resolve_down(after, path, keyword, i, path.len() as int);
    }
}

} // verus!
