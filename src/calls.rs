//! Handler calls: the values recorded for each handler keyword, in declaration order, and the
//! decision between a handler call and an assignment.
use vstd::prelude::*;
use crate::document::{qualified, qualify};
use crate::error::{ConfigError, ParseResult};
use crate::handlers::HandlerManager;
use crate::table::{find_index, has_key, keys_of, keys_unique, lookup, key_seq, views_of, lemma_lookup_at};
use crate::text::{clone_strings, views};

verus! {

/// The values recorded for each handler key (category path and keyword joined by `:`).
pub struct HandlerCalls {
    calls: Vec<(String, Vec<String>)>,
}

impl HandlerCalls {
    /// The recorded values of key `k`, oldest first; empty when none.
    pub closed spec fn calls_of(&self, k: Seq<char>) -> Seq<Seq<char>> {
        match lookup(self.calls@, k) {
            Some(v) => views_of(v@),
            None => Seq::empty(),
        }
    }

    /// Whether key `k` has an entry.
    pub closed spec fn has(&self, k: Seq<char>) -> bool {
        has_key(self.calls@, k)
    }

    /// The keys with an entry, in order of their first call.
    pub closed spec fn keys(&self) -> Seq<Seq<char>> {
        key_seq(self.calls@)
    }

    pub closed spec fn wf(&self) -> bool {
        keys_unique(self.calls@)
    }

    pub fn new() -> (r: Self)
        ensures
            r.wf(),
            forall|k: Seq<char>| !r.has(k) && r.calls_of(k).len() == 0,
    {
        HandlerCalls { calls: Vec::new() }
    }

    /// Appends `value` to the calls of `key`.
    pub fn record(&mut self, key: &str, value: String)
        requires
            old(self).wf(),
        ensures
            final(self).wf(),
            final(self).has(key@),
            final(self).calls_of(key@) == old(self).calls_of(key@).push(value@),
            forall|k: Seq<char>|
                k != key@ ==> final(self).calls_of(k) == old(self).calls_of(k) && final(self).has(k)
                    == old(self).has(k),
    {
        let ghost pre = self.calls@;
        let mut list: Vec<String> = match crate::table::remove(&mut self.calls, key) {
            Some(v) => v,
            None => Vec::new(),
        };
        let ghost before = list@;
        list.push(value);
        assert(views_of(list@) =~= views_of(before).push(value@));
        crate::table::insert(&mut self.calls, key, list);
        proof {
            match lookup(pre, key@) {
                Some(v) => { assert(before == v@); },
                None => { assert(views_of(before) =~= Seq::<Seq<char>>::empty()); },
            }
        }
    }

    /// The recorded calls of `key`, if it has any entry.
    pub fn get_handler_calls(&self, key: &str) -> (r: Option<&Vec<String>>)
        requires
            self.wf(),
        ensures
            r is Some <==> self.has(key@),
            r matches Some(v) ==> views_of(v@) == self.calls_of(key@),
    {
        match find_index(&self.calls, key) {
            Some(i) => {
                proof {
                    lemma_lookup_at(self.calls@, i as int);
                }
                Some(&self.calls[i].1)
            },
            None => None,
        }
    }

    /// The keys with an entry, in order of their first call.
    pub fn handler_names(&self) -> (r: Vec<String>)
        ensures
            views_of(r@) == self.keys(),
    {
        keys_of(&self.calls)
    }

    /// Removes every call of `key`, returning them.
    pub fn remove_handler_calls(&mut self, key: &str) -> (r: Option<Vec<String>>)
        requires
            old(self).wf(),
        ensures
            final(self).wf(),
            r is Some <==> old(self).has(key@),
            r matches Some(v) ==> views_of(v@) == old(self).calls_of(key@),
            !final(self).has(key@),
            forall|k: Seq<char>|
                k != key@ ==> final(self).calls_of(k) == old(self).calls_of(k) && final(self).has(k)
                    == old(self).has(k),
    {
        crate::table::remove(&mut self.calls, key)
    }

    /// Removes the call at `index` of `key`, returning its value; fails when `key` has no
    /// entry or `index` is past its calls.
    pub fn remove_handler_call(&mut self, key: &str, index: usize) -> (r: ParseResult<String>)
        requires
            old(self).wf(),
        ensures
            final(self).wf(),
            !old(self).has(key@) ==> (r matches Err(ConfigError::HandlerError { .. }) && final(self).calls_of(key@) == old(self).calls_of(key@)),
            old(self).has(key@) && index >= old(self).calls_of(key@).len() ==> (r matches Err(
                ConfigError::Custom { .. },
            ) && final(self).calls_of(key@) == old(self).calls_of(key@)),
            old(self).has(key@) && index < old(self).calls_of(key@).len() ==> (r matches Ok(v) && v@
                == old(self).calls_of(key@)[index as int] && final(self).calls_of(key@) == old(
                self,
            ).calls_of(key@).remove(index as int)),
            forall|k: Seq<char>| k != key@ ==> final(self).calls_of(k) == old(self).calls_of(k),
    {
        let ghost pre = self.calls@;
        let mut list: Vec<String> = match crate::table::remove(&mut self.calls, key) {
            Some(v) => v,
            None => return Err(ConfigError::handler(key, "no calls found")),
        };
        if index >= list.len() {
            crate::table::insert(&mut self.calls, key, list);
            return Err(ConfigError::custom("index out of bounds"));
        }
        let ghost before = list@;
        let value = list.remove(index);
        assert(views_of(list@) =~= views_of(before).remove(index as int));
        crate::table::insert(&mut self.calls, key, list);
        Ok(value)
    }
}

/// Whether the assignment of `key` inside `path` is a handler call: a single segment, outside
/// any special category instance, with a handler that applies there.
pub open spec fn handler_call_spec(handlers: HandlerManager, path: Seq<Seq<char>>, key: Seq<Seq<char>>) -> bool {
    &&& key.len() == 1
    &&& !exists|i: int| 0 <= i < path.len() && path[i].contains('[')
    &&& handlers.resolve(path, key[0]) is Some
}

fn has_bracket(s: &String) -> (r: bool)
    ensures
        r == s@.contains('['),
{
    let v = crate::text::chars_of(s.as_str());
    let mut i: usize = 0;
    while i < v.len()
        invariant
            v@ == s@,
            0 <= i <= v@.len(),
            forall|k: int| 0 <= k < i ==> v@[k] != '[',
        decreases v@.len() - i,
    {
        if v[i] == '[' {
            return true;
        }
        i += 1;
    }
    false
}

/// Decides whether an assignment statement is a handler call instead.
pub fn is_handler_call(handlers: &HandlerManager, path: &[String], key: &[String]) -> (r: bool)
    requires
        handlers.wf(),
    ensures
        r == handler_call_spec(*handlers, views(path@), views(key@)),
{
    if key.len() != 1 {
        return false;
    }
    let mut i: usize = 0;
    while i < path.len()
        invariant
            0 <= i <= path@.len(),
            forall|k: int| 0 <= k < i ==> !path@[k]@.contains('['),
        decreases path@.len() - i,
    {
        if has_bracket(&path[i]) {
            assert(views(path@)[i as int].contains('['));
            return false;
        }
        i += 1;
    }
    assert(!exists|k: int| 0 <= k < views(path@).len() && views(path@)[k].contains('[')) by {
        assert forall|k: int| 0 <= k < views(path@).len() implies !views(path@)[k].contains('[') by {
            assert(views(path@)[k] == path@[k]@);
        }
    }
    handlers.has_handler(path, key[0].as_str())
}

/// Processes a handler call `keyword = value` inside `path` (the value already expanded):
/// the value is recorded under the qualified key when a handler applies or at the top level,
/// and the handler, if one applies, runs.
pub fn process_handler_call(
    handlers: &HandlerManager,
    calls: &mut HandlerCalls,
    path: &[String],
    keyword: &str,
    value: &str,
    flags: Option<String>,
) -> (r: ParseResult<()>)
    requires
        handlers.wf(),
        old(calls).wf(),
    ensures
        final(calls).wf(),
        ({
            let k = qualified(views(path@), keyword@);
            let applies = handlers.resolve(views(path@), keyword@) is Some;
            &&& (applies || path@.len() == 0) ==> final(calls).calls_of(k) == old(calls).calls_of(k).push(value@)
            &&& !(applies || path@.len() == 0) ==> final(calls).calls_of(k) == old(calls).calls_of(k)
            &&& forall|j: Seq<char>| j != k ==> final(calls).calls_of(j) == old(calls).calls_of(j)
            &&& !applies ==> r is Ok
        }),
{
    let cats = clone_strings(path);
    let key = qualify(&cats, keyword);
    let applies = handlers.has_handler(path, keyword);
    if applies || path.len() == 0 {
        calls.record(key.as_str(), crate::text::owned(value));
    }
    if applies {
        handlers.execute(path, keyword, value, flags)
    } else {
        Ok(())
    }
}

} // verus!
