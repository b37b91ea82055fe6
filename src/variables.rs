//! Variables: a name-to-text table with recursive `$NAME` substitution and cycle detection.
use vstd::prelude::*;
use crate::error::{ConfigError, ParseResult};
use crate::table::{find_index, has_key, keys_of, keys_unique, lookup, views_of, key_seq, lemma_lookup_at};
use crate::text::{sub_chars, chars_of, is_name_char, name_char, owned, string_of};

verus! {

/// The number of name characters that `s` starts with.
pub open spec fn name_len(s: Seq<char>) -> nat
    decreases s.len(),
{
    if s.len() > 0 && is_name_char(s[0]) {
        1 + name_len(s.skip(1))
    } else {
        0
    }
}

/// `x` put in front of a successful expansion; an error is passed on.
pub open spec fn prepend(x: Seq<char>, r: Result<Seq<char>, Seq<Seq<char>>>) -> Result<
    Seq<char>,
    Seq<Seq<char>>,
> {
    match r {
        Ok(y) => Ok(x + y),
        Err(e) => Err(e),
    }
}

/// The expansion of `s` while the names of `chain` are being expanded: each `$NAME` becomes
/// the expansion of the variable's value, else the environment's value, else stays as it
/// is. A name met again on the chain fails with the chain that led back to it; so does a
/// chain as long as the table, whose names cannot all differ from the one met next.
pub open spec fn expansion(
    vars: Seq<(String, String)>,
    env: Seq<(String, String)>,
    s: Seq<char>,
    chain: Seq<Seq<char>>,
) -> Result<Seq<char>, Seq<Seq<char>>>
    decreases vars.len() - chain.len(), s.len(),
{
    if s.len() == 0 {
        Ok(Seq::empty())
    } else if s[0] == '$' {
        let k = name_len(s.skip(1)) as int;
        proof {
            lemma_name_len_bound(s.skip(1));
        }
        let name = s.subrange(1, 1 + k);
        let rest = s.skip(1 + k);
        if chain.contains(name) {
            Err(chain.push(name))
        } else {
            match lookup(vars, name) {
                Some(val) => {
                    if chain.len() < vars.len() {
                        match expansion(vars, env, val@, chain.push(name)) {
                            Ok(x) => prepend(x, expansion(vars, env, rest, chain)),
                            Err(e) => Err(e),
                        }
                    } else {
                        Err(chain.push(name))
                    }
                },
                None => match lookup(env, name) {
                    Some(ev) => prepend(ev@, expansion(vars, env, rest, chain)),
                    None => prepend(seq!['$'] + name, expansion(vars, env, rest, chain)),
                },
            }
        }
    } else {
        prepend(seq![s[0]], expansion(vars, env, s.skip(1), chain))
    }
}

pub proof fn lemma_name_len_bound(t: Seq<char>)
    ensures
        name_len(t) <= t.len(),
    decreases t.len(),
{
    if t.len() > 0 && is_name_char(t[0]) {
        lemma_name_len_bound(t.skip(1));
    }
}

proof fn lemma_name_len(t: Seq<char>, m: int)
    requires
        0 <= m <= t.len(),
        forall|k: int| 0 <= k < m ==> is_name_char(t[k]),
        m == t.len() || !is_name_char(t[m]),
    ensures
        name_len(t) == m,
    decreases m,
{
    if m > 0 {
        lemma_name_len(t.skip(1), m - 1);
    }
}

/// Whether `x` is the name of one of the first `i` entries of `deps`.
pub open spec fn key_before(deps: Seq<(String, Vec<String>)>, i: int, x: Seq<char>) -> bool {
    exists|k: int| 0 <= k < i && #[trigger] deps[k].0@ == x
}

/// Variable storage and resolution.
pub struct VariableManager {
    variables: Vec<(String, String)>,
    environment: Vec<(String, String)>,
    dependencies: Vec<(String, Vec<String>)>,
}

impl VariableManager {
    /// The user-defined variables, in order of first definition.
    pub closed spec fn vars(&self) -> Seq<(String, String)> {
        self.variables@
    }

    /// The environment values that `$NAME` falls back to.
    pub closed spec fn env(&self) -> Seq<(String, String)> {
        self.environment@
    }

    /// The recorded dependencies between variables.
    pub closed spec fn deps(&self) -> Seq<(String, Vec<String>)> {
        self.dependencies@
    }

    pub closed spec fn wf(&self) -> bool {
        keys_unique(self.variables@) && keys_unique(self.environment@) && keys_unique(
            self.dependencies@,
        )
    }

    /// The value of variable `name`, if defined.
    pub open spec fn value_of(&self, name: Seq<char>) -> Option<Seq<char>> {
        match lookup(self.vars(), name) {
            Some(v) => Some(v@),
            None => None,
        }
    }

    pub fn new() -> (r: Self)
        ensures
            r.wf(),
            r.vars().len() == 0,
            r.env().len() == 0,
            r.deps().len() == 0,
    {
        VariableManager { variables: Vec::new(), environment: Vec::new(), dependencies: Vec::new() }
    }

    /// Defines or redefines a variable.
    pub fn set(&mut self, name: String, value: String)
        requires
            old(self).wf(),
        ensures
            final(self).wf(),
            final(self).value_of(name@) == Some(value@),
            forall|x: Seq<char>| x != name@ ==> final(self).value_of(x) == old(self).value_of(x),
            forall|x: Seq<char>|
                has_key(final(self).vars(), x) <==> (has_key(old(self).vars(), x) || x == name@),
            final(self).env() == old(self).env(),
            final(self).deps() == old(self).deps(),
    {
        crate::table::insert(&mut self.variables, name.as_str(), value);
    }

    /// Records an environment value that `$NAME` resolves to when no variable is named so.
    pub fn set_environment(&mut self, name: String, value: String)
        requires
            old(self).wf(),
        ensures
            final(self).wf(),
            lookup(final(self).env(), name@) == Some(value),
            forall|x: Seq<char>|
                x != name@ ==> lookup(final(self).env(), x) == lookup(old(self).env(), x),
            final(self).vars() == old(self).vars(),
            final(self).deps() == old(self).deps(),
    {
        crate::table::insert(&mut self.environment, name.as_str(), value);
    }

    /// The value of variable `name`, if defined.
    pub fn get(&self, name: &str) -> (r: Option<&str>)
        requires
            self.wf(),
        ensures
            r matches Some(v) ==> self.value_of(name@) == Some(v@),
            r is None ==> self.value_of(name@) is None,
    {
        match find_index(&self.variables, name) {
            Some(i) => {
                proof {
                    lemma_lookup_at(self.variables@, i as int);
                }
                Some(self.variables[i].1.as_str())
            },
            None => None,
        }
    }

    /// Whether variable `name` is defined.
    pub fn contains(&self, name: &str) -> (r: bool)
        ensures
            r == has_key(self.vars(), name@),
    {
        find_index(&self.variables, name).is_some()
    }

    /// All variables, as name and value pairs in order of first definition.
    pub fn all(&self) -> (r: &Vec<(String, String)>)
        ensures
            r@ == self.vars(),
    {
        &self.variables
    }

    /// Expands every `$NAME` of `input`.
    pub fn expand(&self, input: &str) -> (r: ParseResult<String>)
        requires
            self.wf(),
        ensures
            match expansion(self.vars(), self.env(), input@, Seq::empty()) {
                Ok(x) => r matches Ok(v) && v@ == x,
                Err(e) => r matches Err(ConfigError::CircularDependency { chain }) && views_of(
                    chain@,
                ) == e,
            },
    {
        let s = chars_of(input);
        let mut chain: Vec<String> = Vec::new();
        assert(views_of(chain@) =~= Seq::<Seq<char>>::empty());
        match self.expand_with_chain(&s, &mut chain) {
            Ok(v) => Ok(string_of(&v)),
            Err(e) => Err(e),
        }
    }

    fn expand_with_chain(&self, s: &Vec<char>, chain: &mut Vec<String>) -> (r: ParseResult<
        Vec<char>,
    >)
        requires
            self.wf(),
        ensures
            match expansion(self.vars(), self.env(), s@, views_of(old(chain)@)) {
                Ok(x) => r matches Ok(v) && v@ == x && final(chain)@ == old(chain)@,
                Err(e) => r matches Err(ConfigError::CircularDependency { chain: c }) && views_of(
                    c@,
                ) == e,
            },
        decreases self.vars().len() - old(chain)@.len(),
    {
        let ghost vars = self.vars();
        let ghost env = self.env();
        let ghost ch = views_of(chain@);
        let ghost t = s@;
        let ghost c0 = chain@;
        let n = s.len();
        let mut out: Vec<char> = Vec::new();
        let mut i: usize = 0;
        assert(t.skip(0) == t);
        assert(prepend(out@, expansion(vars, env, t, ch)) == expansion(vars, env, t, ch)) by {
            match expansion(vars, env, t, ch) {
                Ok(y) => { assert(out@ + y =~= y); },
                Err(_) => {},
            }
        }
        while i < n
            invariant
                self.wf(),
                vars == self.vars(),
                env == self.env(),
                n == t.len(),
                t == s@,
                chain@ == c0,
                c0 == old(chain)@,
                ch == views_of(chain@),
                0 <= i <= n,
                prepend(out@, expansion(vars, env, t.skip(i as int), ch)) == expansion(vars, env, t, ch),
            decreases n - i,
        {
            let ghost u = t.skip(i as int);
            let c = s[i];
            if c == '$' {
                let mut j: usize = i + 1;
                while j < n && name_char(s[j])
                    invariant
                        i + 1 <= j <= n,
                        n == t.len(),
                        t == s@,
                        forall|k: int| i + 1 <= k < j ==> is_name_char(t[k]),
                    decreases n - j,
                {
                    j += 1;
                }
                proof {
                    lemma_name_len(u.skip(1), j - i - 1);
                    assert(u.subrange(1, 1 + (j - i - 1)) =~= t.subrange(i + 1, j as int));
                    assert(u.skip(1 + (j - i - 1)) =~= t.skip(j as int));
                }
                let name = string_of(&sub_chars(s, i + 1, j));
                assert(name@ == t.subrange(i + 1, j as int));
                let ghost rest = t.skip(j as int);
                if self.chain_has(chain, &name) {
                    chain.push(name);
                    assert(views_of(chain@) =~= ch.push(name@));
                    return Err(ConfigError::circular_dependency(chain.clone()));
                }
                match find_index(&self.variables, name.as_str()) {
                    Some(k) => {
                        proof {
                            lemma_lookup_at(self.variables@, k as int);
                        }
                        // a chain as long as the table would repeat a name
                        if chain.len() >= self.variables.len() {
                            chain.push(name);
                            assert(views_of(chain@) =~= ch.push(name@));
                            return Err(ConfigError::circular_dependency(chain.clone()));
                        }
                        let val = chars_of(self.variables[k].1.as_str());
                        chain.push(name);
                        assert(views_of(chain@) =~= ch.push(name@));
                        let sub = self.expand_with_chain(&val, chain);
                        match sub {
                            Ok(x) => {
                                chain.pop();
                                assert(chain@ =~= c0);
                                proof {
                                    let y = expansion(vars, env, rest, ch);
                                    match y {
                                        Ok(z) => { assert(out@ + (x@ + z) =~= (out@ + x@) + z); },
                                        Err(_) => {},
                                    }
                                }
                                let mut xs = x;
                                out.append(&mut xs);
                            },
                            Err(e) => {
                                return Err(e);
                            },
                        }
                    },
                    None => {
                        let ev = self.env_value(&name);
                        match ev {
                            Some(e) => {
                                let ec = chars_of(e);
                                proof {
                                    let y = expansion(vars, env, rest, ch);
                                    match y {
                                        Ok(z) => { assert(out@ + (ec@ + z) =~= (out@ + ec@) + z); },
                                        Err(_) => {},
                                    }
                                }
                                let mut xs = ec;
                                out.append(&mut xs);
                            },
                            None => {
                                let ghost pre = out@;
                                out.push('$');
                                let nc = chars_of(name.as_str());
                                let mut xs = nc;
                                out.append(&mut xs);
                                proof {
                                    let y = expansion(vars, env, rest, ch);
                                    match y {
                                        Ok(z) => {
                                            assert(pre + ((seq!['$'] + name@) + z) =~= out@ + z);
                                        },
                                        Err(_) => {},
                                    }
                                }
                            },
                        }
                    },
                }
                i = j;
            } else {
                proof {
                    assert(u.skip(1) =~= t.skip(i + 1));
                    let y = expansion(vars, env, t.skip(i + 1), ch);
                    match y {
                        Ok(z) => { assert(out@ + (seq![c] + z) =~= out@.push(c) + z); },
                        Err(_) => {},
                    }
                }
                out.push(c);
                i += 1;
            }
        }
        proof {
            assert(t.skip(n as int).len() == 0);
            assert(out@ + Seq::<char>::empty() =~= out@);
        }
        Ok(out)
    }

    fn chain_has(&self, chain: &Vec<String>, name: &String) -> (r: bool)
        ensures
            r == views_of(chain@).contains(name@),
    {
        let mut i: usize = 0;
        while i < chain.len()
            invariant
                0 <= i <= chain@.len(),
                forall|k: int| 0 <= k < i ==> chain@[k]@ != name@,
            decreases chain@.len() - i,
        {
            if chain[i] == *name {
                assert(views_of(chain@)[i as int] == name@);
                return true;
            }
            i += 1;
        }
        assert(!views_of(chain@).contains(name@)) by {
            if views_of(chain@).contains(name@) {
                let k = choose|k: int| 0 <= k < views_of(chain@).len() && views_of(chain@)[k] == name@;
                assert(chain@[k]@ == name@);
            }
        }
        false
    }

    fn env_value(&self, name: &String) -> (r: Option<&str>)
        requires
            self.wf(),
        ensures
            r matches Some(v) ==> lookup(self.env(), name@) matches Some(e) && e@ == v@,
            r is None ==> lookup(self.env(), name@) is None,
    {
        match find_index(&self.environment, name.as_str()) {
            Some(i) => {
                proof {
                    lemma_lookup_at(self.environment@, i as int);
                }
                Some(self.environment[i].1.as_str())
            },
            None => None,
        }
    }

    /// The names of all variables, in order of first definition.
    pub fn keys(&self) -> (r: Vec<String>)
        ensures
            views_of(r@) == key_seq(self.vars()),
    {
        keys_of(&self.variables)
    }

    /// Records that variable `from` refers to variable `to`.
    pub fn add_dependency(&mut self, from: String, to: String)
        requires
            old(self).wf(),
        ensures
            final(self).wf(),
            final(self).vars() == old(self).vars(),
            final(self).env() == old(self).env(),
            lookup(final(self).deps(), from@) matches Some(d) && forall|x: Seq<char>|
                views_of(d@).contains(x) <==> (x == to@ || (lookup(old(self).deps(), from@) matches Some(
                    o,
                ) && views_of(o@).contains(x))),
            forall|x: Seq<char>|
                x != from@ ==> lookup(final(self).deps(), x) == lookup(old(self).deps(), x),
    {
        let mut targets: Vec<String> = match find_index(&self.dependencies, from.as_str()) {
            Some(i) => {
                proof {
                    lemma_lookup_at(self.dependencies@, i as int);
                }
                self.dependencies[i].1.clone()
            },
            None => Vec::new(),
        };
        let ghost pre = targets@;
        if !self.chain_has(&targets, &to) {
            targets.push(to);
            proof {
                assert(views_of(targets@) =~= views_of(pre).push(to@));
                assert forall|x: Seq<char>|
                    views_of(targets@).contains(x) <==> (x == to@ || views_of(pre).contains(x)) by {
                    if views_of(pre).contains(x) {
                        let m = choose|m: int| 0 <= m < views_of(pre).len() && views_of(pre)[m] == x;
                        assert(views_of(targets@)[m] == x);
                    }
                    if x == to@ {
                        assert(views_of(targets@)[pre.len() as int] == x);
                    }
                }
            }
        }
        crate::table::insert(&mut self.dependencies, from.as_str(), targets);
    }

    /// The variables recorded as referring to `var_name`.
    pub fn get_dependents(&self, var_name: &str) -> (r: Vec<String>)
        requires
            self.wf(),
        ensures
            forall|x: Seq<char>|
                views_of(r@).contains(x) <==> (lookup(self.deps(), x) matches Some(d) && views_of(
                    d@,
                ).contains(var_name@)),
            views_of(r@).no_duplicates(),
    {
        let target = owned(var_name);
        let mut out: Vec<String> = Vec::new();
        let mut i: usize = 0;
        while i < self.dependencies.len()
            invariant
                self.wf(),
                target@ == var_name@,
                0 <= i <= self.deps().len(),
                views_of(out@).no_duplicates(),
                forall|m: int| 0 <= m < out@.len() ==> key_before(self.deps(), i as int, #[trigger] out@[m]@),
                forall|x: Seq<char>|
                    views_of(out@).contains(x) <==> exists|k: int|
                        0 <= k < i && #[trigger] self.deps()[k].0@ == x && views_of(
                            self.deps()[k].1@,
                        ).contains(var_name@),
            decreases self.deps().len() - i,
        {
            let ghost pre = out@;
            if self.chain_has(&self.dependencies[i].1, &target) {
                out.push(self.dependencies[i].0.clone());
                assert(views_of(out@) =~= views_of(pre).push(self.deps()[i as int].0@));
                proof {
                    assert forall|m: int| 0 <= m < views_of(pre).len() implies views_of(pre)[m] != self.deps()[i as int].0@ by {
                        assert(key_before(self.deps(), i as int, pre[m]@));
                        let k = choose|k: int| 0 <= k < i && #[trigger] self.deps()[k].0@ == pre[m]@;
                        assert(views_of(pre)[m] == pre[m]@);
                    }
                    assert(views_of(out@).no_duplicates());
                }
            }
            proof {
                assert forall|m: int| 0 <= m < out@.len() implies key_before(self.deps(), i + 1, #[trigger] out@[m]@) by {
                    if m < pre.len() {
                        assert(out@[m] == pre[m]);
                        assert(key_before(self.deps(), i as int, pre[m]@));
                        let k = choose|k: int| 0 <= k < i && #[trigger] self.deps()[k].0@ == pre[m]@;
                        assert(self.deps()[k].0@ == out@[m]@);
                    } else {
                        assert(self.deps()[i as int].0@ == out@[m]@);
                    }
                }
            }
            proof {
                assert forall|x: Seq<char>|
                    views_of(out@).contains(x) <==> exists|k: int|
                        0 <= k < i + 1 && #[trigger] self.deps()[k].0@ == x && views_of(
                            self.deps()[k].1@,
                        ).contains(var_name@) by {
                    if views_of(out@).contains(x) && !views_of(pre).contains(x) {
                        assert(self.deps()[i as int].0@ == x);
                    }
                    if exists|k: int|
                        0 <= k < i + 1 && #[trigger] self.deps()[k].0@ == x && views_of(
                            self.deps()[k].1@,
                        ).contains(var_name@) {
                        let k = choose|k: int|
                            0 <= k < i + 1 && #[trigger] self.deps()[k].0@ == x && views_of(
                                self.deps()[k].1@,
                            ).contains(var_name@);
                        if k == i {
                            assert(views_of(out@).last() == x);
                        } else {
                            assert(views_of(pre).contains(x));
                            let m = choose|m: int| 0 <= m < views_of(pre).len() && views_of(pre)[m] == x;
                            assert(views_of(out@)[m] == x);
                        }
                    }
                }
            }
            i += 1;
        }
        proof {
            assert forall|x: Seq<char>|
                views_of(out@).contains(x) <==> (lookup(self.deps(), x) matches Some(d) && views_of(
                    d@,
                ).contains(var_name@)) by {
                if has_key(self.deps(), x) {
                    let k = choose|k: int| 0 <= k < self.deps().len() && #[trigger] self.deps()[k].0@ == x;
                    lemma_lookup_at(self.deps(), k);
                    if exists|k2: int|
                        0 <= k2 < self.deps().len() && #[trigger] self.deps()[k2].0@ == x && views_of(
                            self.deps()[k2].1@,
                        ).contains(var_name@) {
                        let k2 = choose|k2: int|
                            0 <= k2 < self.deps().len() && #[trigger] self.deps()[k2].0@ == x
                                && views_of(self.deps()[k2].1@).contains(var_name@);
                        assert(k2 == k);
                    }
                }
            }
        }
        out
    }

    /// Removes variable `name` and its recorded dependencies; returns its former value.
    pub fn remove(&mut self, name: &str) -> (r: Option<String>)
        requires
            old(self).wf(),
        ensures
            final(self).wf(),
            r == lookup(old(self).vars(), name@),
            final(self).value_of(name@) is None,
            forall|x: Seq<char>| x != name@ ==> final(self).value_of(x) == old(self).value_of(x),
            lookup(final(self).deps(), name@) is None,
            final(self).env() == old(self).env(),
    {
        let _ = crate::table::remove(&mut self.dependencies, name);
        crate::table::remove(&mut self.variables, name)
    }

    /// Forgets every variable and dependency.
    pub fn clear(&mut self)
        requires
            old(self).wf(),
        ensures
            final(self).wf(),
            final(self).vars().len() == 0,
            final(self).deps().len() == 0,
            final(self).env() == old(self).env(),
    {
        self.variables = Vec::new();
        self.dependencies = Vec::new();
    }
}

/// Two variables that name each other (`A = $B`, `B = $A`) make the expansion of `$A`
/// fail, with the chain `A, B, A` that led back to `A`.
pub proof fn law_mutual_reference_is_circular(
    vars: Seq<(String, String)>,
    env: Seq<(String, String)>,
    a: Seq<char>,
    b: Seq<char>,
)
    requires
        a.len() > 0,
        b.len() > 0,
        a != b,
        forall|k: int| 0 <= k < a.len() ==> is_name_char(a[k]),
        forall|k: int| 0 <= k < b.len() ==> is_name_char(b[k]),
        lookup(vars, a) matches Some(v) && v@ == seq!['$'] + b,
        lookup(vars, b) matches Some(v) && v@ == seq!['$'] + a,
    ensures
        expansion(vars, env, seq!['$'] + a, Seq::empty()) == Err::<Seq<char>, Seq<Seq<char>>>(
            seq![a, b, a],
        ),
{
    let sa = seq!['$'] + a;
    let sb = seq!['$'] + b;
    lemma_name_len(sa.skip(1), a.len() as int);
    lemma_name_len(sb.skip(1), b.len() as int);
    assert(sa.skip(1) =~= a);
    assert(sb.skip(1) =~= b);
    assert(sa.subrange(1, 1 + a.len() as int) =~= a);
    assert(sb.subrange(1, 1 + b.len() as int) =~= b);
    let i = choose|i: int| 0 <= i < vars.len() && #[trigger] vars[i].0@ == a;
    let j = choose|j: int| 0 <= j < vars.len() && #[trigger] vars[j].0@ == b;
    assert(i != j);
    assert(vars.len() >= 2);
    let e: Seq<Seq<char>> = Seq::empty();
    assert(!e.contains(a));
    let c1 = e.push(a);
    assert(c1[0] == a);
    assert(!c1.contains(b));
    let c2 = c1.push(b);
    assert(c2[0] == a);
    assert(c2.contains(a));
    assert(c2.push(a) =~= seq![a, b, a]);
    assert(sa[0] == '$');
    assert(sb[0] == '$');
    assert(expansion(vars, env, sa, c2) == Err::<Seq<char>, Seq<Seq<char>>>(c2.push(a)));
    assert(expansion(vars, env, sb, c1) == Err::<Seq<char>, Seq<Seq<char>>>(c2.push(a)));
    assert(expansion(vars, env, sa, e) == Err::<Seq<char>, Seq<Seq<char>>>(c2.push(a)));
}

} // verus!
