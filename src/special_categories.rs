//! Special categories: blocks that may stand several times, each instance with its own
//! properties, seeded from the category's default values.
use vstd::prelude::*;
use crate::error::{ConfigError, ParseResult};
use crate::table::{find_index, has_key, keys_of, keys_unique, lookup, key_seq, views_of, lemma_lookup_at};
use crate::text::owned;

verus! {

/// How the instances of a special category get their keys.
#[derive(Debug, Clone, Copy, PartialEq, Eq, Structural)]
pub enum SpecialCategoryType {
    /// `category[key] { ... }`: the key is written.
    Keyed,
    /// `category { ... }`: a single instance, keyed `static`.
    Static,
    /// Each block is a new instance, keyed `anonymous_0`, `anonymous_1`, ...
    Anonymous,
}

/// The registration of a special category.
pub struct SpecialCategoryDescriptor<V> {
    /// The category's name.
    pub name: String,
    /// How instances are keyed.
    pub category_type: SpecialCategoryType,
    /// The property that holds the key, for keyed categories.
    pub key_field: Option<String>,
    /// The default values of properties, by property name.
    pub default_values: Vec<(String, V)>,
}

impl<V> SpecialCategoryDescriptor<V> {
    /// A keyed category.
    pub fn keyed(name: &str, key_field: &str) -> (r: Self)
        ensures
            r.name@ == name@,
            r.category_type == SpecialCategoryType::Keyed,
            r.key_field matches Some(k) && k@ == key_field@,
            r.default_values@.len() == 0,
    {
        SpecialCategoryDescriptor {
            name: owned(name),
            category_type: SpecialCategoryType::Keyed,
            key_field: Some(owned(key_field)),
            default_values: Vec::new(),
        }
    }

    /// A static category.
    pub fn static_category(name: &str) -> (r: Self)
        ensures
            r.name@ == name@,
            r.category_type == SpecialCategoryType::Static,
            r.key_field is None,
            r.default_values@.len() == 0,
    {
        SpecialCategoryDescriptor {
            name: owned(name),
            category_type: SpecialCategoryType::Static,
            key_field: None,
            default_values: Vec::new(),
        }
    }

    /// An anonymous category.
    pub fn anonymous(name: &str) -> (r: Self)
        ensures
            r.name@ == name@,
            r.category_type == SpecialCategoryType::Anonymous,
            r.key_field is None,
            r.default_values@.len() == 0,
    {
        SpecialCategoryDescriptor {
            name: owned(name),
            category_type: SpecialCategoryType::Anonymous,
            key_field: None,
            default_values: Vec::new(),
        }
    }

    /// The same descriptor with `value` as the default of `property`.
    pub fn with_default(self, property: &str, value: V) -> (r: Self)
        requires
            keys_unique(self.default_values@),
        ensures
            r.name == self.name,
            r.category_type == self.category_type,
            r.key_field == self.key_field,
            keys_unique(r.default_values@),
            lookup(r.default_values@, property@) == Some(value),
            forall|p: Seq<char>|
                p != property@ ==> lookup(r.default_values@, p) == lookup(self.default_values@, p),
    {
        let mut d = self;
        crate::table::insert(&mut d.default_values, property, value);
        d
    }
}

/// One instance of a special category.
pub struct SpecialCategoryInstance<V> {
    /// The instance's key.
    pub key: Option<String>,
    /// The instance's properties, by name.
    pub values: Vec<(String, V)>,
    /// Whether the instance came from the configuration rather than from defaults.
    pub set_by_user: bool,
}

impl<V> SpecialCategoryInstance<V> {
    pub fn new(key: Option<String>) -> (r: Self)
        ensures
            r.key == key,
            r.values@.len() == 0,
            r.set_by_user,
    {
        SpecialCategoryInstance { key, values: Vec::new(), set_by_user: true }
    }

    /// The value of property `key`.
    pub fn get(&self, key: &str) -> (r: Option<&V>)
        requires
            keys_unique(self.values@),
        ensures
            match lookup(self.values@, key@) {
                Some(v) => r == Some(&v),
                None => r is None,
            },
    {
        match find_index(&self.values, key) {
            Some(i) => {
                proof {
                    lemma_lookup_at(self.values@, i as int);
                }
                Some(&self.values[i].1)
            },
            None => None,
        }
    }

    /// Sets property `key` to `value`.
    pub fn set(&mut self, key: String, value: V)
        requires
            keys_unique(old(self).values@),
        ensures
            keys_unique(final(self).values@),
            lookup(final(self).values@, key@) == Some(value),
            forall|p: Seq<char>|
                p != key@ ==> lookup(final(self).values@, p) == lookup(old(self).values@, p),
            final(self).key == old(self).key,
            final(self).set_by_user == old(self).set_by_user,
    {
        crate::table::insert(&mut self.values, key.as_str(), value);
    }

    /// Whether property `key` is set.
    pub fn contains(&self, key: &str) -> (r: bool)
        ensures
            r == has_key(self.values@, key@),
    {
        find_index(&self.values, key).is_some()
    }
}

/// The key that instance number `n` of an anonymous category gets.
pub open spec fn anonymous_key(n: nat) -> Seq<char> {
    "anonymous_"@ + crate::expressions::decimal(n as int)
}

/// The registered special categories and their instances.
pub struct SpecialCategoryManager<V> {
    descriptors: Vec<(String, SpecialCategoryDescriptor<V>)>,
    instances: Vec<(String, Vec<(String, SpecialCategoryInstance<V>)>)>,
    anonymous_counters: Vec<(String, usize)>,
}

/// Whether `inst` is a fresh instance keyed `key` holding clones of the defaults `d`.
pub open spec fn seeded<V: Clone>(inst: SpecialCategoryInstance<V>, key: Seq<char>, d: Seq<(String, V)>) -> bool {
    &&& inst.key matches Some(k) && k@ == key
    &&& inst.set_by_user
    &&& inst.values@.len() == d.len()
    &&& forall|i: int| 0 <= i < d.len() ==> copy_of(#[trigger] inst.values@[i], d[i])
}

/// Whether property `p` is a copy of the default `q`: the same name and a clone of its value.
pub open spec fn copy_of<V: Clone>(p: (String, V), q: (String, V)) -> bool {
    p.0@ == q.0@ && cloned(q.1, p.1)
}

impl<V: Clone> SpecialCategoryManager<V> {
    /// The descriptor registered as `name`.
    pub closed spec fn descriptor(&self, name: Seq<char>) -> Option<SpecialCategoryDescriptor<V>> {
        lookup(self.descriptors@, name)
    }

    /// The instance `key` of category `name`.
    pub closed spec fn instance(&self, name: Seq<char>, key: Seq<char>) -> Option<SpecialCategoryInstance<V>> {
        match lookup(self.instances@, name) {
            Some(t) => lookup(t@, key),
            None => None,
        }
    }

    /// Whether category `name` has a table of instances.
    pub closed spec fn has_table(&self, name: Seq<char>) -> bool {
        has_key(self.instances@, name)
    }

    /// The keys of the instances of `name`, in order of creation.
    pub closed spec fn instance_keys(&self, name: Seq<char>) -> Seq<Seq<char>> {
        match lookup(self.instances@, name) {
            Some(t) => key_seq(t@),
            None => Seq::empty(),
        }
    }

    /// How many anonymous instances of `name` were created.
    pub closed spec fn counter(&self, name: Seq<char>) -> nat {
        match lookup(self.anonymous_counters@, name) {
            Some(n) => n as nat,
            None => 0,
        }
    }

    pub closed spec fn wf(&self) -> bool {
        &&& keys_unique(self.descriptors@)
        &&& keys_unique(self.instances@)
        &&& keys_unique(self.anonymous_counters@)
        &&& forall|c: Seq<char>|
            #[trigger] lookup(self.instances@, c) matches Some(t) ==> keys_unique(t@)
        &&& forall|c: Seq<char>, k: Seq<char>|
            #[trigger] self.instance(c, k) is Some ==> keys_unique(self.instance(c, k)->0.values@)
        &&& forall|c: Seq<char>|
            #[trigger] lookup(self.descriptors@, c) matches Some(d) ==> keys_unique(d.default_values@)
    }

    pub fn new() -> (r: Self)
        ensures
            r.wf(),
            forall|n: Seq<char>| r.descriptor(n) is None && !r.has_table(n) && r.counter(n) == 0,
    {
        let r = SpecialCategoryManager {
            descriptors: Vec::new(),
            instances: Vec::new(),
            anonymous_counters: Vec::new(),
        };
        assert forall|c: Seq<char>| #[trigger] lookup(r.instances@, c) is None by {}
        assert forall|c: Seq<char>| #[trigger] lookup(r.descriptors@, c) is None by {}
        r
    }

    /// Registers `descriptor` under its name, replacing an earlier one.
    pub fn register(&mut self, descriptor: SpecialCategoryDescriptor<V>)
        requires
            old(self).wf(),
            keys_unique(descriptor.default_values@),
        ensures
            final(self).wf(),
            final(self).descriptor(descriptor.name@) == Some(descriptor),
            forall|n: Seq<char>| n != descriptor.name@ ==> final(self).descriptor(n) == old(self).descriptor(n),
            forall|n: Seq<char>, k: Seq<char>| final(self).instance(n, k) == old(self).instance(n, k),
            forall|n: Seq<char>| final(self).counter(n) == old(self).counter(n),
    {
        let name = descriptor.name.clone();
        crate::table::insert(&mut self.descriptors, name.as_str(), descriptor);
        proof {
            assert forall|c: Seq<char>, k: Seq<char>| #[trigger] self.instance(c, k) is Some implies keys_unique(
                self.instance(c, k)->0.values@,
            ) by {
                assert(self.instance(c, k) == old(self).instance(c, k));
            }
        }
    }

    /// Whether `name` is registered.
    pub fn is_registered(&self, name: &str) -> (r: bool)
        ensures
            r == self.descriptor(name@) is Some,
    {
        find_index(&self.descriptors, name).is_some()
    }

    /// The descriptor registered as `name`.
    pub fn get_descriptor(&self, name: &str) -> (r: Option<&SpecialCategoryDescriptor<V>>)
        requires
            self.wf(),
        ensures
            match self.descriptor(name@) {
                Some(d) => r == Some(&d),
                None => r is None,
            },
    {
        match find_index(&self.descriptors, name) {
            Some(i) => {
                proof {
                    lemma_lookup_at(self.descriptors@, i as int);
                }
                Some(&self.descriptors[i].1)
            },
            None => None,
        }
    }

    /// Creates an instance of category `category_name` and returns its key: a keyed category
    /// needs `key`, a static one is keyed `static`, an anonymous one gets the next
    /// `anonymous_N`; the others refuse a `key`. The instance starts with the defaults.
    pub fn create_instance(&mut self, category_name: &str, key: Option<String>) -> (r: ParseResult<String>)
        requires
            old(self).wf(),
        ensures
            final(self).wf(),
            forall|n: Seq<char>| final(self).descriptor(n) == old(self).descriptor(n),
            match old(self).descriptor(category_name@) {
                None => (r matches Err(ConfigError::CategoryNotFound { category: c, key: None }) && c@
                    == category_name@) && *final(self) == *old(self),
                Some(d) => {
                    let expected: Option<Seq<char>> = match d.category_type {
                        SpecialCategoryType::Keyed => match key {
                            Some(k) => Some(k@),
                            None => None,
                        },
                        SpecialCategoryType::Static => if key is Some {
                            None
                        } else {
                            Some("static"@)
                        },
                        SpecialCategoryType::Anonymous => if key is Some || old(self).counter(
                            category_name@,
                        ) >= usize::MAX {
                            None
                        } else {
                            Some(anonymous_key(old(self).counter(category_name@)))
                        },
                    };
                    match expected {
                        None => (r matches Err(ConfigError::Custom { .. })) && *final(self) == *old(self),
                        Some(k) => {
                            &&& r matches Ok(s) && s@ == k
                            &&& final(self).instance(category_name@, k) matches Some(inst) && seeded(
                                inst,
                                k,
                                d.default_values@,
                            )
                            &&& forall|n: Seq<char>, j: Seq<char>|
                                n != category_name@ || j != k ==> final(self).instance(n, j) == old(
                                    self,
                                ).instance(n, j)
                            &&& forall|n: Seq<char>|
                                n != category_name@ ==> final(self).counter(n) == old(self).counter(n)
                            &&& final(self).counter(category_name@) == if d.category_type
                                == SpecialCategoryType::Anonymous {
                                old(self).counter(category_name@) + 1
                            } else {
                                old(self).counter(category_name@)
                            }
                        },
                    }
                },
            },
    {
        let di = match find_index(&self.descriptors, category_name) {
            Some(i) => i,
            None => return Err(ConfigError::category_not_found(category_name, None)),
        };
        proof {
            lemma_lookup_at(self.descriptors@, di as int);
            reveal_strlit("static");
        }
        let kind = self.descriptors[di].1.category_type;
        let mut next_counter: Option<usize> = None;
        let instance_key: String = match kind {
            SpecialCategoryType::Keyed => match key {
                Some(k) => k,
                None => return Err(ConfigError::custom("a keyed category needs a key")),
            },
            SpecialCategoryType::Static => {
                if key.is_some() {
                    return Err(ConfigError::custom("a static category takes no key"));
                }
                owned("static")
            },
            SpecialCategoryType::Anonymous => {
                if key.is_some() {
                    return Err(ConfigError::custom("an anonymous category takes no key"));
                }
                let n: usize = match find_index(&self.anonymous_counters, category_name) {
                    Some(ci) => {
                        proof {
                            lemma_lookup_at(self.anonymous_counters@, ci as int);
                        }
                        self.anonymous_counters[ci].1
                    },
                    None => 0,
                };
                if n == usize::MAX {
                    return Err(ConfigError::custom("too many anonymous instances"));
                }
                next_counter = Some(n + 1);
                let mut text: Vec<char> = crate::text::chars_of("anonymous_");
                crate::expressions::push_digits(&mut text, n as u64);
                assert(text@ =~= anonymous_key(n as nat));
                crate::text::string_of(&text)
            },
        };
        let mut instance: SpecialCategoryInstance<V> = SpecialCategoryInstance::new(Some(instance_key.clone()));
        let defaults = &self.descriptors[di].1.default_values;
        let mut i: usize = 0;
        while i < defaults.len()
            invariant
                0 <= i <= defaults@.len(),
                instance.key == Some(instance_key),
                instance.set_by_user,
                instance.values@.len() == i,
                forall|j: int| 0 <= j < i ==> copy_of(#[trigger] instance.values@[j], defaults@[j]),
            decreases defaults@.len() - i,
        {
            let name = defaults[i].0.clone();
            let value = defaults[i].1.clone();
            assert(vstd::pervasive::strictly_cloned(defaults@[i as int].1, value));
            let ghost pre = instance.values@;
            instance.values.push((name, value));
            proof {
                assert(forall|j: int| 0 <= j < i ==> instance.values@[j] == pre[j]);
                assert(copy_of(instance.values@[i as int], defaults@[i as int]));
            }
            i += 1;
        }
        let ghost fresh = instance;
        proof {
            assert(keys_unique(instance.values@)) by {
                assert forall|a: int, b: int| 0 <= a < b < instance.values@.len() implies instance.values@[a].0@
                    != instance.values@[b].0@ by {
                    assert(copy_of(instance.values@[a], defaults@[a]));
                    assert(copy_of(instance.values@[b], defaults@[b]));
                }
            }
        }
        let mut table = match crate::table::remove(&mut self.instances, category_name) {
            Some(t) => t,
            None => Vec::new(),
        };
        let ghost before = table@;
        crate::table::insert(&mut table, instance_key.as_str(), instance);
        crate::table::insert(&mut self.instances, category_name, table);
        match next_counter {
            Some(c) => crate::table::insert(&mut self.anonymous_counters, category_name, c),
            None => {},
        }
        proof {
            assert forall|n: Seq<char>, j: Seq<char>|
                n != category_name@ || j != instance_key@ implies self.instance(n, j) == old(self).instance(n, j) by {
                if n == category_name@ {
                    match lookup(old(self).instances@, n) {
                        Some(t) => { assert(before == t@); },
                        None => { assert(before.len() == 0); assert(!has_key(before, j)); },
                    }
                }
            }
            assert forall|c: Seq<char>, k: Seq<char>| #[trigger] self.instance(c, k) is Some implies keys_unique(self.instance(c, k)->0.values@) by {
                if c != category_name@ || k != instance_key@ {
                    assert(self.instance(c, k) == old(self).instance(c, k));
                }
            }
        }
        Ok(instance_key)
    }

    fn locate(&self, category_name: &str, key: &str) -> (r: Option<(usize, usize)>)
        requires
            self.wf(),
        ensures
            match r {
                Some((c, k)) => c < self.instances@.len() && k < self.instances@[c as int].1@.len()
                    && self.instances@[c as int].0@ == category_name@ && self.instances@[c as int].1@[k as int].0@ == key@
                    && self.instance(category_name@, key@) == Some(self.instances@[c as int].1@[k as int].1),
                None => self.instance(category_name@, key@) is None,
            },
    {
        match find_index(&self.instances, category_name) {
            Some(c) => {
                proof {
                    lemma_lookup_at(self.instances@, c as int);
                }
                match find_index(&self.instances[c].1, key) {
                    Some(k) => {
                        proof {
                            lemma_lookup_at(self.instances@[c as int].1@, k as int);
                        }
                        Some((c, k))
                    },
                    None => None,
                }
            },
            None => None,
        }
    }

    /// The instance `key` of category `category_name`.
    pub fn get_instance(&self, category_name: &str, key: &str) -> (r: ParseResult<&SpecialCategoryInstance<V>>)
        requires
            self.wf(),
        ensures
            r matches Ok(x) ==> keys_unique(x.values@),
            match self.instance(category_name@, key@) {
                Some(inst) => r == Ok::<&SpecialCategoryInstance<V>, ConfigError>(&inst),
                None => r matches Err(ConfigError::CategoryNotFound { category: c, key: Some(k) }) && c@
                    == category_name@ && k@ == key@,
            },
    {
        match self.locate(category_name, key) {
            Some((c, k)) => Ok(&self.instances[c].1[k].1),
            None => Err(ConfigError::category_not_found(category_name, Some(owned(key)))),
        }
    }

    /// Whether category `category_name` has an instance `key`.
    pub fn instance_exists(&self, category_name: &str, key: &str) -> (r: bool)
        requires
            self.wf(),
        ensures
            r == self.instance(category_name@, key@) is Some,
    {
        self.locate(category_name, key).is_some()
    }

    /// The keys of the instances of `category_name`, in order of creation.
    pub fn list_keys(&self, category_name: &str) -> (r: Vec<String>)
        requires
            self.wf(),
        ensures
            views_of(r@) == self.instance_keys(category_name@),
    {
        match find_index(&self.instances, category_name) {
            Some(c) => {
                proof {
                    lemma_lookup_at(self.instances@, c as int);
                }
                keys_of(&self.instances[c].1)
            },
            None => {
                assert(views_of(Seq::<String>::empty()) =~= Seq::<Seq<char>>::empty());
                Vec::new()
            },
        }
    }

    /// Removes the instance `key` of category `category_name`; removing an instance that
    /// does not exist fails.
    pub fn remove_instance(&mut self, category_name: &str, key: &str) -> (r: ParseResult<()>)
        requires
            old(self).wf(),
        ensures
            final(self).wf(),
            forall|n: Seq<char>| final(self).descriptor(n) == old(self).descriptor(n),
            forall|n: Seq<char>| final(self).counter(n) == old(self).counter(n),
            !old(self).has_table(category_name@) ==> (r matches Err(ConfigError::CategoryNotFound { category: c, key: None })
                && c@ == category_name@ && *final(self) == *old(self)),
            old(self).has_table(category_name@) && old(self).instance(category_name@, key@) is None ==> (r matches Err(
                ConfigError::CategoryNotFound { category: c, key: Some(k) },
            ) && c@ == category_name@ && k@ == key@),
            old(self).instance(category_name@, key@) is Some ==> r is Ok && final(self).instance(category_name@, key@) is None,
            forall|n: Seq<char>, j: Seq<char>|
                n != category_name@ || j != key@ ==> final(self).instance(n, j) == old(self).instance(n, j),
    {
        if find_index(&self.instances, category_name).is_none() {
            return Err(ConfigError::category_not_found(category_name, None));
        }
        let ghost pre = self.instances@;
        let mut table = match crate::table::remove(&mut self.instances, category_name) {
            Some(t) => t,
            None => Vec::new(),
        };
        let ghost before = table@;
        let gone = crate::table::remove(&mut table, key);
        crate::table::insert(&mut self.instances, category_name, table);
        proof {
            assert forall|n: Seq<char>, j: Seq<char>|
                n != category_name@ || j != key@ implies self.instance(n, j) == old(self).instance(n, j) by {
                if n == category_name@ {
                    assert(lookup(pre, n)->0@ == before);
                }
            }
            assert(lookup(pre, category_name@)->0@ == before);
            assert forall|c: Seq<char>, k: Seq<char>| #[trigger] self.instance(c, k) is Some implies keys_unique(self.instance(c, k)->0.values@) by {
                if c != category_name@ || k != key@ {
                    assert(self.instance(c, k) == old(self).instance(c, k));
                }
            }
        }
        match gone {
            Some(_) => Ok(()),
            None => Err(ConfigError::category_not_found(category_name, Some(owned(key)))),
        }
    }

    /// Forgets every instance and restarts the anonymous numbering; descriptors stay.
    pub fn clear_instances(&mut self)
        requires
            old(self).wf(),
        ensures
            final(self).wf(),
            forall|n: Seq<char>| final(self).descriptor(n) == old(self).descriptor(n),
            forall|n: Seq<char>| !final(self).has_table(n) && final(self).counter(n) == 0,
            forall|n: Seq<char>, j: Seq<char>| final(self).instance(n, j) is None,
    {
        self.instances = Vec::new();
        self.anonymous_counters = Vec::new();
        assert forall|c: Seq<char>| #[trigger] lookup(self.instances@, c) is None by {}
    }

    /// The instance `key` of category `category_name`, to be changed in place.
    pub fn get_instance_mut(&mut self, category_name: &str, key: &str) -> (r: ParseResult<&mut SpecialCategoryInstance<V>>)
        requires
            old(self).wf(),
        ensures
            match old(self).instance(category_name@, key@) {
                Some(inst) => r matches Ok(x) && *x == inst,
                None => r matches Err(ConfigError::CategoryNotFound { category: c, key: Some(k) }) && c@
                    == category_name@ && k@ == key@,
            },
    {
        match self.locate(category_name, key) {
            Some((c, k)) => {
                let table = &mut self.instances[c].1;
                let entry = &mut table[k];
                Ok(&mut entry.1)
            },
            None => Err(ConfigError::category_not_found(category_name, Some(owned(key)))),
        }
    }

    /// The instances of `category_name`, in order of creation.
    pub fn get_all_instances(&self, category_name: &str) -> (r: Vec<&SpecialCategoryInstance<V>>)
        requires
            self.wf(),
        ensures
            r@.len() == self.instance_keys(category_name@).len(),
            forall|i: int|
                0 <= i < r@.len() ==> self.instance(category_name@, self.instance_keys(category_name@)[i])
                    == Some(*r@[i]),
    {
        let mut out: Vec<&SpecialCategoryInstance<V>> = Vec::new();
        match find_index(&self.instances, category_name) {
            Some(c) => {
                proof {
                    lemma_lookup_at(self.instances@, c as int);
                }
                let table = &self.instances[c].1;
                let mut i: usize = 0;
                while i < table.len()
                    invariant
                        0 <= i <= table@.len(),
                        out@.len() == i,
                        lookup(self.instances@, category_name@) == Some(*table),
                        keys_unique(table@),
                        forall|j: int| 0 <= j < i ==> *out@[j] == table@[j].1,
                    decreases table@.len() - i,
                {
                    out.push(&table[i].1);
                    i += 1;
                }
                proof {
                    assert forall|j: int| 0 <= j < out@.len() implies self.instance(
                        category_name@,
                        self.instance_keys(category_name@)[j],
                    ) == Some(*out@[j]) by {
                        lemma_lookup_at(table@, j);
                    }
                }
            },
            None => {},
        }
        out
    }

    /// Sets property `property` of instance `key` of category `category_name` to `value`.
    pub fn set_property(&mut self, category_name: &str, key: &str, property: String, value: V) -> (r: ParseResult<()>)
        requires
            old(self).wf(),
        ensures
            final(self).wf(),
            forall|n: Seq<char>| final(self).descriptor(n) == old(self).descriptor(n),
            forall|n: Seq<char>| final(self).counter(n) == old(self).counter(n),
            forall|n: Seq<char>, j: Seq<char>|
                n != category_name@ || j != key@ ==> final(self).instance(n, j) == old(self).instance(n, j),
            match old(self).instance(category_name@, key@) {
                Some(inst) => r is Ok && (final(self).instance(category_name@, key@) matches Some(now) && lookup(
                    now.values@,
                    property@,
                ) == Some(value) && (forall|p: Seq<char>|
                    p != property@ ==> lookup(now.values@, p) == lookup(inst.values@, p))),
                None => r is Err && *final(self) == *old(self),
            },
    {
        match self.locate(category_name, key) {
            Some(_) => {},
            None => return Err(ConfigError::category_not_found(category_name, Some(owned(key)))),
        }
        let ghost pre = self.instances@;
        let mut table = match crate::table::remove(&mut self.instances, category_name) {
            Some(t) => t,
            None => Vec::new(),
        };
        let ghost before = table@;
        let mut inst = match crate::table::remove(&mut table, key) {
            Some(x) => x,
            None => SpecialCategoryInstance::new(None),
        };
        let ghost old_inst = inst;
        crate::table::insert(&mut inst.values, property.as_str(), value);
        let ghost mid = table@;
        crate::table::insert(&mut table, key, inst);
        crate::table::insert(&mut self.instances, category_name, table);
        proof {
            assert(lookup(pre, category_name@)->0@ == before);
            assert forall|n: Seq<char>, j: Seq<char>|
                n != category_name@ || j != key@ implies self.instance(n, j) == old(self).instance(n, j) by {
                if n == category_name@ {
                    assert(lookup(pre, n)->0@ == before);
                }
            }
            assert forall|c: Seq<char>, k: Seq<char>| #[trigger] self.instance(c, k) is Some implies keys_unique(self.instance(c, k)->0.values@) by {
                if c != category_name@ || k != key@ {
                    assert(self.instance(c, k) == old(self).instance(c, k));
                }
            }
        }
        Ok(())
    }
}

} // verus!
