//! Several source files edited together: one document per file, the file that owns each key,
//! and the files changed since the last save.
use vstd::prelude::*;
use crate::document::{render, ConfigDocument};
use crate::error::{ConfigError, ParseResult};
use crate::table::{find_index, keys_of, keys_unique, lookup, key_seq, views_of, lemma_lookup_at};
use crate::text::owned;

verus! {

/// The documents of a primary file and of the files it includes.
pub struct MultiFileDocument {
    primary_path: String,
    documents: Vec<(String, ConfigDocument)>,
    key_sources: Vec<(String, String)>,
    dirty: Vec<String>,
}

/// Whether some entry of `out` is for file `p`.
pub open spec fn names_file(out: Seq<(String, String)>, p: Seq<char>) -> bool {
    exists|j: int| 0 <= j < out.len() && #[trigger] out[j].0@ == p
}

/// Whether `p` is among the first `i` entries of `d`.
pub open spec fn listed_before(d: Seq<String>, i: int, p: Seq<char>) -> bool {
    exists|k: int| 0 <= k < i && #[trigger] d[k]@ == p
}

/// `after` is `before` with an edit of `key` applied in the document of the key's owner:
/// the owner is marked changed and owns the key, and no other file's document changes.
pub open spec fn edited(before: MultiFileDocument, after: MultiFileDocument, key: Seq<char>) -> bool {
    let o = before.owner(key);
    &&& before.document(o) is Some
    &&& after.document(o) is Some
    &&& after.dirty_files() == before.dirty_files().insert(o)
    &&& forall|p: Seq<char>| p != o ==> after.document(p) == before.document(p)
    &&& after.source_of(key) == Some(o)
    &&& forall|k: Seq<char>| k != key ==> after.source_of(k) == before.source_of(k)
    &&& after.primary() == before.primary()
}

/// Editing a key owned by one file, starting with no file changed, leaves exactly that file
/// changed and every other file's document as it was; `save_all` then hands back that file
/// alone.
pub proof fn law_only_owner_is_rewritten(before: MultiFileDocument, after: MultiFileDocument, key: Seq<char>)
    requires
        before.dirty_files().is_empty(),
        edited(before, after, key),
    ensures
        after.dirty_files() == Set::empty().insert(before.owner(key)),
        forall|p: Seq<char>| p != before.owner(key) ==> after.document(p) == before.document(p),
{
    assert(before.dirty_files() =~= Set::<Seq<char>>::empty());
}

impl MultiFileDocument {
    /// The primary file.
    pub closed spec fn primary(&self) -> Seq<char> {
        self.primary_path@
    }

    /// The document of file `path`.
    pub closed spec fn document(&self, path: Seq<char>) -> Option<ConfigDocument> {
        lookup(self.documents@, path)
    }

    /// Every file, in order of addition.
    pub closed spec fn paths(&self) -> Seq<Seq<char>> {
        key_seq(self.documents@)
    }

    /// The file that owns `key`, as registered.
    pub closed spec fn source_of(&self, key: Seq<char>) -> Option<Seq<char>> {
        match lookup(self.key_sources@, key) {
            Some(p) => Some(p@),
            None => None,
        }
    }

    /// The file whose document an edit of `key` goes to: its owner, else the primary file.
    pub open spec fn owner(&self, key: Seq<char>) -> Seq<char> {
        match self.source_of(key) {
            Some(p) => p,
            None => self.primary(),
        }
    }

    /// The files changed since the last save.
    pub closed spec fn dirty_files(&self) -> Set<Seq<char>> {
        Set::new(|p: Seq<char>| views_of(self.dirty@).contains(p))
    }

    pub closed spec fn wf(&self) -> bool {
        &&& keys_unique(self.documents@)
        &&& keys_unique(self.key_sources@)
        &&& views_of(self.dirty@).no_duplicates()
        &&& forall|p: Seq<char>| #[trigger] lookup(self.documents@, p) is Some ==> lookup(self.documents@, p)->0.wf()
    }

    /// A set of files whose primary file is `primary_path`, with its document.
    pub fn new(primary_path: &str, document: ConfigDocument) -> (r: Self)
        requires
            document.wf(),
        ensures
            r.wf(),
            r.primary() == primary_path@,
            r.document(primary_path@) == Some(document),
            forall|p: Seq<char>| p != primary_path@ ==> r.document(p) is None,
            forall|k: Seq<char>| r.source_of(k) is None,
            r.dirty_files().is_empty(),
    {
        let mut documents: Vec<(String, ConfigDocument)> = Vec::new();
        crate::table::insert(&mut documents, primary_path, document);
        let r = MultiFileDocument {
            primary_path: owned(primary_path),
            documents,
            key_sources: Vec::new(),
            dirty: Vec::new(),
        };
        proof {
            assert(views_of(r.dirty@) =~= Seq::<Seq<char>>::empty());
            assert(r.dirty_files() =~= Set::<Seq<char>>::empty());
            assert forall|p: Seq<char>| #[trigger] lookup(r.documents@, p) is Some implies lookup(r.documents@, p)->0.wf() by {
                if p == primary_path@ {
                }
            }
        }
        r
    }

    /// Adds (or replaces) the document of file `path`.
    pub fn add_document(&mut self, path: &str, document: ConfigDocument)
        requires
            old(self).wf(),
            document.wf(),
        ensures
            final(self).wf(),
            final(self).document(path@) == Some(document),
            forall|p: Seq<char>| p != path@ ==> final(self).document(p) == old(self).document(p),
            final(self).primary() == old(self).primary(),
            forall|k: Seq<char>| final(self).source_of(k) == old(self).source_of(k),
            final(self).dirty_files() == old(self).dirty_files(),
    {
        crate::table::insert(&mut self.documents, path, document);
        proof {
            assert forall|p: Seq<char>| #[trigger] lookup(self.documents@, p) is Some implies lookup(self.documents@, p)->0.wf() by {
                if p != path@ {
                    assert(lookup(self.documents@, p) == lookup(old(self).documents@, p));
                }
            }
        }
    }

    /// Records that `key` is defined in file `path`.
    pub fn register_key(&mut self, key: &str, path: &str)
        requires
            old(self).wf(),
        ensures
            final(self).wf(),
            final(self).source_of(key@) == Some(path@),
            forall|k: Seq<char>| k != key@ ==> final(self).source_of(k) == old(self).source_of(k),
            forall|p: Seq<char>| final(self).document(p) == old(self).document(p),
            final(self).primary() == old(self).primary(),
            final(self).dirty_files() == old(self).dirty_files(),
    {
        crate::table::insert(&mut self.key_sources, key, owned(path));
    }

    /// The file that owns `key`, as registered.
    pub fn get_key_source(&self, key: &str) -> (r: Option<&String>)
        requires
            self.wf(),
        ensures
            match self.source_of(key@) {
                Some(p) => r matches Some(s) && s@ == p,
                None => r is None,
            },
    {
        match find_index(&self.key_sources, key) {
            Some(i) => {
                proof {
                    lemma_lookup_at(self.key_sources@, i as int);
                }
                Some(&self.key_sources[i].1)
            },
            None => None,
        }
    }

    /// The document of file `path`.
    pub fn get_document(&self, path: &str) -> (r: Option<&ConfigDocument>)
        requires
            self.wf(),
        ensures
            match self.document(path@) {
                Some(d) => r == Some(&d),
                None => r is None,
            },
    {
        match find_index(&self.documents, path) {
            Some(i) => {
                proof {
                    lemma_lookup_at(self.documents@, i as int);
                }
                Some(&self.documents[i].1)
            },
            None => None,
        }
    }

    /// Every file, in order of addition.
    pub fn get_all_paths(&self) -> (r: Vec<String>)
        ensures
            views_of(r@) == self.paths(),
    {
        keys_of(&self.documents)
    }

    /// Marks file `path` as changed.
    pub fn mark_dirty(&mut self, path: &str)
        requires
            old(self).wf(),
        ensures
            final(self).wf(),
            final(self).dirty_files() == old(self).dirty_files().insert(path@),
            forall|p: Seq<char>| final(self).document(p) == old(self).document(p),
            forall|k: Seq<char>| final(self).source_of(k) == old(self).source_of(k),
            final(self).primary() == old(self).primary(),
    {
        let ghost pre = views_of(self.dirty@);
        let mut i: usize = 0;
        while i < self.dirty.len()
            invariant
                0 <= i <= self.dirty@.len(),
                pre == views_of(self.dirty@),
                *self == *old(self),
                self.wf(),
                forall|k: int| 0 <= k < i ==> self.dirty@[k]@ != path@,
            decreases self.dirty@.len() - i,
        {
            if crate::text::str_eq(self.dirty[i].as_str(), path) {
                proof {
                    assert(pre[i as int] == path@);
                    assert(pre.contains(path@));
                    assert(self.dirty_files().insert(path@) =~= self.dirty_files());
                }
                return;
            }
            i += 1;
        }
        self.dirty.push(owned(path));
        proof {
            assert(views_of(self.dirty@) =~= pre.push(path@));
            assert(!pre.contains(path@)) by {
                if pre.contains(path@) {
                    let k = choose|k: int| 0 <= k < pre.len() && pre[k] == path@;
                    assert(old(self).dirty@[k]@ == path@);
                }
            }
            assert forall|p: Seq<char>| pre.push(path@).contains(p) <==> (pre.contains(p) || p == path@) by {
                if pre.contains(p) {
                    let k = choose|k: int| 0 <= k < pre.len() && pre[k] == p;
                    assert(pre.push(path@)[k] == p);
                }
                if p == path@ {
                    assert(pre.push(path@)[pre.len() as int] == p);
                }
            }
            assert(self.dirty_files() =~= old(self).dirty_files().insert(path@));
        }
    }

    /// The files changed since the last save, in the order they were first changed.
    pub fn get_dirty_files(&self) -> (r: Vec<String>)
        ensures
            forall|p: Seq<char>| views_of(r@).contains(p) <==> self.dirty_files().contains(p),
            self.wf() ==> views_of(r@).no_duplicates(),
    {
        crate::text::clone_strings(self.dirty.as_slice())
    }

    /// Forgets which files changed.
    pub fn clear_dirty(&mut self)
        requires
            old(self).wf(),
        ensures
            final(self).wf(),
            final(self).dirty_files().is_empty(),
            forall|p: Seq<char>| final(self).document(p) == old(self).document(p),
            forall|k: Seq<char>| final(self).source_of(k) == old(self).source_of(k),
            final(self).primary() == old(self).primary(),
    {
        self.dirty = Vec::new();
        assert(views_of(self.dirty@) =~= Seq::<Seq<char>>::empty());
        assert(self.dirty_files() =~= Set::<Seq<char>>::empty());
    }

    fn owner_path(&self, key: &str) -> (r: String)
        requires
            self.wf(),
        ensures
            r@ == self.owner(key@),
    {
        match self.get_key_source(key) {
            Some(p) => p.clone(),
            None => self.primary_path.clone(),
        }
    }

    /// Sets `key` to `value` in the document of the file that owns it (the primary file for a
    /// new key), and marks that file changed; returns the file.
    pub fn update_value(&mut self, key: &str, value: &str) -> (r: ParseResult<String>)
        requires
            old(self).wf(),
        ensures
            final(self).wf(),
            match r {
                Ok(p) => p@ == old(self).owner(key@) && edited(*old(self), *final(self), key@),
                Err(_) => *final(self) == *old(self),
            },
            old(self).document(old(self).owner(key@)) is Some && old(self).document(
                old(self).owner(key@),
            )->0.tree().len() < usize::MAX ==> r is Ok,
    {
        let owner = self.owner_path(key);
        let ghost pre = *self;
        let di = match find_index(&self.documents, owner.as_str()) {
            Some(i) => i,
            None => return Err(ConfigError::custom("no document for the file that owns the key")),
        };
        proof {
            lemma_lookup_at(self.documents@, di as int);
        }
        if self.documents[di].1.node_count() == usize::MAX {
            return Err(ConfigError::custom("the document is full"));
        }
        let mut doc = match crate::table::remove(&mut self.documents, owner.as_str()) {
            Some(d) => d,
            None => return Err(ConfigError::custom("no document for the file that owns the key")),
        };
        let _ = doc.update_or_insert_value(key, value);
        crate::table::insert(&mut self.documents, owner.as_str(), doc);
        self.mark_dirty(owner.as_str());
        if find_index(&self.key_sources, key).is_none() {
            self.register_key(key, owner.as_str());
        }
        proof {
            assert forall|p: Seq<char>| #[trigger] lookup(self.documents@, p) is Some implies lookup(
                self.documents@,
                p,
            )->0.wf() by {
                if p != owner@ {
                    assert(self.document(p) == pre.document(p));
                }
            }
        }
        Ok(owner)
    }

    /// Appends the handler call `key = value` to the document of the file that owns `key`
    /// (the primary file for a new key), and marks that file changed; returns the file.
    pub fn add_handler_call(&mut self, key: &str, value: &str) -> (r: ParseResult<String>)
        requires
            old(self).wf(),
        ensures
            final(self).wf(),
            match r {
                Ok(p) => p@ == old(self).owner(key@) && edited(*old(self), *final(self), key@),
                Err(_) => *final(self) == *old(self),
            },
            old(self).document(old(self).owner(key@)) is Some && old(self).document(
                old(self).owner(key@),
            )->0.tree().len() < usize::MAX ==> r is Ok,
    {
        let owner = self.owner_path(key);
        let ghost pre = *self;
        let di = match find_index(&self.documents, owner.as_str()) {
            Some(i) => i,
            None => return Err(ConfigError::custom("no document for the file that owns the key")),
        };
        proof {
            lemma_lookup_at(self.documents@, di as int);
        }
        if self.documents[di].1.node_count() == usize::MAX {
            return Err(ConfigError::custom("the document is full"));
        }
        let mut doc = match crate::table::remove(&mut self.documents, owner.as_str()) {
            Some(d) => d,
            None => return Err(ConfigError::custom("no document for the file that owns the key")),
        };
        let _ = doc.add_handler_call(key, value);
        crate::table::insert(&mut self.documents, owner.as_str(), doc);
        self.mark_dirty(owner.as_str());
        if find_index(&self.key_sources, key).is_none() {
            self.register_key(key, owner.as_str());
        }
        proof {
            assert forall|p: Seq<char>| #[trigger] lookup(self.documents@, p) is Some implies lookup(
                self.documents@,
                p,
            )->0.wf() by {
                if p != owner@ {
                    assert(self.document(p) == pre.document(p));
                }
            }
        }
        Ok(owner)
    }

    /// Removes the first node defining `key` from the document of the file that owns it, and
    /// marks that file changed; returns the file.
    pub fn remove_value(&mut self, key: &str) -> (r: ParseResult<String>)
        requires
            old(self).wf(),
        ensures
            final(self).wf(),
            match r {
                Ok(p) => p@ == old(self).owner(key@) && edited(*old(self), *final(self), key@),
                Err(_) => *final(self) == *old(self),
            },
            old(self).document(old(self).owner(key@)) is Some && old(self).document(
                old(self).owner(key@),
            )->0.tree().len() < usize::MAX ==> r is Ok,
    {
        let owner = self.owner_path(key);
        let ghost pre = *self;
        let di = match find_index(&self.documents, owner.as_str()) {
            Some(i) => i,
            None => return Err(ConfigError::custom("no document for the file that owns the key")),
        };
        proof {
            lemma_lookup_at(self.documents@, di as int);
        }
        if self.documents[di].1.node_count() == usize::MAX {
            return Err(ConfigError::custom("the document is full"));
        }
        let mut doc = match crate::table::remove(&mut self.documents, owner.as_str()) {
            Some(d) => d,
            None => return Err(ConfigError::custom("no document for the file that owns the key")),
        };
        let _ = doc.remove_value(key);
        crate::table::insert(&mut self.documents, owner.as_str(), doc);
        self.mark_dirty(owner.as_str());
        if find_index(&self.key_sources, key).is_none() {
            self.register_key(key, owner.as_str());
        }
        proof {
            assert forall|p: Seq<char>| #[trigger] lookup(self.documents@, p) is Some implies lookup(
                self.documents@,
                p,
            )->0.wf() by {
                if p != owner@ {
                    assert(self.document(p) == pre.document(p));
                }
            }
        }
        Ok(owner)
    }

    /// Sets variable `name` to `value` in the document of the file that defines it (the
    /// primary file for a new variable), and marks that file changed; returns the file.
    pub fn update_variable(&mut self, name: &str, value: &str) -> (r: ParseResult<String>)
        requires
            old(self).wf(),
        ensures
            final(self).wf(),
            match r {
                Ok(p) => p@ == old(self).owner("$"@ + name@) && edited(*old(self), *final(self), "$"@ + name@),
                Err(_) => *final(self) == *old(self),
            },
            old(self).document(old(self).owner("$"@ + name@)) is Some && old(self).document(
                old(self).owner("$"@ + name@),
            )->0.tree().len() < usize::MAX ==> r is Ok,
    {
        let mut var_key = owned("$");
        crate::text::push_str(&mut var_key, name);
        let key = var_key.as_str();
        let owner = self.owner_path(key);
        let ghost pre = *self;
        let di = match find_index(&self.documents, owner.as_str()) {
            Some(i) => i,
            None => return Err(ConfigError::custom("no document for the file that owns the key")),
        };
        proof {
            lemma_lookup_at(self.documents@, di as int);
        }
        if self.documents[di].1.node_count() == usize::MAX {
            return Err(ConfigError::custom("the document is full"));
        }
        let mut doc = match crate::table::remove(&mut self.documents, owner.as_str()) {
            Some(d) => d,
            None => return Err(ConfigError::custom("no document for the file that owns the key")),
        };
        let _ = doc.update_or_insert_variable(name, value);
        crate::table::insert(&mut self.documents, owner.as_str(), doc);
        self.mark_dirty(owner.as_str());
        if find_index(&self.key_sources, key).is_none() {
            self.register_key(key, owner.as_str());
        }
        proof {
            assert forall|p: Seq<char>| #[trigger] lookup(self.documents@, p) is Some implies lookup(
                self.documents@,
                p,
            )->0.wf() by {
                if p != owner@ {
                    assert(self.document(p) == pre.document(p));
                }
            }
        }
        Ok(owner)
    }

    /// The text of every changed file, which is then no longer marked changed; files that
    /// did not change are left out, so writing the result rewrites only those.
    pub fn save_all(&mut self) -> (r: Vec<(String, String)>)
        requires
            old(self).wf(),
        ensures
            final(self).wf(),
            final(self).dirty_files().is_empty(),
            forall|p: Seq<char>| final(self).document(p) == old(self).document(p),
            forall|k: Seq<char>| final(self).source_of(k) == old(self).source_of(k),
            forall|p: Seq<char>|
                #[trigger] names_file(r@, p) <==> (old(self).dirty_files().contains(p) && old(
                    self,
                ).document(p) is Some),
            forall|i: int|
                0 <= i < r@.len() ==> (old(self).document(#[trigger] r@[i].0@) matches Some(d) && r@[i].1@
                    == render(d.tree(), 0)),
    {
        let mut out: Vec<(String, String)> = Vec::new();
        let mut i: usize = 0;
        while i < self.dirty.len()
            invariant
                self.wf(),
                *self == *old(self),
                0 <= i <= self.dirty@.len(),
                forall|p: Seq<char>|
                    #[trigger] names_file(out@, p) <==> (listed_before(self.dirty@, i as int, p)
                        && self.document(p) is Some),
                forall|j: int|
                    0 <= j < out@.len() ==> (self.document(#[trigger] out@[j].0@) matches Some(d) && out@[j].1@
                        == render(d.tree(), 0)),
            decreases self.dirty@.len() - i,
        {
            let ghost pre = out@;
            match self.get_document(self.dirty[i].as_str()) {
                Some(doc) => {
                    let text = doc.serialize();
                    out.push((self.dirty[i].clone(), text));
                },
                None => {},
            }
            proof {
                assert forall|p: Seq<char>|
                    #[trigger] names_file(out@, p) <==> (listed_before(self.dirty@, i + 1, p)
                        && self.document(p) is Some) by {
                    if names_file(out@, p) {
                        let j = choose|j: int| 0 <= j < out@.len() && #[trigger] out@[j].0@ == p;
                        if j < pre.len() {
                            assert(pre[j].0@ == p);
                            assert(names_file(pre, p));
                            let k = choose|k: int| 0 <= k < i && #[trigger] self.dirty@[k]@ == p;
                            assert(self.dirty@[k]@ == p);
                        } else {
                            assert(self.dirty@[i as int]@ == p);
                        }
                    }
                    if listed_before(self.dirty@, i + 1, p) && self.document(p) is Some {
                        let k = choose|k: int| 0 <= k < i + 1 && #[trigger] self.dirty@[k]@ == p;
                        if k < i {
                            assert(listed_before(self.dirty@, i as int, p));
                            assert(names_file(pre, p));
                            let j = choose|j: int| 0 <= j < pre.len() && #[trigger] pre[j].0@ == p;
                            assert(out@[j].0@ == p);
                        } else {
                            assert(out@[pre.len() as int].0@ == p);
                        }
                    }
                }
            }
            i += 1;
        }
        proof {
            assert forall|p: Seq<char>| #[trigger] old(self).dirty_files().contains(p) <==> listed_before(
                self.dirty@,
                self.dirty@.len() as int,
                p,
            ) by {
                if old(self).dirty_files().contains(p) {
                    let k = choose|k: int| 0 <= k < views_of(self.dirty@).len() && views_of(self.dirty@)[k] == p;
                    assert(self.dirty@[k]@ == p);
                }
                if listed_before(self.dirty@, self.dirty@.len() as int, p) {
                    let k = choose|k: int| 0 <= k < self.dirty@.len() && #[trigger] self.dirty@[k]@ == p;
                    assert(views_of(self.dirty@)[k] == p);
                }
            }
        }
        self.clear_dirty();
        out
    }

    /// The text of file `path`.
    pub fn serialize_file(&self, path: &str) -> (r: ParseResult<String>)
        requires
            self.wf(),
        ensures
            match self.document(path@) {
                Some(d) => r matches Ok(s) && s@ == render(d.tree(), 0),
                None => r is Err,
            },
    {
        match self.get_document(path) {
            Some(doc) => Ok(doc.serialize()),
            None => Err(ConfigError::custom("the file is not part of this configuration")),
        }
    }
}

} // verus!
