//! The local key-value configuration store's in-memory side.
//!
//! Settings live in a small database file; this module owns everything
//! about them that is not the database itself: which names an endpoint may
//! use, the in-memory cache of read values, and the queue of dirty writes
//! awaiting the store. The caller runs the database: it feeds cache misses
//! back in through [`Config::cache_insert`] and drains [`Config::take_dirty`]
//! into its statements.

use vstd::prelude::*;
use vstd::string::StringExecFns;

verus! {

/// The views of a sequence of strings.
pub open spec fn str_views(v: Seq<String>) -> Seq<Seq<char>> {
    Seq::new(v.len(), |i: int| v[i]@)
}

/// The keys of a sequence of settings pairs.
pub open spec fn pair_keys(v: Seq<(String, String)>) -> Seq<Seq<char>> {
    Seq::new(v.len(), |i: int| v[i].0@)
}

/// One endpoint's configuration: its allowed setting names, the cached
/// values, and the writes not yet handed to the store.
pub struct Config {
    pub work_dir: String,
    pub config_path: String,
    pub allowed_names: Vec<String>,
    pub config_dict: Vec<(String, String)>,
    pub dirty: Vec<(String, String, i64)>,
}

impl Config {
    /// The cached setting names.
    pub open spec fn dict_keys(self) -> Seq<Seq<char>> {
        pair_keys(self.config_dict@)
    }

    /// A value is cached under this name.
    pub open spec fn has_cfg(self, k: Seq<char>) -> bool {
        self.dict_keys().contains(k)
    }

    pub open spec fn cfg_index(self, k: Seq<char>) -> int {
        choose|i: int| 0 <= i < self.config_dict@.len() && self.config_dict@[i].0@ == k
    }

    /// The cached value under a name; meaningful when [`Self::has_cfg`].
    pub open spec fn cfg_at(self, k: Seq<char>) -> Seq<char> {
        self.config_dict@[self.cfg_index(k)].1@
    }

    /// Each name is cached at most once.
    pub open spec fn wf(self) -> bool {
        forall|i: int, j: int|
            0 <= i < j < self.config_dict@.len() ==> self.config_dict@[i].0@
                != self.config_dict@[j].0@
    }

    /// An entry at a known index is the one the name-indexed view returns.
    pub proof fn lemma_cfg_entry(self, k: Seq<char>, i: int)
        requires
            self.wf(),
            0 <= i < self.config_dict@.len(),
            self.config_dict@[i].0@ == k,
        ensures
            self.has_cfg(k),
            self.cfg_index(k) == i,
            self.cfg_at(k) == self.config_dict@[i].1@,
    {
        assert(self.dict_keys()[i] == k);
        let j = self.cfg_index(k);
        assert(0 <= j < self.config_dict@.len() && self.config_dict@[j].0@ == k);
    }

    /// Finds a cached entry's position.
    fn find_entry(&self, key: &str) -> (r: Option<usize>)
        ensures
            match r {
                Some(i) => 0 <= i < self.config_dict@.len() && self.config_dict@[i as int].0@
                    == key@,
                None => !self.has_cfg(key@),
            },
    {
        let mut i: usize = 0;
        while i < self.config_dict.len()
            invariant
                i <= self.config_dict@.len(),
                forall|j: int| 0 <= j < i ==> self.config_dict@[j].0@ != key@,
            decreases self.config_dict@.len() - i,
        {
            if crate::util::str_eq(self.config_dict[i].0.as_str(), key) {
                return Some(i);
            }
            i = i + 1;
        }
        proof {
            assert forall|j: int| 0 <= j < self.dict_keys().len() implies self.dict_keys()[j]
                != key@ by {
                assert(self.config_dict@[j].0@ != key@);
            }
        }
        None
    }

    /// A fresh store for one endpoint. The working directory and file fall
    /// back to their defaults; the endpoint name decides which setting
    /// names are allowed (the client endpoint may also hold its own key).
    /// Opening the database file itself is the caller's.
    pub fn new(work_dir: Option<String>, config_file: Option<String>, app_name: Option<String>)
        -> (r: Config)
        requires
            app_name matches Some(n) ==> n@ == "client"@ || n@ == "server"@,
        ensures
            r.wf(),
            r.config_dict@ == Seq::<(String, String)>::empty(),
            r.dirty@ == Seq::<(String, String, i64)>::empty(),
            r.work_dir@ == match work_dir {
                Some(w) => w@,
                None => "./work_dir"@,
            },
            r.config_path@ == r.work_dir@ + seq!['/'] + match config_file {
                Some(f) => f@,
                None => ".ft.db"@,
            },
            str_views(r.allowed_names@) == match app_name {
                None => Seq::<Seq<char>>::empty(),
                Some(n) => if n@ == "client"@ {
                    seq!["path"@, "tunnel_host"@, "share_key"@, "password"@, "client_id"@]
                } else {
                    seq!["path"@, "tunnel_host"@, "share_key"@, "password"@]
                },
            },
    {
        let work_dir = match work_dir {
            Some(w) => w,
            None => String::from_str("./work_dir"),
        };
        let config_file = match config_file {
            Some(f) => f,
            None => String::from_str(".ft.db"),
        };
        let mut config_path = work_dir.clone();
        config_path.append("/");
        proof {
            reveal_strlit("/");
            assert("/"@ =~= seq!['/']);
        }
        config_path.append(config_file.as_str());
        let mut allowed_names: Vec<String> = Vec::new();
        match &app_name {
            None => {},
            Some(n) => {
                allowed_names.push(String::from_str("path"));
                allowed_names.push(String::from_str("tunnel_host"));
                allowed_names.push(String::from_str("share_key"));
                allowed_names.push(String::from_str("password"));
                if crate::util::str_eq(n.as_str(), "client") {
                    allowed_names.push(String::from_str("client_id"));
                }
            },
        }
        let r = Config {
            work_dir,
            config_path,
            allowed_names,
            config_dict: Vec::new(),
            dirty: Vec::new(),
        };
        proof {
            assert(r.config_dict@ =~= Seq::<(String, String)>::empty());
            assert(r.dirty@ =~= Seq::<(String, String, i64)>::empty());
            match app_name {
                None => {
                    assert(str_views(r.allowed_names@) =~= Seq::<Seq<char>>::empty());
                },
                Some(n) => {
                    if n@ == "client"@ {
                        assert(str_views(r.allowed_names@) =~= seq![
                            "path"@,
                            "tunnel_host"@,
                            "share_key"@,
                            "password"@,
                            "client_id"@,
                        ]);
                    } else {
                        assert(str_views(r.allowed_names@) =~= seq![
                            "path"@,
                            "tunnel_host"@,
                            "share_key"@,
                            "password"@,
                        ]);
                    }
                },
            }
        }
        r
    }

    /// Sets a value: the cache takes it, and, unless the same value was
    /// already cached, the write joins the dirty queue (with its
    /// auto-generated mark, default none) for the caller to persist.
    pub fn set(&mut self, key: String, value: String, auto_gen: Option<i64>)
        requires
            old(self).wf(),
        ensures
            final(self).wf(),
            final(self).has_cfg(key@),
            final(self).cfg_at(key@) == value@,
            forall|k: Seq<char>|
                k != key@ ==> #[trigger] final(self).has_cfg(k) == old(self).has_cfg(k),
            forall|k: Seq<char>|
                k != key@ && old(self).has_cfg(k) ==> #[trigger] final(self).cfg_at(k) == old(self).cfg_at(k),
            final(self).allowed_names == old(self).allowed_names,
            final(self).work_dir == old(self).work_dir,
            final(self).config_path == old(self).config_path,
            (!old(self).has_cfg(key@) || old(self).cfg_at(key@) != value@) ==> (final(self).dirty@.len() == old(self).dirty@.len() + 1 && final(self).dirty@.drop_last() == old(self).dirty@ && final(self).dirty@.last().0@ == key@ && final(self).dirty@.last().1@
                == value@ && final(self).dirty@.last().2 == match auto_gen {
                Some(a) => a,
                None => 0,
            }),
            (old(self).has_cfg(key@) && old(self).cfg_at(key@) == value@) ==> final(self).dirty
                == old(self).dirty,
    {
        let auto_gen: i64 = match auto_gen {
            Some(a) => a,
            None => 0,
        };
        match self.find_entry(key.as_str()) {
            Some(i) => {
                proof {
                    old(self).lemma_cfg_entry(key@, i as int);
                }
                if crate::util::str_eq(self.config_dict[i].1.as_str(), value.as_str()) {
                    return ;
                }
                let _ = self.config_dict.remove(i);
                self.config_dict.insert(i, (key.clone(), value.clone()));
                self.dirty.push((key, value, auto_gen));
                proof {
                    let pre = *old(self);
                    let post = *self;
                    lemma_dict_update(pre, post, key@, i as int);
                }
            },
            None => {
                self.config_dict.push((key.clone(), value.clone()));
                self.dirty.push((key, value, auto_gen));
                proof {
                    let pre = *old(self);
                    let post = *self;
                    lemma_dict_push(pre, post, key@);
                }
            },
        }
    }

    /// Feeds a value read from the store into the cache, without marking it
    /// dirty.
    pub fn cache_insert(&mut self, key: &String, value: &String)
        requires
            old(self).wf(),
        ensures
            final(self).wf(),
            final(self).has_cfg(key@),
            final(self).cfg_at(key@) == value@,
            forall|k: Seq<char>|
                k != key@ ==> #[trigger] final(self).has_cfg(k) == old(self).has_cfg(k),
            forall|k: Seq<char>|
                k != key@ && old(self).has_cfg(k) ==> #[trigger] final(self).cfg_at(k) == old(self).cfg_at(k),
            final(self).allowed_names == old(self).allowed_names,
            final(self).dirty == old(self).dirty,
            final(self).work_dir == old(self).work_dir,
            final(self).config_path == old(self).config_path,
    {
        match self.find_entry(key.as_str()) {
            Some(i) => {
                proof {
                    old(self).lemma_cfg_entry(key@, i as int);
                }
                let _ = self.config_dict.remove(i);
                self.config_dict.insert(i, (key.clone(), value.clone()));
                proof {
                    lemma_dict_update(*old(self), *self, key@, i as int);
                }
            },
            None => {
                self.config_dict.push((key.clone(), value.clone()));
                proof {
                    lemma_dict_push(*old(self), *self, key@);
                }
            },
        }
    }

    /// The cached value under a name, if any. A missing name may still live
    /// in the store: the caller then fetches it and calls
    /// [`Self::cache_insert`].
    pub fn get_key(&self, key: &String) -> (r: Option<String>)
        requires
            self.wf(),
        ensures
            r is Some <==> self.has_cfg(key@),
            r matches Some(v) ==> v@ == self.cfg_at(key@),
    {
        match self.find_entry(key.as_str()) {
            Some(i) => {
                let v = self.config_dict[i].1.clone();
                proof {
                    self.lemma_cfg_entry(key@, i as int);
                }
                Some(v)
            },
            None => None,
        }
    }

    /// The setting names this endpoint may use.
    pub fn keys(&self) -> (r: &Vec<String>)
        ensures
            *r == self.allowed_names,
    {
        &self.allowed_names
    }

    /// Hands the queued writes to the caller, oldest first, leaving the
    /// queue empty; the caller persists them.
    pub fn take_dirty(&mut self) -> (r: Vec<(String, String, i64)>)
        ensures
            r == old(self).dirty,
            final(self).dirty@ == Seq::<(String, String, i64)>::empty(),
            final(self).config_dict == old(self).config_dict,
            final(self).allowed_names == old(self).allowed_names,
            final(self).work_dir == old(self).work_dir,
            final(self).config_path == old(self).config_path,
    {
        let mut out: Vec<(String, String, i64)> = Vec::new();
        core::mem::swap(&mut out, &mut self.dirty);
        proof {
            assert(self.dirty@ =~= Seq::<(String, String, i64)>::empty());
        }
        out
    }
}

impl Config {
    /// The names a listing request selects: the requested ones that the
    /// endpoint allows, or, with no request, every allowed name but the
    /// password.
    pub open spec fn selected_names(self, req: Option<Vec<String>>) -> Seq<Seq<char>> {
        match req {
            Some(ks) => str_views(ks@).filter(
                |k: Seq<char>| str_views(self.allowed_names@).contains(k),
            ),
            None => str_views(self.allowed_names@).filter(|k: Seq<char>| k != "password"@),
        }
    }

    /// Looks a set of names up in the cache: the selected names split into
    /// the cached pairs and the names the caller must fetch from the store,
    /// each in selection order.
    pub fn get_keys(&self, keys: Option<Vec<String>>) -> (r: (Vec<(String, String)>, Vec<String>))
        requires
            self.wf(),
        ensures
            pair_keys(r.0@) == self.selected_names(keys).filter(|k: Seq<char>| self.has_cfg(k)),
            forall|i: int|
                0 <= i < r.0@.len() ==> #[trigger] r.0@[i].1@ == self.cfg_at(r.0@[i].0@),
            str_views(r.1@) == self.selected_names(keys).filter(|k: Seq<char>| !self.has_cfg(k)),
    {
        let ghost allow = |k: Seq<char>| str_views(self.allowed_names@).contains(k);
        let ghost not_password = |k: Seq<char>| k != "password"@;
        let mut selected: Vec<String> = Vec::new();
        match &keys {
            Some(ks) => {
                let mut i: usize = 0;
                proof {
                    assert(str_views(ks@).take(0) =~= Seq::<Seq<char>>::empty());
                    assert(str_views(selected@) =~= str_views(ks@).take(0).filter(allow)) by {
                        reveal(Seq::filter);
                    }
                }
                while i < ks.len()
                    invariant
                        i <= ks@.len(),
                        allow == (|k: Seq<char>| str_views(self.allowed_names@).contains(k)),
                        str_views(selected@) == str_views(ks@).take(i as int).filter(allow),
                    decreases ks@.len() - i,
                {
                    if contains_name(&self.allowed_names, ks[i].as_str()) {
                        selected.push(ks[i].clone());
                    }
                    proof {
                        reveal(Seq::filter);
                        let views = str_views(ks@);
                        assert(views.take(i + 1).drop_last() =~= views.take(i as int));
                        assert(views.take(i + 1).last() == ks@[i as int]@);
                        assert(str_views(selected@) =~= views.take(i + 1).filter(allow));
                    }
                    i = i + 1;
                }
                proof {
                    assert(str_views(ks@).take(ks@.len() as int) =~= str_views(ks@));
                }
            },
            None => {
                let mut i: usize = 0;
                proof {
                    assert(str_views(self.allowed_names@).take(0) =~= Seq::<Seq<char>>::empty());
                    assert(str_views(selected@) =~= str_views(self.allowed_names@).take(0).filter(
                        not_password,
                    )) by {
                        reveal(Seq::filter);
                    }
                }
                while i < self.allowed_names.len()
                    invariant
                        i <= self.allowed_names@.len(),
                        not_password == (|k: Seq<char>| k != "password"@),
                        str_views(selected@) == str_views(self.allowed_names@).take(
                            i as int,
                        ).filter(not_password),
                    decreases self.allowed_names@.len() - i,
                {
                    if !crate::util::str_eq(self.allowed_names[i].as_str(), "password") {
                        selected.push(self.allowed_names[i].clone());
                    }
                    proof {
                        reveal(Seq::filter);
                        let views = str_views(self.allowed_names@);
                        assert(views.take(i + 1).drop_last() =~= views.take(i as int));
                        assert(views.take(i + 1).last() == self.allowed_names@[i as int]@);
                        assert(str_views(selected@) =~= views.take(i + 1).filter(not_password));
                    }
                    i = i + 1;
                }
                proof {
                    assert(str_views(self.allowed_names@).take(self.allowed_names@.len() as int)
                        =~= str_views(self.allowed_names@));
                }
            },
        }
        let ghost sel = str_views(selected@);
        proof {
            assert(sel == self.selected_names(keys));
        }
        let ghost cached = |k: Seq<char>| self.has_cfg(k);
        let ghost uncached = |k: Seq<char>| !self.has_cfg(k);
        let mut found: Vec<(String, String)> = Vec::new();
        let mut missing: Vec<String> = Vec::new();
        let mut i: usize = 0;
        proof {
            assert(sel.take(0) =~= Seq::<Seq<char>>::empty());
            assert(pair_keys(found@) =~= sel.take(0).filter(cached)) by {
                reveal(Seq::filter);
            }
            assert(str_views(missing@) =~= sel.take(0).filter(uncached)) by {
                reveal(Seq::filter);
            }
        }
        while i < selected.len()
            invariant
                self.wf(),
                i <= selected@.len(),
                sel == str_views(selected@),
                cached == (|k: Seq<char>| self.has_cfg(k)),
                uncached == (|k: Seq<char>| !self.has_cfg(k)),
                pair_keys(found@) == sel.take(i as int).filter(cached),
                str_views(missing@) == sel.take(i as int).filter(uncached),
                forall|j: int|
                    0 <= j < found@.len() ==> #[trigger] found@[j].1@ == self.cfg_at(found@[j].0@),
            decreases selected@.len() - i,
        {
            match self.find_entry(selected[i].as_str()) {
                Some(d) => {
                    proof {
                        self.lemma_cfg_entry(selected@[i as int]@, d as int);
                    }
                    found.push((selected[i].clone(), self.config_dict[d].1.clone()));
                },
                None => {
                    missing.push(selected[i].clone());
                },
            }
            proof {
                reveal(Seq::filter);
                assert(sel.take(i + 1).drop_last() =~= sel.take(i as int));
                assert(sel.take(i + 1).last() == selected@[i as int]@);
                assert(pair_keys(found@) =~= sel.take(i + 1).filter(cached));
                assert(str_views(missing@) =~= sel.take(i + 1).filter(uncached));
            }
            i = i + 1;
        }
        proof {
            assert(sel.take(selected@.len() as int) =~= sel);
        }
        (found, missing)
    }
}

/// Whether one of the names reads as the given text.
fn contains_name(v: &Vec<String>, key: &str) -> (r: bool)
    ensures
        r == str_views(v@).contains(key@),
{
    let mut i: usize = 0;
    while i < v.len()
        invariant
            i <= v@.len(),
            forall|j: int| 0 <= j < i ==> v@[j]@ != key@,
        decreases v@.len() - i,
    {
        if crate::util::str_eq(v[i].as_str(), key) {
            proof {
                assert(str_views(v@)[i as int] == key@);
            }
            return true;
        }
        i = i + 1;
    }
    proof {
        assert forall|j: int| 0 <= j < str_views(v@).len() implies str_views(v@)[j] != key@ by {
            assert(v@[j]@ != key@);
        }
    }
    false
}

/// A dictionary whose entries agree except for one entry whose key is
/// unchanged keeps its names, and other names their values.
proof fn lemma_dict_update(pre: Config, post: Config, key: Seq<char>, i: int)
    requires
        pre.wf(),
        0 <= i < pre.config_dict@.len(),
        post.config_dict@.len() == pre.config_dict@.len(),
        forall|j: int|
            0 <= j < pre.config_dict@.len() && j != i ==> post.config_dict@[j]
                == pre.config_dict@[j],
        post.config_dict@[i].0@ == pre.config_dict@[i].0@,
        pre.config_dict@[i].0@ == key,
    ensures
        post.wf(),
        post.has_cfg(key),
        post.cfg_at(key) == post.config_dict@[i].1@,
        forall|k: Seq<char>| k != key ==> #[trigger] post.has_cfg(k) == pre.has_cfg(k),
        forall|k: Seq<char>|
            k != key && pre.has_cfg(k) ==> #[trigger] post.cfg_at(k) == pre.cfg_at(k),
{
    assert(post.dict_keys() =~= pre.dict_keys());
    assert(post.wf()) by {
        assert forall|ii: int, jj: int|
            0 <= ii < jj < post.config_dict@.len() implies post.config_dict@[ii].0@
            != post.config_dict@[jj].0@ by {
            assert(post.config_dict@[ii].0@ == pre.config_dict@[ii].0@);
            assert(post.config_dict@[jj].0@ == pre.config_dict@[jj].0@);
        }
    }
    post.lemma_cfg_entry(key, i);
    assert forall|k: Seq<char>|
        k != key && pre.has_cfg(k) implies #[trigger] post.cfg_at(k) == pre.cfg_at(k) by {
        let oi = choose|oi: int| 0 <= oi < pre.config_dict@.len() && pre.dict_keys()[oi] == k;
        assert(pre.config_dict@[oi].0@ == k);
        pre.lemma_cfg_entry(k, oi);
        assert(post.config_dict@[oi] == pre.config_dict@[oi]);
        post.lemma_cfg_entry(k, oi);
    }
}

/// A dictionary with one new name appended keeps every other name's place.
proof fn lemma_dict_push(pre: Config, post: Config, key: Seq<char>)
    requires
        pre.wf(),
        !pre.has_cfg(key),
        post.config_dict@.len() == pre.config_dict@.len() + 1,
        forall|j: int|
            0 <= j < pre.config_dict@.len() ==> post.config_dict@[j] == pre.config_dict@[j],
        post.config_dict@.last().0@ == key,
    ensures
        post.wf(),
        post.has_cfg(key),
        post.cfg_at(key) == post.config_dict@.last().1@,
        forall|k: Seq<char>| k != key ==> #[trigger] post.has_cfg(k) == pre.has_cfg(k),
        forall|k: Seq<char>|
            k != key && pre.has_cfg(k) ==> #[trigger] post.cfg_at(k) == pre.cfg_at(k),
{
    let n = pre.config_dict@.len() as int;
    assert(post.wf()) by {
        assert forall|ii: int, jj: int|
            0 <= ii < jj < post.config_dict@.len() implies post.config_dict@[ii].0@
            != post.config_dict@[jj].0@ by {
            if jj < n {
                assert(pre.config_dict@[ii].0@ != pre.config_dict@[jj].0@);
            } else {
                assert(pre.dict_keys()[ii] == pre.config_dict@[ii].0@);
            }
        }
    }
    post.lemma_cfg_entry(key, n);
    assert forall|k: Seq<char>|
        k != key implies #[trigger] post.has_cfg(k) == pre.has_cfg(k) by {
        if pre.has_cfg(k) {
            let i = choose|i: int| 0 <= i < pre.dict_keys().len() && pre.dict_keys()[i] == k;
            assert(post.dict_keys()[i] == k);
        }
        if post.has_cfg(k) {
            let i = choose|i: int| 0 <= i < post.dict_keys().len() && post.dict_keys()[i] == k;
            assert(i < n);
            assert(pre.dict_keys()[i] == k);
        }
    }
    assert forall|k: Seq<char>|
        k != key && pre.has_cfg(k) implies #[trigger] post.cfg_at(k) == pre.cfg_at(k) by {
        let oi = choose|oi: int| 0 <= oi < pre.config_dict@.len() && pre.dict_keys()[oi] == k;
        assert(pre.config_dict@[oi].0@ == k);
        pre.lemma_cfg_entry(k, oi);
        post.lemma_cfg_entry(k, oi);
    }
}

} // verus!
