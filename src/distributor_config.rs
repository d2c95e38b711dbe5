use vstd::prelude::*;
use vstd::std_specs::slice::into_iter_elts;

use crate::paths::{has_extension, join_path, joined_path, path_has_extension, path_matches, paths_equal};

verus! {

#[derive(Debug, Clone, Copy, PartialEq, Eq)]
pub enum DistributorConfigError {
    Existed,
    NotExist,
    InvalidGlob,
}

/// One configured distribution: a source root (a file or a directory), the
/// ignore globs applied under a directory root, and the destination paths.
#[derive(Debug, Clone, PartialEq)]
pub struct DistributorItem {
    pub name: String,
    pub root: String,
    pub ignore: Vec<String>,
    pub to: Vec<String>,
}

/// The ordered list of configured distributions.
#[derive(Debug, Clone, PartialEq)]
pub struct DistributorConfiguration {
    pub items: Vec<DistributorItem>,
}

pub open spec fn texts(v: Seq<String>) -> Seq<Seq<char>> {
    v.map_values(|s: String| s@)
}

pub open spec fn item_names(items: Seq<DistributorItem>) -> Seq<Seq<char>> {
    items.map_values(|item: DistributorItem| item.name@)
}

/// `k` is the first position of `paths` that names the same path as `path`.
pub open spec fn first_same_path(paths: Seq<Seq<char>>, path: Seq<char>, k: int) -> bool {
    &&& 0 <= k < paths.len()
    &&& path_matches(paths[k], path)
    &&& forall|j: int| 0 <= j < k ==> !path_matches(#[trigger] paths[j], path)
}

pub open spec fn has_same_path(paths: Seq<Seq<char>>, path: Seq<char>) -> bool {
    exists|j: int| 0 <= j < paths.len() && path_matches(#[trigger] paths[j], path)
}

/// Position of the first text equal to `needle`.
fn position_of_text(v: &Vec<String>, needle: &str) -> (r: Option<usize>)
    ensures
        match r {
            Some(i) => i < v@.len() && texts(v@).index_of_first(needle@) == Some(i as int),
            None => texts(v@).index_of_first(needle@) is None,
        },
{
    let key = needle.to_owned();
    let mut i: usize = 0;
    while i < v.len()
        invariant
            i <= v@.len(),
            key@ == needle@,
            forall|j: int| 0 <= j < i ==> texts(v@)[j] != needle@,
        decreases v@.len() - i,
    {
        if v[i] == key {
            proof {
                assert(texts(v@)[i as int] == needle@);
                texts(v@).index_of_first_ensures(needle@);
            }
            return Some(i);
        }
        i = i + 1;
    }
    proof {
        texts(v@).index_of_first_ensures(needle@);
    }
    None
}

/// Position of the first path that compares equal to `target`.
fn position_of_path(v: &Vec<String>, target: &str) -> (r: Option<usize>)
    ensures
        match r {
            Some(i) => first_same_path(texts(v@), target@, i as int),
            None => !has_same_path(texts(v@), target@),
        },
{
    let mut i: usize = 0;
    while i < v.len()
        invariant
            i <= v@.len(),
            forall|j: int| 0 <= j < i ==> !path_matches(#[trigger] texts(v@)[j], target@),
        decreases v@.len() - i,
    {
        if paths_equal(v[i].as_str(), target) {
            return Some(i);
        }
        i = i + 1;
    }
    None
}

/// The file name used when a configuration is saved into a directory.
pub const DEFAULT_CONFIG_FILE_NAME: &'static str = "distributor-config.toml";

impl DistributorConfiguration {
    /// Where a configuration saved to `path` is written: `path` itself when it
    /// is an existing file or has an extension, else a file of the default
    /// name inside it.
    pub fn save_location(path: &str, path_is_file: bool) -> (r: String)
        ensures
            r@ == (if path_is_file || path_has_extension(path@) {
                path@
            } else {
                joined_path(path@, DEFAULT_CONFIG_FILE_NAME@)
            }),
    {
        if path_is_file || has_extension(path) {
            path.to_owned()
        } else {
            join_path(path, DEFAULT_CONFIG_FILE_NAME)
        }
    }

    /// The items, in configuration order.
    pub fn iter(&self) -> (r: std::slice::Iter<'_, DistributorItem>)
        ensures
            into_iter_elts(r) == self.items@,
    {
        broadcast use vstd::std_specs::slice::axiom_spec_slice_iter;

        let items = self.items.as_slice();
        let r = items.iter();
        assert(into_iter_elts(r) =~= self.items@);
        r
    }

    /// Position of the first item called `name`.
    fn position_of(&self, name: &str) -> (r: Option<usize>)
        ensures
            match r {
                Some(i) => i < self.items@.len() && item_names(self.items@).index_of_first(name@)
                    == Some(i as int),
                None => item_names(self.items@).index_of_first(name@) is None,
            },
    {
        let key = name.to_owned();
        let mut i: usize = 0;
        while i < self.items.len()
            invariant
                i <= self.items@.len(),
                key@ == name@,
                forall|j: int| 0 <= j < i ==> item_names(self.items@)[j] != name@,
            decreases self.items@.len() - i,
        {
            if self.items[i].name == key {
                proof {
                    assert(item_names(self.items@)[i as int] == name@);
                    item_names(self.items@).index_of_first_ensures(name@);
                }
                return Some(i);
            }
            i = i + 1;
        }
        proof {
            item_names(self.items@).index_of_first_ensures(name@);
        }
        None
    }

    /// Adds an item called `name` rooted at `root`, with no ignore globs and
    /// no destinations; fails when the name is taken.
    pub fn add_distributor(&mut self, name: &str, root: &str) -> (r: Result<(), DistributorConfigError>)
        ensures
            item_names(old(self).items@).contains(name@) ==> {
                &&& r == Err::<(), DistributorConfigError>(DistributorConfigError::Existed)
                &&& final(self).items@ == old(self).items@
            },
            !item_names(old(self).items@).contains(name@) ==> {
                &&& r is Ok
                &&& final(self).items@.len() == old(self).items@.len() + 1
                &&& final(self).items@.drop_last() == old(self).items@
                &&& final(self).items@.last().name@ == name@
                &&& final(self).items@.last().root@ == root@
                &&& final(self).items@.last().ignore@.len() == 0
                &&& final(self).items@.last().to@.len() == 0
            },
    {
        match self.position_of(name) {
            Some(_) => {
                proof {
                    item_names(self.items@).index_of_first_ensures(name@);
                }
                Err(DistributorConfigError::Existed)
            },
            None => {
                proof {
                    item_names(self.items@).index_of_first_ensures(name@);
                }
                let ghost before = self.items@;
                self.items.push(
                    DistributorItem {
                        name: name.to_owned(),
                        root: root.to_owned(),
                        ignore: Vec::new(),
                        to: Vec::new(),
                    },
                );
                assert(self.items@.drop_last() =~= before);
                Ok(())
            },
        }
    }

    /// Whether an item called `name` exists.
    pub fn has_distributor(&self, name: &str) -> (r: bool)
        ensures
            r == item_names(self.items@).contains(name@),
    {
        let found = self.position_of(name);
        proof {
            item_names(self.items@).index_of_first_ensures(name@);
        }
        found.is_some()
    }

    /// Removes the first item called `name`.
    pub fn remove_distributor(&mut self, name: &str) -> (r: Result<(), DistributorConfigError>)
        ensures
            match item_names(old(self).items@).index_of_first(name@) {
                Some(k) => r is Ok && final(self).items@ == old(self).items@.remove(k),
                None => {
                    &&& r == Err::<(), DistributorConfigError>(DistributorConfigError::NotExist)
                    &&& final(self).items@ == old(self).items@
                },
            },
    {
        proof {
            item_names(self.items@).index_of_first_ensures(name@);
        }
        match self.position_of(name) {
            Some(index) => {
                self.items.remove(index);
                Ok(())
            },
            None => Err(DistributorConfigError::NotExist),
        }
    }

    /// Appends `ignore_glob` to the ignore globs of the first item called
    /// `name`; fails when there is no such item or it already has that glob.
    pub fn add_ignore(&mut self, name: &str, ignore_glob: &str) -> (r: Result<(), DistributorConfigError>)
        ensures
            match item_names(old(self).items@).index_of_first(name@) {
                Some(k) => if texts(old(self).items@[k].ignore@).contains(ignore_glob@) {
                    &&& r == Err::<(), DistributorConfigError>(DistributorConfigError::Existed)
                    &&& final(self).items@ == old(self).items@
                } else {
                    &&& r is Ok
                    &&& final(self).items@.len() == old(self).items@.len()
                    &&& forall|j: int|
                        0 <= j < old(self).items@.len() && j != k
                            ==> final(self).items@[j] == old(self).items@[j]
                    &&& final(self).items@[k].name == old(self).items@[k].name
                    &&& final(self).items@[k].root == old(self).items@[k].root
                    &&& final(self).items@[k].to == old(self).items@[k].to
                    &&& texts(final(self).items@[k].ignore@) == texts(old(self).items@[k].ignore@).push(
                        ignore_glob@,
                    )
                },
                None => {
                    &&& r == Err::<(), DistributorConfigError>(DistributorConfigError::NotExist)
                    &&& final(self).items@ == old(self).items@
                },
            },
    {
        proof {
            item_names(self.items@).index_of_first_ensures(name@);
        }
        match self.position_of(name) {
            Some(index) => {
                let found = position_of_text(&self.items[index].ignore, ignore_glob);
                proof {
                    texts(self.items@[index as int].ignore@).index_of_first_ensures(ignore_glob@);
                }
                if found.is_some() {
                    return Err(DistributorConfigError::Existed);
                }
                let ghost before = self.items@;
                let mut item = self.items.remove(index);
                let ghost old_ignore = item.ignore@;
                item.ignore.push(ignore_glob.to_owned());
                assert(texts(item.ignore@) =~= texts(old_ignore).push(ignore_glob@));
                self.items.insert(index, item);
                assert(forall|j: int| 0 <= j < before.len() && j != index ==> self.items@[j] == before[j]);
                Ok(())
            },
            None => Err(DistributorConfigError::NotExist),
        }
    }

    /// Removes `ignore_glob` from the ignore globs of the first item called
    /// `name`; fails when there is no such item or glob.
    pub fn remove_ignore(&mut self, name: &str, ignore_glob: &str) -> (r: Result<(), DistributorConfigError>)
        ensures
            match item_names(old(self).items@).index_of_first(name@) {
                Some(k) => match texts(old(self).items@[k].ignore@).index_of_first(ignore_glob@) {
                    Some(g) => {
                        &&& r is Ok
                        &&& final(self).items@.len() == old(self).items@.len()
                        &&& forall|j: int|
                            0 <= j < old(self).items@.len() && j != k
                                ==> final(self).items@[j] == old(self).items@[j]
                        &&& final(self).items@[k].name == old(self).items@[k].name
                        &&& final(self).items@[k].root == old(self).items@[k].root
                        &&& final(self).items@[k].to == old(self).items@[k].to
                        &&& final(self).items@[k].ignore@ == old(self).items@[k].ignore@.remove(g)
                    },
                    None => {
                        &&& r == Err::<(), DistributorConfigError>(DistributorConfigError::NotExist)
                        &&& final(self).items@ == old(self).items@
                    },
                },
                None => {
                    &&& r == Err::<(), DistributorConfigError>(DistributorConfigError::NotExist)
                    &&& final(self).items@ == old(self).items@
                },
            },
    {
        proof {
            item_names(self.items@).index_of_first_ensures(name@);
        }
        match self.position_of(name) {
            Some(index) => {
                match position_of_text(&self.items[index].ignore, ignore_glob) {
                    Some(at) => {
                        let ghost before = self.items@;
                        let mut item = self.items.remove(index);
                        item.ignore.remove(at);
                        self.items.insert(index, item);
                        assert(forall|j: int| 0 <= j < before.len() && j != index ==> self.items@[j] == before[j]);
                        Ok(())
                    },
                    None => Err(DistributorConfigError::NotExist),
                }
            },
            None => Err(DistributorConfigError::NotExist),
        }
    }

    /// Appends `target` to the destinations of the first item called `name`;
    /// fails when there is no such item or it already has that path.
    pub fn add_target(&mut self, name: &str, target: &str) -> (r: Result<(), DistributorConfigError>)
        ensures
            match item_names(old(self).items@).index_of_first(name@) {
                Some(k) => if has_same_path(texts(old(self).items@[k].to@), target@) {
                    &&& r == Err::<(), DistributorConfigError>(DistributorConfigError::Existed)
                    &&& final(self).items@ == old(self).items@
                } else {
                    &&& r is Ok
                    &&& final(self).items@.len() == old(self).items@.len()
                    &&& forall|j: int|
                        0 <= j < old(self).items@.len() && j != k
                            ==> final(self).items@[j] == old(self).items@[j]
                    &&& final(self).items@[k].name == old(self).items@[k].name
                    &&& final(self).items@[k].root == old(self).items@[k].root
                    &&& final(self).items@[k].ignore == old(self).items@[k].ignore
                    &&& texts(final(self).items@[k].to@) == texts(old(self).items@[k].to@).push(target@)
                },
                None => {
                    &&& r == Err::<(), DistributorConfigError>(DistributorConfigError::NotExist)
                    &&& final(self).items@ == old(self).items@
                },
            },
    {
        proof {
            item_names(self.items@).index_of_first_ensures(name@);
        }
        match self.position_of(name) {
            Some(index) => {
                if position_of_path(&self.items[index].to, target).is_some() {
                    return Err(DistributorConfigError::Existed);
                }
                let ghost before = self.items@;
                let mut item = self.items.remove(index);
                let ghost old_to = item.to@;
                item.to.push(target.to_owned());
                assert(texts(item.to@) =~= texts(old_to).push(target@));
                self.items.insert(index, item);
                assert(forall|j: int| 0 <= j < before.len() && j != index ==> self.items@[j] == before[j]);
                Ok(())
            },
            None => Err(DistributorConfigError::NotExist),
        }
    }

    /// Removes the first destination of the first item called `name` that
    /// names the same path as `target`; fails when there is none.
    pub fn remove_target(&mut self, name: &str, target: &str) -> (r: Result<(), DistributorConfigError>)
        ensures
            match item_names(old(self).items@).index_of_first(name@) {
                Some(k) => if has_same_path(texts(old(self).items@[k].to@), target@) {
                    &&& r is Ok
                    &&& final(self).items@.len() == old(self).items@.len()
                    &&& forall|j: int|
                        0 <= j < old(self).items@.len() && j != k
                            ==> final(self).items@[j] == old(self).items@[j]
                    &&& final(self).items@[k].name == old(self).items@[k].name
                    &&& final(self).items@[k].root == old(self).items@[k].root
                    &&& final(self).items@[k].ignore == old(self).items@[k].ignore
                    &&& exists|t: int|
                        first_same_path(texts(old(self).items@[k].to@), target@, t)
                            && final(self).items@[k].to@ == old(self).items@[k].to@.remove(t)
                } else {
                    &&& r == Err::<(), DistributorConfigError>(DistributorConfigError::NotExist)
                    &&& final(self).items@ == old(self).items@
                },
                None => {
                    &&& r == Err::<(), DistributorConfigError>(DistributorConfigError::NotExist)
                    &&& final(self).items@ == old(self).items@
                },
            },
    {
        proof {
            item_names(self.items@).index_of_first_ensures(name@);
        }
        match self.position_of(name) {
            Some(index) => {
                match position_of_path(&self.items[index].to, target) {
                    Some(at) => {
                        let ghost before = self.items@;
                        let mut item = self.items.remove(index);
                        item.to.remove(at);
                        self.items.insert(index, item);
                        assert(forall|j: int| 0 <= j < before.len() && j != index ==> self.items@[j] == before[j]);
                        Ok(())
                    },
                    None => Err(DistributorConfigError::NotExist),
                }
            },
            None => Err(DistributorConfigError::NotExist),
        }
    }
}

/// The glob that finds `pattern` anywhere under `root`.
pub open spec fn ignore_glob_of(root: Seq<char>, pattern: Seq<char>) -> Seq<char> {
    root + "/**/"@ + pattern
}

/// A file or directory reached from a directory root: its path, and its path
/// relative to the root.
#[derive(Debug, Clone, PartialEq)]
pub struct SourceFile {
    pub path: String,
    pub relative: String,
}

/// One entry of a directory listing.
#[derive(Debug, Clone, PartialEq)]
pub struct WalkEntry {
    pub name: String,
    pub is_dir: bool,
}

pub open spec fn source_view(s: SourceFile) -> (Seq<char>, Seq<char>) {
    (s.path@, s.relative@)
}

pub open spec fn source_views(v: Seq<SourceFile>) -> Seq<(Seq<char>, Seq<char>)> {
    v.map_values(|s: SourceFile| source_view(s))
}

/// The entry called `name` inside the directory `dir`.
pub open spec fn child_of(dir: (Seq<char>, Seq<char>), name: Seq<char>) -> (Seq<char>, Seq<char>) {
    (joined_path(dir.0, name), joined_path(dir.1, name))
}

/// The sub-directories of `dir` that a listing names, in listing order.
pub open spec fn listed_dirs(dir: (Seq<char>, Seq<char>), entries: Seq<WalkEntry>) -> Seq<(Seq<char>, Seq<char>)>
    decreases entries.len(),
{
    if entries.len() == 0 {
        Seq::empty()
    } else {
        let rest = listed_dirs(dir, entries.drop_last());
        if entries.last().is_dir {
            rest.push(child_of(dir, entries.last().name@))
        } else {
            rest
        }
    }
}

/// The plain files of `dir` that a listing names and the ignore set does not
/// hold, in listing order.
pub open spec fn listed_files(
    dir: (Seq<char>, Seq<char>),
    entries: Seq<WalkEntry>,
    ignored: Seq<Seq<char>>,
) -> Seq<(Seq<char>, Seq<char>)>
    decreases entries.len(),
{
    if entries.len() == 0 {
        Seq::empty()
    } else {
        let rest = listed_files(dir, entries.drop_last(), ignored);
        let child = child_of(dir, entries.last().name@);
        if !entries.last().is_dir && !has_same_path(ignored, child.0) {
            rest.push(child)
        } else {
            rest
        }
    }
}

/// No kept file is named by an ignore match.
pub open spec fn no_ignored_kept(found: Seq<(Seq<char>, Seq<char>)>, ignored: Seq<Seq<char>>) -> bool {
    forall|i: int| 0 <= i < found.len() ==> !has_same_path(ignored, #[trigger] found[i].0)
}

/// A breadth-first walk over a directory root. The walk hands out one
/// directory at a time and is then given that directory's listing (or told
/// that it could not be read); it queues sub-directories and keeps the files
/// that no ignore match names. Ignore matches never stop a directory from
/// being entered.
pub struct SourceWalk {
    pending: Vec<SourceFile>,
    head: usize,
    awaiting: bool,
    files: Vec<SourceFile>,
    unreadable: Vec<String>,
    ignored: Vec<String>,
}

impl SourceWalk {
    /// Directories queued so far, handed out or not, in order.
    pub closed spec fn pending_dirs(&self) -> Seq<(Seq<char>, Seq<char>)> {
        source_views(self.pending@)
    }

    /// How many queued directories were handed out.
    pub closed spec fn handed_out(&self) -> nat {
        self.head as nat
    }

    /// Whether the last directory handed out still waits for its listing.
    pub closed spec fn is_awaiting(&self) -> bool {
        self.awaiting
    }

    pub closed spec fn found(&self) -> Seq<(Seq<char>, Seq<char>)> {
        source_views(self.files@)
    }

    pub closed spec fn unreadable_dirs(&self) -> Seq<Seq<char>> {
        texts(self.unreadable@)
    }

    pub closed spec fn ignored_paths(&self) -> Seq<Seq<char>> {
        texts(self.ignored@)
    }

    pub closed spec fn wf(&self) -> bool {
        &&& self.head <= self.pending@.len()
        &&& self.awaiting ==> self.head > 0
        &&& no_ignored_kept(self.found(), self.ignored_paths())
    }

    /// Hands out the next queued directory, or `None` once all were handed out.
    pub fn next_dir(&mut self) -> (r: Option<String>)
        requires
            old(self).wf(),
        ensures
            final(self).wf(),
            final(self).pending_dirs() == old(self).pending_dirs(),
            final(self).found() == old(self).found(),
            final(self).unreadable_dirs() == old(self).unreadable_dirs(),
            final(self).ignored_paths() == old(self).ignored_paths(),
            old(self).handed_out() < old(self).pending_dirs().len() ==> {
                &&& r matches Some(dir) && dir@ == old(self).pending_dirs()[old(self).handed_out() as int].0
                &&& final(self).handed_out() == old(self).handed_out() + 1
                &&& final(self).is_awaiting()
            },
            old(self).handed_out() >= old(self).pending_dirs().len() ==> {
                &&& r is None
                &&& final(self).handed_out() == old(self).handed_out()
                &&& !final(self).is_awaiting()
            },
    {
        if self.head < self.pending.len() {
            let dir = self.pending[self.head].path.clone();
            self.head = self.head + 1;
            self.awaiting = true;
            Some(dir)
        } else {
            self.awaiting = false;
            None
        }
    }

    fn is_ignored(&self, path: &str) -> (r: bool)
        ensures
            r == has_same_path(self.ignored_paths(), path@),
    {
        let mut i: usize = 0;
        while i < self.ignored.len()
            invariant
                i <= self.ignored@.len(),
                forall|j: int| 0 <= j < i ==> !path_matches(#[trigger] texts(self.ignored@)[j], path@),
            decreases self.ignored@.len() - i,
        {
            if paths_equal(self.ignored[i].as_str(), path) {
                assert(path_matches(texts(self.ignored@)[i as int], path@));
                return true;
            }
            i = i + 1;
        }
        false
    }

    /// Takes the listing of the directory handed out last (`None` when it could
    /// not be read, which is remembered and skipped). A listing that answers no
    /// directory changes nothing.
    pub fn visit(&mut self, listing: Option<Vec<WalkEntry>>)
        requires
            old(self).wf(),
        ensures
            final(self).wf(),
            !final(self).is_awaiting(),
            final(self).handed_out() == old(self).handed_out(),
            final(self).ignored_paths() == old(self).ignored_paths(),
            !old(self).is_awaiting() ==> {
                &&& final(self).pending_dirs() == old(self).pending_dirs()
                &&& final(self).found() == old(self).found()
                &&& final(self).unreadable_dirs() == old(self).unreadable_dirs()
            },
            old(self).is_awaiting() ==> {
                let dir = old(self).pending_dirs()[old(self).handed_out() - 1];
                match listing {
                    Some(entries) => {
                        &&& final(self).pending_dirs() == old(self).pending_dirs() + listed_dirs(dir, entries@)
                        &&& final(self).found() == old(self).found() + listed_files(
                            dir,
                            entries@,
                            old(self).ignored_paths(),
                        )
                        &&& final(self).unreadable_dirs() == old(self).unreadable_dirs()
                    },
                    None => {
                        &&& final(self).pending_dirs() == old(self).pending_dirs()
                        &&& final(self).found() == old(self).found()
                        &&& final(self).unreadable_dirs() == old(self).unreadable_dirs().push(dir.0)
                    },
                }
            },
    {
        if !self.awaiting {
            return;
        }
        self.awaiting = false;
        let dir_index = self.head - 1;
        let ghost dir = self.pending_dirs()[dir_index as int];
        match listing {
            None => {
                let path = self.pending[dir_index].path.clone();
                self.unreadable.push(path);
                assert(texts(self.unreadable@) =~= old(self).unreadable_dirs().push(dir.0));
            },
            Some(entries) => {
                let dir_path = self.pending[dir_index].path.clone();
                let dir_relative = self.pending[dir_index].relative.clone();
                let ghost pending0 = self.pending_dirs();
                let ghost found0 = self.found();
                let mut i: usize = 0;
                while i < entries.len()
                    invariant
                        self.wf(),
                        !self.awaiting,
                        self.head == old(self).head,
                        i <= entries@.len(),
                        dir == (dir_path@, dir_relative@),
                        self.ignored_paths() == old(self).ignored_paths(),
                        self.unreadable_dirs() == old(self).unreadable_dirs(),
                        self.pending_dirs() == pending0 + listed_dirs(dir, entries@.take(i as int)),
                        self.found() == found0 + listed_files(dir, entries@.take(i as int), self.ignored_paths()),
                    decreases entries@.len() - i,
                {
                    let entry = &entries[i];
                    let child = SourceFile {
                        path: join_path(dir_path.as_str(), entry.name.as_str()),
                        relative: join_path(dir_relative.as_str(), entry.name.as_str()),
                    };
                    assert(entries@.take(i + 1).drop_last() =~= entries@.take(i as int));
                    if entry.is_dir {
                        let ghost before = self.pending@;
                        self.pending.push(child);
                        assert(source_views(self.pending@) =~= source_views(before).push(source_view(child)));
                    } else if !self.is_ignored(child.path.as_str()) {
                        let ghost before = self.files@;
                        self.files.push(child);
                        assert(source_views(self.files@) =~= source_views(before).push(source_view(child)));
                    }
                    i = i + 1;
                }
                assert(entries@.take(entries@.len() as int) =~= entries@);
            },
        }
    }

    /// The files kept so far.
    pub fn sources(&self) -> (r: &Vec<SourceFile>)
        ensures
            source_views(r@) == self.found(),
    {
        &self.files
    }

    /// The directories whose listing could not be read.
    pub fn unreadable(&self) -> (r: &Vec<String>)
        ensures
            texts(r@) == self.unreadable_dirs(),
    {
        &self.unreadable
    }
}

/// At every step of a walk, no file it keeps is named by an ignore match;
/// directories are queued whatever the ignore matches hold (see `visit`).
pub proof fn lemma_kept_files_are_not_ignored(walk: SourceWalk)
    requires
        walk.wf(),
    ensures
        no_ignored_kept(walk.found(), walk.ignored_paths()),
{
}

impl DistributorItem {
    /// The ignore globs, each anchored at the root and matched at any depth.
    pub fn ignore_globs(&self) -> (r: Vec<String>)
        ensures
            r@.len() == self.ignore@.len(),
            forall|i: int| 0 <= i < r@.len() ==> r@[i]@ == ignore_glob_of(self.root@, #[trigger] self.ignore@[i]@),
    {
        let mut globs: Vec<String> = Vec::new();
        let mut i: usize = 0;
        while i < self.ignore.len()
            invariant
                i <= self.ignore@.len(),
                globs@.len() == i,
                forall|j: int| 0 <= j < i ==> globs@[j]@ == ignore_glob_of(self.root@, #[trigger] self.ignore@[j]@),
            decreases self.ignore@.len() - i,
        {
            let mut glob = self.root.clone();
            glob.append("/**/");
            glob.append(self.ignore[i].as_str());
            globs.push(glob);
            i = i + 1;
        }
        globs
    }

    /// Starts the walk of a directory root. `ignored` holds the paths that the
    /// ignore globs match, or `None` when one of the globs is invalid; a root
    /// that is not an existing directory cannot be walked.
    pub fn start_walk(&self, root_is_dir: bool, ignored: Option<Vec<String>>) -> (r: Result<
        SourceWalk,
        DistributorConfigError,
    >)
        ensures
            ignored is None ==> r == Err::<SourceWalk, DistributorConfigError>(
                DistributorConfigError::InvalidGlob,
            ),
            ignored is Some && !root_is_dir ==> r == Err::<SourceWalk, DistributorConfigError>(
                DistributorConfigError::NotExist,
            ),
            ignored is Some && root_is_dir ==> (r matches Ok(walk) && {
                &&& walk.wf()
                &&& walk.pending_dirs() == seq![(self.root@, Seq::<char>::empty())]
                &&& walk.handed_out() == 0
                &&& !walk.is_awaiting()
                &&& walk.found().len() == 0
                &&& walk.unreadable_dirs().len() == 0
                &&& walk.ignored_paths() == texts(ignored->0@)
            }),
    {
        match ignored {
            None => Err(DistributorConfigError::InvalidGlob),
            Some(ignored) => {
                if !root_is_dir {
                    return Err(DistributorConfigError::NotExist);
                }
                let mut pending: Vec<SourceFile> = Vec::new();
                pending.push(SourceFile { path: self.root.clone(), relative: String::new() });
                let walk = SourceWalk {
                    pending,
                    head: 0,
                    awaiting: false,
                    files: Vec::new(),
                    unreadable: Vec::new(),
                    ignored,
                };
                assert(walk.pending_dirs() =~= seq![(self.root@, Seq::<char>::empty())]);
                Ok(walk)
            },
        }
    }
}

} // verus!
