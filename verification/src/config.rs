//! The settings of a server, with the directories that serve files.

use vstd::prelude::*;
use crate::path::{split_path, PathBuf};
use crate::util::pair_views;

verus! {

/// The directories that serve the files below one location, as a
/// mathematical value.
pub struct Mapping {
    /// The components of the location.
    pub prefix: Seq<Seq<char>>,
    /// The directories, in the order in which they were added.
    pub dirs: Seq<Seq<char>>,
}

/// The directories that serve the files below one location.
pub struct StaticDir {
    /// The location, cut into its components.
    pub prefix: PathBuf,
    /// The directories, in the order in which they were added.
    pub dirs: Vec<String>,
}

/// Texts as sequences of characters.
pub open spec fn texts(names: Seq<String>) -> Seq<Seq<char>> {
    Seq::new(names.len(), |i: int| names[i]@)
}

impl View for StaticDir {
    type V = Mapping;

    open spec fn view(&self) -> Mapping {
        Mapping { prefix: self.prefix@, dirs: texts(self.dirs@) }
    }
}

/// No location stands twice among the mappings.
pub open spec fn distinct_locations(mappings: Seq<Mapping>) -> bool {
    forall|i: int, j: int|
        0 <= i < j < mappings.len() ==> (#[trigger] mappings[i]).prefix != (
        #[trigger] mappings[j]).prefix
}

/// The position of the first mapping with the location `prefix`, or the
/// number of mappings if there is none.
pub open spec fn position_of(mappings: Seq<Mapping>, prefix: Seq<Seq<char>>) -> nat
    decreases mappings.len(),
{
    if mappings.len() == 0 || mappings[0].prefix == prefix {
        0
    } else {
        1 + position_of(mappings.drop_first(), prefix)
    }
}

/// The mappings after the directories `dirs` were added for the location
/// `prefix`: behind the directories of the first mapping with this
/// location, or as a new mapping behind the others.
pub open spec fn with_dirs(
    mappings: Seq<Mapping>,
    prefix: Seq<Seq<char>>,
    dirs: Seq<Seq<char>>,
) -> Seq<Mapping> {
    let at = position_of(mappings, prefix) as int;
    if at < mappings.len() {
        mappings.update(at, Mapping { prefix, dirs: mappings[at].dirs + dirs })
    } else {
        mappings.push(Mapping { prefix, dirs })
    }
}

/// The mappings after `dir` was added for the location `prefix`.
pub open spec fn with_dir(mappings: Seq<Mapping>, prefix: Seq<Seq<char>>, dir: Seq<char>) -> Seq<
    Mapping,
> {
    with_dirs(mappings, prefix, seq![dir])
}

/// The mappings after those of `others` were taken over, first to last:
/// the directories of each behind those that its location had already.
pub open spec fn with_mappings(mappings: Seq<Mapping>, others: Seq<Mapping>) -> Seq<Mapping>
    decreases others.len(),
{
    if others.len() == 0 {
        mappings
    } else {
        with_dirs(
            with_mappings(mappings, others.drop_last()),
            others.last().prefix,
            others.last().dirs,
        )
    }
}

/// `position_of` stays within the mappings, no mapping before it has the
/// location, and the mapping at it has, unless it is the end.
pub proof fn lemma_position_of(mappings: Seq<Mapping>, prefix: Seq<Seq<char>>)
    ensures
        position_of(mappings, prefix) <= mappings.len(),
        position_of(mappings, prefix) < mappings.len() ==> mappings[position_of(
            mappings,
            prefix,
        ) as int].prefix == prefix,
        forall|j: int|
            0 <= j < position_of(mappings, prefix) ==> (#[trigger] mappings[j]).prefix != prefix,
    decreases mappings.len(),
{
    if mappings.len() == 0 || mappings[0].prefix == prefix {
    } else {
        let rest = mappings.drop_first();
        lemma_position_of(rest, prefix);
        let at = position_of(rest, prefix) as int;
        if at < rest.len() {
            assert(mappings[at + 1] == rest[at]);
        }
        assert forall|j: int| 0 <= j < position_of(mappings, prefix) implies (
        #[trigger] mappings[j]).prefix != prefix by {
            if j > 0 {
                assert(mappings[j] == rest[j - 1]);
            }
        }
    }
}

/// Adding directories for a location leaves no location twice.
pub proof fn lemma_with_dirs_distinct(
    mappings: Seq<Mapping>,
    prefix: Seq<Seq<char>>,
    dirs: Seq<Seq<char>>,
)
    requires
        distinct_locations(mappings),
    ensures
        distinct_locations(with_dirs(mappings, prefix, dirs)),
{
    lemma_position_of(mappings, prefix);
    let after = with_dirs(mappings, prefix, dirs);
    let at = position_of(mappings, prefix) as int;
    assert forall|i: int, j: int| 0 <= i < j < after.len() implies (#[trigger] after[i]).prefix
        != (#[trigger] after[j]).prefix by {
        if at < mappings.len() {
            assert(after[i].prefix == mappings[i].prefix);
            assert(after[j].prefix == mappings[j].prefix);
        } else {
            assert(after[i] == mappings[i]);
            if j < mappings.len() {
                assert(after[j] == mappings[j]);
            }
        }
    }
}

/// Taking over mappings leaves no location twice.
pub proof fn lemma_with_mappings_distinct(mappings: Seq<Mapping>, others: Seq<Mapping>)
    requires
        distinct_locations(mappings),
    ensures
        distinct_locations(with_mappings(mappings, others)),
    decreases others.len(),
{
    if others.len() > 0 {
        lemma_with_mappings_distinct(mappings, others.drop_last());
        lemma_with_dirs_distinct(
            with_mappings(mappings, others.drop_last()),
            others.last().prefix,
            others.last().dirs,
        );
    }
}

/// A location covers the directory part of a path if its components are
/// the first components of the directory part, one for one. The location
/// without components covers every path.
pub open spec fn covers(prefix: Seq<Seq<char>>, parent: Seq<Seq<char>>) -> bool {
    &&& prefix.len() <= parent.len()
    &&& forall|i: int| 0 <= i < prefix.len() ==> prefix[i] == parent[i]
}

/// The directory part of a path: all components but the last.
pub open spec fn parent_of(path: Seq<Seq<char>>) -> Seq<Seq<char>> {
    if path.len() == 0 {
        path
    } else {
        path.drop_last()
    }
}

/// The file that a path names: its last component, or the empty name.
pub open spec fn file_of(path: Seq<Seq<char>>) -> Seq<char> {
    if path.len() == 0 {
        Seq::empty()
    } else {
        path.last()
    }
}

/// `file` in each of the directories.
pub open spec fn in_dirs(dirs: Seq<Seq<char>>, file: Seq<char>) -> Seq<(Seq<char>, Seq<char>)> {
    Seq::new(dirs.len(), |i: int| (dirs[i], file))
}

/// The files to try for a path: the file that the path names, in each
/// directory of each mapping whose location covers the directory part
/// of the path; mapping by mapping, directory by directory.
pub open spec fn files_for(mappings: Seq<Mapping>, path: Seq<Seq<char>>) -> Seq<
    (Seq<char>, Seq<char>),
>
    decreases mappings.len(),
{
    if mappings.len() == 0 {
        Seq::empty()
    } else {
        let before = files_for(mappings.drop_last(), path);
        if covers(mappings.last().prefix, parent_of(path)) {
            before + in_dirs(mappings.last().dirs, file_of(path))
        } else {
            before
        }
    }
}

/// The settings of a server.
pub struct OctaneConfig {
    /// For how many seconds an idle connection is kept, if it is kept.
    pub keep_alive: Option<u64>,
    /// The directories that serve files, by location.
    pub static_dir: Vec<StaticDir>,
    /// The file that answers a request for which nothing was found.
    pub file_404: String,
}

/// The mappings as mathematical values.
pub open spec fn mapping_views(dirs: Seq<StaticDir>) -> Seq<Mapping> {
    Seq::new(dirs.len(), |i: int| dirs[i]@)
}

/// Whether two paths have the same components.
pub fn same_path(a: &PathBuf, b: &PathBuf) -> (same: bool)
    ensures
        same == (a@ == b@),
{
    if a.chunks.len() != b.chunks.len() {
        proof {
            assert(a@.len() != b@.len());
        }
        return false;
    }
    let mut i: usize = 0;
    while i < a.chunks.len()
        invariant
            a.chunks@.len() == b.chunks@.len(),
            i <= a.chunks@.len(),
            forall|k: int| 0 <= k < i ==> a@[k] == b@[k],
        decreases a.chunks@.len() - i,
    {
        if a.chunks[i] != b.chunks[i] {
            proof {
                assert(a@[i as int] != b@[i as int]);
            }
            return false;
        }
        i += 1;
    }
    proof {
        assert(a@ =~= b@);
    }
    true
}

/// Whether a location covers the directory part of `path`.
fn cover(prefix: &PathBuf, path: &PathBuf) -> (b: bool)
    ensures
        b == covers(prefix@, parent_of(path@)),
{
    let parent_len = if path.chunks.len() == 0 {
        0
    } else {
        path.chunks.len() - 1
    };
    let ghost parent = parent_of(path@);
    if prefix.chunks.len() > parent_len {
        return false;
    }
    let mut i: usize = 0;
    while i < prefix.chunks.len()
        invariant
            parent == parent_of(path@),
            parent_len == parent.len(),
            parent_len <= path.chunks@.len(),
            prefix.chunks@.len() <= parent_len,
            i <= prefix.chunks@.len(),
            forall|k: int| 0 <= k < i ==> prefix@[k] == parent[k],
        decreases prefix.chunks@.len() - i,
    {
        if prefix.chunks[i] != path.chunks[i] {
            proof {
                assert(prefix@[i as int] != parent[i as int]);
            }
            return false;
        }
        i += 1;
    }
    true
}

impl OctaneConfig {
    /// The invariant of the settings: no location has two mappings.
    pub open spec fn wf(&self) -> bool {
        distinct_locations(mapping_views(self.static_dir@))
    }

    /// The settings of a server that keeps no connection and serves no
    /// files.
    pub fn new() -> (config: OctaneConfig)
        ensures
            config.wf(),
            config.keep_alive is None,
            mapping_views(config.static_dir@) == Seq::<Mapping>::empty(),
            config.file_404@ == Seq::<char>::empty(),
    {
        OctaneConfig { keep_alive: None, static_dir: Vec::new(), file_404: String::new() }
    }

    /// Sets for how many seconds an idle connection is kept.
    pub fn set_keepalive(&mut self, seconds: u64)
        ensures
            final(self).keep_alive == Some(seconds),
            final(self).static_dir == old(self).static_dir,
            final(self).file_404 == old(self).file_404,
    {
        self.keep_alive = Some(seconds);
    }

    /// Sets the file that answers a request for which nothing was found.
    pub fn set_404_file(&mut self, name: &str)
        ensures
            final(self).file_404@ == name@,
            final(self).static_dir == old(self).static_dir,
            final(self).keep_alive == old(self).keep_alive,
    {
        self.file_404 = name.to_owned();
    }

    /// The position of the first mapping with the location `prefix`, or
    /// the number of mappings if there is none.
    fn position(&self, prefix: &PathBuf) -> (at: usize)
        ensures
            at == position_of(mapping_views(self.static_dir@), prefix@),
            at <= self.static_dir@.len(),
    {
        let ghost all = mapping_views(self.static_dir@);
        let mut i: usize = 0;
        proof {
            assert(all.skip(0) == all);
        }
        while i < self.static_dir.len()
            invariant
                i <= self.static_dir@.len(),
                all == mapping_views(self.static_dir@),
                position_of(all, prefix@) == i + position_of(all.skip(i as int), prefix@),
            decreases self.static_dir@.len() - i,
        {
            proof {
                assert(all.skip(i as int)[0] == self.static_dir@[i as int]@);
                assert(all.skip(i as int).drop_first() == all.skip(i as int + 1));
            }
            if same_path(&self.static_dir[i].prefix, prefix) {
                return i;
            }
            i += 1;
        }
        i
    }

    /// Lets the directories `dirs` serve the files below the location
    /// `prefix`, behind the directories that serve them already.
    fn add_dirs(&mut self, prefix: PathBuf, dirs: Vec<String>)
        ensures
            mapping_views(final(self).static_dir@) == with_dirs(
                mapping_views(old(self).static_dir@),
                prefix@,
                texts(dirs@),
            ),
            old(self).wf() ==> final(self).wf(),
            final(self).keep_alive == old(self).keep_alive,
            final(self).file_404 == old(self).file_404,
    {
        let ghost before = mapping_views(self.static_dir@);
        let at = self.position(&prefix);
        proof {
            lemma_position_of(before, prefix@);
            if distinct_locations(before) {
                lemma_with_dirs_distinct(before, prefix@, texts(dirs@));
            }
        }
        if at < self.static_dir.len() {
            let mut more = dirs;
            self.static_dir[at].dirs.append(&mut more);
            proof {
                let views = mapping_views(self.static_dir@);
                assert(views[at as int].dirs =~= before[at as int].dirs + texts(dirs@));
                assert(views =~= with_dirs(before, prefix@, texts(dirs@)));
            }
        } else {
            self.static_dir.push(StaticDir { prefix, dirs });
            proof {
                assert(mapping_views(self.static_dir@) =~= with_dirs(
                    before,
                    prefix@,
                    texts(dirs@),
                ));
            }
        }
    }

    /// Lets the directory `dir_name` serve the files below the location
    /// `loc`, behind the directories that serve them already.
    pub fn add_static_dir(&mut self, loc: &str, dir_name: &str)
        ensures
            mapping_views(final(self).static_dir@) == with_dir(
                mapping_views(old(self).static_dir@),
                split_path(loc@),
                dir_name@,
            ),
            old(self).wf() ==> final(self).wf(),
            final(self).keep_alive == old(self).keep_alive,
            final(self).file_404 == old(self).file_404,
    {
        let prefix = PathBuf::split(loc);
        let mut dirs: Vec<String> = Vec::new();
        dirs.push(dir_name.to_owned());
        proof {
            assert(texts(dirs@) =~= seq![dir_name@]);
        }
        self.add_dirs(prefix, dirs);
    }

    /// Takes over the settings of `other`: its time for idle connections
    /// and its file for what was not found in place of those held, and its
    /// mappings, the directories of each behind those that its location
    /// has already. No location gets a second mapping by it.
    pub fn append(&mut self, other: OctaneConfig)
        ensures
            final(self).keep_alive == other.keep_alive,
            final(self).file_404 == other.file_404,
            mapping_views(final(self).static_dir@) == with_mappings(
                mapping_views(old(self).static_dir@),
                mapping_views(other.static_dir@),
            ),
            old(self).wf() ==> final(self).wf(),
    {
        let ghost before = mapping_views(self.static_dir@);
        let ghost others = mapping_views(other.static_dir@);
        let OctaneConfig { keep_alive, static_dir, file_404 } = other;
        self.keep_alive = keep_alive;
        self.file_404 = file_404;
        proof {
            assert(others.take(0) == Seq::<Mapping>::empty());
        }
        for mapping in it: static_dir
            invariant
                it.seq() == static_dir@,
                others == mapping_views(static_dir@),
                self.keep_alive == keep_alive,
                self.file_404 == file_404,
                mapping_views(self.static_dir@) == with_mappings(
                    before,
                    others.take(it.index() as int),
                ),
                distinct_locations(before) ==> self.wf(),
        {
            let ghost k = it.index() as int;
            proof {
                assert(others.take(k + 1).drop_last() == others.take(k));
                assert(others.take(k + 1).last() == mapping@);
            }
            let StaticDir { prefix, dirs } = mapping;
            self.add_dirs(prefix, dirs);
        }
        proof {
            assert(others.take(others.len() as int) == others);
        }
    }

    /// The files to try for `path`, each as a directory and the name of a
    /// file in it.
    pub fn files(&self, path: &PathBuf) -> (found: Vec<(String, String)>)
        ensures
            pair_views(found@) == files_for(mapping_views(self.static_dir@), path@),
    {
        let ghost all = mapping_views(self.static_dir@);
        let mut found: Vec<(String, String)> = Vec::new();
        let file = if path.chunks.len() == 0 {
            String::new()
        } else {
            path.chunks[path.chunks.len() - 1].clone()
        };
        let mut i: usize = 0;
        while i < self.static_dir.len()
            invariant
                i <= self.static_dir@.len(),
                all == mapping_views(self.static_dir@),
                file@ == file_of(path@),
                pair_views(found@) == files_for(all.take(i as int), path@),
            decreases self.static_dir@.len() - i,
        {
            let mapping = &self.static_dir[i];
            let ghost before = pair_views(found@);
            proof {
                assert(all.take(i as int + 1).drop_last() == all.take(i as int));
            }
            if cover(&mapping.prefix, path) {
                let mut k: usize = 0;
                while k < mapping.dirs.len()
                    invariant
                        k <= mapping.dirs@.len(),
                        file@ == file_of(path@),
                        pair_views(found@) == before + in_dirs(
                            mapping@.dirs,
                            file@,
                        ).take(k as int),
                    decreases mapping.dirs@.len() - k,
                {
                    let ghost sofar = pair_views(found@);
                    let dir = mapping.dirs[k].clone();
                    let name = file.clone();
                    found.push((dir, name));
                    proof {
                        assert(pair_views(found@) =~= sofar.push((dir@, name@)));
                    }
                    k += 1;
                }
            }
            i += 1;
        }
        proof {
            assert(all.take(all.len() as int) == all);
        }
        found
    }
}

} // verus!
