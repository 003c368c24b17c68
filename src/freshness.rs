use vstd::prelude::*;

use crate::text::{chars_of, split, split_on};

verus! {

/// Whether a directory time is known and strictly after `c`.
pub open spec fn newer(t: Option<i128>, c: i128) -> bool {
    match t {
        Some(x) => x > c,
        None => false,
    }
}

/// Whether the persisted mapping must be rebuilt. Times are nanoseconds from
/// the Unix epoch; a directory whose time could not be read is `None` and
/// never forces a rebuild.
pub open spec fn stale(cache_mtime: Option<i128>, dir_mtimes: Seq<Option<i128>>) -> bool {
    match cache_mtime {
        None => true,
        Some(c) => exists|i: int|
            0 <= i < dir_mtimes.len() && newer(#[trigger] dir_mtimes[i], c),
    }
}

/// Decides whether to rebuild: when the cache file is missing (`None`), or
/// when some watched directory changed strictly after it.
pub fn needs_rebuild(cache_mtime: Option<i128>, dir_mtimes: &Vec<Option<i128>>) -> (r: bool)
    ensures
        r == stale(cache_mtime, dir_mtimes@),
{
    match cache_mtime {
        None => true,
        Some(c) => {
            let mut i: usize = 0;
            while i < dir_mtimes.len()
                invariant
                    cache_mtime == Some(c),
                    i <= dir_mtimes@.len(),
                    forall|j: int|
                        0 <= j < i ==> !newer(#[trigger] dir_mtimes@[j], c),
                decreases dir_mtimes@.len() - i,
            {
                match dir_mtimes[i] {
                    Some(t) => {
                        if t > c {
                            assert(newer(dir_mtimes@[i as int], c));
                            return true;
                        }
                    },
                    None => {},
                }
                i += 1;
            }
            false
        },
    }
}

/// A missing cache file is always rebuilt; a cache file newer than every
/// watched directory is reused; one older than some watched directory is
/// rebuilt.
pub proof fn lemma_staleness(cache_mtime: Option<i128>, dir_mtimes: Seq<Option<i128>>)
    ensures
        cache_mtime is None ==> stale(cache_mtime, dir_mtimes),
        forall|c: i128|
            cache_mtime == Some(c) && (forall|i: int|
                0 <= i < dir_mtimes.len() && #[trigger] dir_mtimes[i] is Some ==> dir_mtimes[i]->0
                    < c) ==> !stale(cache_mtime, dir_mtimes),
        forall|c: i128, i: int|
            cache_mtime == Some(c) && 0 <= i < dir_mtimes.len() && #[trigger] newer(
                dir_mtimes[i],
                c,
            ) ==> stale(cache_mtime, dir_mtimes),
{
}

/// Where the launcher looks: the search-path directories and the desktop
/// shortcut directories, the latter in the order in which they are scanned.
pub struct Config {
    pub path_dirs: Vec<String>,
    pub desktop_dirs: Vec<String>,
}

/// The directories named by a colon-separated search path, empty pieces
/// included.
pub fn split_search_path(path: &str) -> (r: Vec<String>)
    ensures
        r@.map_values(|x: String| x@) == split(path@, ':'),
{
    let cs = chars_of(path);
    split_on(cs.as_slice(), ':')
}

impl Config {
    /// The configuration for a search path, the user's desktop folder and the
    /// user's local applications directory. Desktop directories are scanned
    /// desktop folder first, then the system-wide applications directory,
    /// then the local one.
    pub fn new(search_path: &str, desktop_folder: String, local_applications: String) -> (r:
        Config)
        ensures
            r.path_dirs@.map_values(|x: String| x@) == split(search_path@, ':'),
            r.desktop_dirs@.map_values(|x: String| x@) == seq![
                desktop_folder@,
                "/usr/share/applications"@,
                local_applications@,
            ],
    {
        let path_dirs = split_search_path(search_path);
        let mut desktop_dirs: Vec<String> = Vec::new();
        let system = String::from_str("/usr/share/applications");
        desktop_dirs.push(desktop_folder);
        desktop_dirs.push(system);
        desktop_dirs.push(local_applications);
        assert(desktop_dirs@.map_values(|x: String| x@) =~= seq![
            desktop_folder@,
            "/usr/share/applications"@,
            local_applications@,
        ]);
        Config { path_dirs, desktop_dirs }
    }

    /// Every directory whose change makes the cache stale: the search-path
    /// directories, then the desktop directories.
    pub fn watched_dirs(&self) -> (r: Vec<String>)
        ensures
            r@.map_values(|x: String| x@) == self.path_dirs@.map_values(|x: String| x@)
                + self.desktop_dirs@.map_values(|x: String| x@),
    {
        let mut r: Vec<String> = Vec::new();
        let mut i: usize = 0;
        while i < self.path_dirs.len()
            invariant
                i <= self.path_dirs@.len(),
                r@.map_values(|x: String| x@) == self.path_dirs@.map_values(|x: String| x@).take(
                    i as int,
                ),
            decreases self.path_dirs@.len() - i,
        {
            let ghost prev = r@.map_values(|x: String| x@);
            r.push(self.path_dirs[i].clone());
            assert(r@.map_values(|x: String| x@) =~= prev.push(self.path_dirs@[i as int]@));
            assert(r@.map_values(|x: String| x@) =~= self.path_dirs@.map_values(
                |x: String| x@,
            ).take(i + 1));
            i += 1;
        }
        let mut j: usize = 0;
        while j < self.desktop_dirs.len()
            invariant
                i == self.path_dirs@.len(),
                j <= self.desktop_dirs@.len(),
                r@.map_values(|x: String| x@) == self.path_dirs@.map_values(|x: String| x@)
                    + self.desktop_dirs@.map_values(|x: String| x@).take(j as int),
            decreases self.desktop_dirs@.len() - j,
        {
            let ghost prev = r@.map_values(|x: String| x@);
            r.push(self.desktop_dirs[j].clone());
            assert(r@.map_values(|x: String| x@) =~= prev.push(self.desktop_dirs@[j as int]@));
            assert(r@.map_values(|x: String| x@) =~= self.path_dirs@.map_values(|x: String| x@)
                + self.desktop_dirs@.map_values(|x: String| x@).take(j + 1));
            j += 1;
        }
        assert(self.desktop_dirs@.map_values(|x: String| x@).take(j as int) =~= self.desktop_dirs@.map_values(|x: String| x@));
        r
    }
}

} // verus!
