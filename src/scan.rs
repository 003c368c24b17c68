use vstd::prelude::*;

use crate::cache::{desktop_suffix, pairs_map, Cache};
use crate::text::{
    chars_end_with, chars_of, chars_start_with, ends_with, lines_of, split_on, starts_with,
    slice_part, strip_cr,
};

verus! {

/// Whether a Unix permission mode has at least one execute bit set.
pub fn is_executable_mode(mode: u32) -> (r: bool)
    ensures
        r == (mode & 0o111u32 != 0),
{
    mode & 0o111u32 != 0
}

/// Whether a search-path entry is listed: a regular file with at least one
/// execute bit.
pub fn executable_candidate(is_file: bool, mode: u32) -> (r: bool)
    ensures
        r == (is_file && mode & 0o111u32 != 0),
{
    is_file && is_executable_mode(mode)
}

/// A file name whose extension is exactly `desktop`: it ends with
/// `.desktop` and has a non-empty stem before it.
pub open spec fn has_desktop_extension(name: Seq<char>) -> bool {
    ends_with(name, desktop_suffix()) && name.len() > desktop_suffix().len()
}

/// Whether a desktop-directory entry is listed: a regular file whose
/// extension is `desktop`.
pub fn desktop_candidate(is_file: bool, file_name: &str) -> (r: bool)
    ensures
        r == (is_file && has_desktop_extension(file_name@)),
{
    if !is_file {
        return false;
    }
    let cs = chars_of(file_name);
    let suffix = chars_of(".desktop");
    chars_end_with(cs.as_slice(), suffix.as_slice()) && cs.len() > suffix.len()
}

pub open spec fn name_key() -> Seq<char> {
    "Name="@
}

/// The name a shortcut declares: the first line that starts with `Name=`,
/// without that key; empty when no line does.
pub open spec fn declared_name(ls: Seq<Seq<char>>) -> Seq<char>
    decreases ls.len(),
{
    if ls.len() == 0 {
        Seq::empty()
    } else if starts_with(ls[0], name_key()) {
        ls[0].subrange(name_key().len() as int, ls[0].len() as int)
    } else {
        declared_name(ls.drop_first())
    }
}

/// The display name of a desktop shortcut with the given contents.
pub fn desktop_entry_name(contents: &str) -> (r: String)
    ensures
        r@ == declared_name(lines_of(contents@)),
{
    let cs = chars_of(contents);
    let key = chars_of("Name=");
    let pieces = split_on(cs.as_slice(), '\n');
    let ghost ls = lines_of(contents@);
    let n = pieces.len();
    let mut i: usize = 0;
    assert(ls.subrange(0, ls.len() as int) =~= ls);
    while i < n
        invariant
            n == pieces@.len(),
            n == ls.len(),
            ls == lines_of(contents@),
            ls == pieces@.map_values(|x: String| x@).map_values(
                |l: Seq<char>| strip_cr(l),
            ),
            key@ == name_key(),
            i <= n,
            declared_name(ls) == declared_name(ls.subrange(i as int, n as int)),
        decreases n - i,
    {
        let lc = chars_of(pieces[i].as_str());
        let mut end = lc.len();
        if end > 0 && lc[end - 1] == '\r' {
            end = end - 1;
        }
        let line = &lc.as_slice()[0..end];
        assert(line@ =~= strip_cr(lc@));
        assert(ls[i as int] == line@);
        let ghost rest = ls.subrange(i as int, n as int);
        assert(rest[0] == line@);
        if chars_start_with(line, key.as_slice()) {
            return slice_part(line, key.len(), end);
        }
        assert(rest.drop_first() =~= ls.subrange(i + 1, n as int));
        i += 1;
    }
    assert(ls.subrange(n as int, n as int) =~= Seq::<Seq<char>>::empty());
    String::new()
}

/// The pair a listed executable gives: its file name, under itself.
pub open spec fn direct_pair(name: Seq<char>) -> (Seq<char>, Seq<char>) {
    (name, name)
}

impl Cache {
    /// The mapping of the listed executables, each file name to itself.
    pub fn from_executables(names: &Vec<String>) -> (r: Cache)
        ensures
            r.wf(),
            r@ == pairs_map(names@.map_values(|x: String| direct_pair(x@))),
    {
        let ghost ps = names@.map_values(|x: String| direct_pair(x@));
        let mut r = Cache::new();
        let mut i: usize = 0;
        assert(ps.take(0) =~= Seq::<(Seq<char>, Seq<char>)>::empty());
        while i < names.len()
            invariant
                i <= names@.len(),
                ps == names@.map_values(|x: String| direct_pair(x@)),
                r.wf(),
                r@ == pairs_map(ps.take(i as int)),
            decreases names@.len() - i,
        {
            let k = names[i].clone();
            let v = names[i].clone();
            assert(ps.take(i + 1).drop_last() =~= ps.take(i as int));
            assert(ps.take(i + 1).last() == ps[i as int]);
            r.insert(k, v);
            i += 1;
        }
        assert(ps.take(names@.len() as int) =~= ps);
        r
    }
}

} // verus!
