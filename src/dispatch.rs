use vstd::prelude::*;

use crate::cache::{desktop_suffix, Cache};
use crate::text::{chars_end_with, chars_of, ends_with, slice_part};

verus! {

/// Unicode white space, as `char::is_whitespace` defines it.
pub open spec fn is_space(c: char) -> bool {
    let u = c as u32;
    (0x9 <= u && u <= 0xd) || u == 0x20 || u == 0x85 || u == 0xa0 || u == 0x1680 || (0x2000 <= u
        && u <= 0x200a) || u == 0x2028 || u == 0x2029 || u == 0x202f || u == 0x205f || u == 0x3000
}

/// Whether `c` is white space.
pub fn space(c: char) -> (r: bool)
    ensures
        r == is_space(c),
{
    let u = c as u32;
    (0x9 <= u && u <= 0xd) || u == 0x20 || u == 0x85 || u == 0xa0 || u == 0x1680 || (0x2000 <= u
        && u <= 0x200a) || u == 0x2028 || u == 0x2029 || u == 0x202f || u == 0x205f || u == 0x3000
}

/// The maximal runs of non-space characters of `s`, in order.
pub open spec fn words(s: Seq<char>) -> Seq<Seq<char>>
    decreases s.len(),
{
    if s.len() == 0 {
        Seq::empty()
    } else {
        let w = words(s.drop_last());
        let c = s.last();
        if is_space(c) {
            w
        } else if s.len() >= 2 && !is_space(s[s.len() - 2]) {
            w.update(w.len() - 1, w.last().push(c))
        } else {
            w.push(seq![c])
        }
    }
}

pub open spec fn trim_start(s: Seq<char>) -> Seq<char>
    decreases s.len(),
{
    if s.len() > 0 && is_space(s[0]) {
        trim_start(s.drop_first())
    } else {
        s
    }
}

pub open spec fn trim_end(s: Seq<char>) -> Seq<char>
    decreases s.len(),
{
    if s.len() > 0 && is_space(s.last()) {
        trim_end(s.drop_last())
    } else {
        s
    }
}

/// `s` without `p` at its end, where it ends so.
pub open spec fn strip_suffix(s: Seq<char>, p: Seq<char>) -> Seq<char> {
    if ends_with(s, p) {
        s.take(s.len() - p.len())
    } else {
        s
    }
}

/// What a selector's output names: the output without surrounding white
/// space, then without a trailing shortcut extension.
pub open spec fn choice_of(raw: Seq<char>) -> Seq<char> {
    strip_suffix(trim_end(trim_start(raw)), desktop_suffix())
}

/// The name that the selector's raw output stands for.
pub fn selector_choice(raw: &str) -> (r: String)
    ensures
        r@ == choice_of(raw@),
{
    let cs = chars_of(raw);
    let n = cs.len();
    let mut a: usize = 0;
    assert(cs@.subrange(0, n as int) =~= cs@);
    while a < n && space(cs[a])
        invariant
            a <= n,
            n == cs@.len(),
            trim_start(cs@) == trim_start(cs@.subrange(a as int, n as int)),
        decreases n - a,
    {
        assert(cs@.subrange(a as int, n as int).drop_first() =~= cs@.subrange(a + 1, n as int));
        a += 1;
    }
    let ghost front = cs@.subrange(a as int, n as int);
    assert(trim_start(cs@) == front);
    let mut b: usize = n;
    assert(front =~= cs@.subrange(a as int, b as int));
    while b > a && space(cs[b - 1])
        invariant
            a <= b <= n,
            n == cs@.len(),
            trim_end(front) == trim_end(cs@.subrange(a as int, b as int)),
        decreases b - a,
    {
        assert(cs@.subrange(a as int, b as int).drop_last() =~= cs@.subrange(a as int, b - 1));
        b -= 1;
    }
    let ghost trimmed = cs@.subrange(a as int, b as int);
    assert(trim_end(front) == trimmed);
    let suffix = chars_of(".desktop");
    if chars_end_with(&cs.as_slice()[a..b], suffix.as_slice()) {
        let e = b - suffix.len();
        assert(cs@.subrange(a as int, e as int) =~= trimmed.take(trimmed.len() - suffix@.len()));
        slice_part(cs.as_slice(), a, e)
    } else {
        slice_part(cs.as_slice(), a, b)
    }
}

/// The words of `s`.
pub fn split_words(s: &str) -> (r: Vec<String>)
    ensures
        r@.map_values(|x: String| x@) == words(s@),
{
    let cs = chars_of(s);
    let n = cs.len();
    let mut out: Vec<String> = Vec::new();
    let mut start: usize = 0;
    let mut in_word = false;
    let mut i: usize = 0;
    assert(cs@.take(0) =~= Seq::<char>::empty());
    assert(out@.map_values(|x: String| x@) =~= Seq::<Seq<char>>::empty());
    while i < n
        invariant
            n == cs@.len(),
            start <= i <= n,
            in_word ==> start < i,
            in_word == (i > 0 && !is_space(cs@[i - 1])),
            words(cs@.take(i as int)) == if in_word {
                out@.map_values(|x: String| x@).push(cs@.subrange(start as int, i as int))
            } else {
                out@.map_values(|x: String| x@)
            },
        decreases n - i,
    {
        let c = cs[i];
        let ghost ov = out@.map_values(|x: String| x@);
        let ghost t = cs@.take(i + 1);
        assert(t.drop_last() =~= cs@.take(i as int));
        assert(t.last() == c);
        if i > 0 {
            assert(t[t.len() - 2] == cs@[i - 1]);
        }
        if space(c) {
            if in_word {
                let piece = slice_part(cs.as_slice(), start, i);
                out.push(piece);
                assert(out@.map_values(|x: String| x@) =~= ov.push(piece@));
                in_word = false;
            }
        } else {
            if in_word {
                assert(cs@.subrange(start as int, i + 1) =~= cs@.subrange(
                    start as int,
                    i as int,
                ).push(c));
                assert(words(t) =~= ov.push(cs@.subrange(start as int, i + 1)));
            } else {
                start = i;
                in_word = true;
                assert(cs@.subrange(start as int, i + 1) =~= seq![c]);
            }
        }
        i += 1;
    }
    assert(cs@.take(n as int) =~= cs@);
    if in_word {
        let ghost ov = out@.map_values(|x: String| x@);
        let piece = slice_part(cs.as_slice(), start, n);
        out.push(piece);
        assert(out@.map_values(|x: String| x@) =~= ov.push(piece@));
    }
    out
}

/// How a chosen name is to be started.
pub enum Launch {
    /// An executable on the search path, started in the foreground with no
    /// arguments.
    Direct(String),
    /// A desktop shortcut: the launcher first detaches into the background,
    /// then hands the shortcut's file name to the desktop-launch helper.
    Desktop(String),
    /// A typed command line: a program and its arguments.
    Freeform(String, Vec<String>),
    /// Nothing to start: the typed text held no word.
    Empty,
}

/// Whether `r` is how `choice` is started under mapping `m`.
pub open spec fn resolves_to(m: Map<Seq<char>, Seq<char>>, choice: Seq<char>, r: Launch) -> bool {
    if m.contains_key(choice) {
        if m[choice] == choice {
            r matches Launch::Direct(p) && p@ == choice
        } else {
            r matches Launch::Desktop(f) && f@ == m[choice]
        }
    } else {
        let w = words(choice);
        if w.len() == 0 {
            r is Empty
        } else {
            r matches Launch::Freeform(p, args) && p@ == w[0] && args@.map_values(
                |x: String| x@,
            ) == w.drop_first()
        }
    }
}

/// Decides how the chosen name is started.
pub fn resolve(cache: &Cache, choice: &String) -> (r: Launch)
    requires
        cache.wf(),
    ensures
        resolves_to(cache@, choice@, r),
{
    match cache.get(choice) {
        Some(target) => {
            if target == *choice {
                Launch::Direct(target)
            } else {
                Launch::Desktop(target)
            }
        },
        None => {
            let mut w = split_words(choice.as_str());
            if w.len() == 0 {
                Launch::Empty
            } else {
                let ghost wv = w@.map_values(|x: String| x@);
                let program = w.remove(0);
                assert(w@.map_values(|x: String| x@) =~= wv.drop_first());
                Launch::Freeform(program, w)
            }
        },
    }
}

/// The status the launcher exits with: the started program's if known, else
/// the selector's, else -1.
pub fn exit_code(launched: Option<i32>, selector: Option<i32>) -> (r: i32)
    ensures
        r == match launched {
            Some(c) => c as int,
            None => match selector {
                Some(c) => c as int,
                None => -1,
            },
        },
{
    match launched {
        Some(c) => c,
        None => match selector {
            Some(c) => c,
            None => -1,
        },
    }
}

} // verus!
