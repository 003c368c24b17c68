use vstd::prelude::*;

use crate::cache::Cache;
use crate::text::{chars_of, string_of, views};

verus! {

/// Text order: by code point at the first difference, a proper prefix
/// first. This is the order of `str`'s `Ord`.
pub open spec fn text_lt(a: Seq<char>, b: Seq<char>) -> bool
    decreases a.len(),
{
    if a.len() == 0 {
        b.len() > 0
    } else if b.len() == 0 {
        false
    } else if a[0] != b[0] {
        a[0] < b[0]
    } else {
        text_lt(a.drop_first(), b.drop_first())
    }
}

pub proof fn lemma_text_lt_total(a: Seq<char>, b: Seq<char>)
    ensures
        a != b ==> text_lt(a, b) || text_lt(b, a),
        !(text_lt(a, b) && text_lt(b, a)),
        !text_lt(a, a),
    decreases a.len(),
{
    if a.len() > 0 && b.len() > 0 {
        lemma_text_lt_total(a.drop_first(), b.drop_first());
        lemma_text_lt_total(a.drop_first(), a.drop_first());
        if a[0] == b[0] && a != b {
            assert(a =~= seq![a[0]] + a.drop_first());
            assert(b =~= seq![b[0]] + b.drop_first());
        }
    } else if a.len() > 0 {
        lemma_text_lt_total(a.drop_first(), a.drop_first());
    } else if b.len() == 0 {
        assert(a =~= b);
    }
}

pub proof fn lemma_text_lt_trans(a: Seq<char>, b: Seq<char>, c: Seq<char>)
    requires
        text_lt(a, b),
        text_lt(b, c),
    ensures
        text_lt(a, c),
    decreases a.len(),
{
    if a.len() > 0 && b.len() > 0 && c.len() > 0 && a[0] == b[0] && b[0] == c[0] {
        lemma_text_lt_trans(a.drop_first(), b.drop_first(), c.drop_first());
    }
}

/// Whether `a` comes before `b` in text order.
pub fn text_less(a: &[char], b: &[char]) -> (r: bool)
    ensures
        r == text_lt(a@, b@),
{
    let mut i: usize = 0;
    assert(a@.skip(0) =~= a@);
    assert(b@.skip(0) =~= b@);
    while i < a.len() && i < b.len() && a[i] == b[i]
        invariant
            i <= a@.len(),
            i <= b@.len(),
            text_lt(a@, b@) == text_lt(a@.skip(i as int), b@.skip(i as int)),
        decreases a@.len() - i,
    {
        assert(a@.skip(i as int).drop_first() =~= a@.skip(i + 1));
        assert(b@.skip(i as int).drop_first() =~= b@.skip(i + 1));
        i += 1;
    }
    if i == a.len() {
        i < b.len()
    } else if i == b.len() {
        false
    } else {
        a[i] < b[i]
    }
}

/// Each name comes strictly before the next; so no name occurs twice.
pub open spec fn strictly_sorted(s: Seq<Seq<char>>) -> bool {
    forall|i: int, j: int| 0 <= i < j < s.len() ==> text_lt(#[trigger] s[i], #[trigger] s[j])
}

/// The menu's entries: every display name once, in text order.
pub fn menu_names(cache: &Cache) -> (r: Vec<String>)
    requires
        cache.wf(),
    ensures
        strictly_sorted(views(r@)),
        forall|k: Seq<char>|
            views(r@).contains(k) <==> cache@.contains_key(k),
{
    let keys = cache.keys();
    let mut out: Vec<String> = Vec::new();
    let mut outc: Vec<Vec<char>> = Vec::new();
    let mut i: usize = 0;
    while i < keys.len()
        invariant
            i <= keys@.len(),
            outc@.len() == out@.len(),
            forall|j: int| 0 <= j < out@.len() ==> #[trigger] outc@[j]@ == out@[j]@,
            strictly_sorted(views(out@)),
            forall|k: Seq<char>|
                #[trigger] views(out@).contains(k) <==> exists|j: int|
                    0 <= j < i && #[trigger] keys@[j]@ == k,
        decreases keys@.len() - i,
    {
        let xc = chars_of(keys[i].as_str());
        let ghost x = xc@;
        let ghost ov = views(out@);
        let mut p: usize = 0;
        while p < out.len() && text_less(outc[p].as_slice(), xc.as_slice())
            invariant
                p <= out@.len(),
                outc@.len() == out@.len(),
                forall|j: int| 0 <= j < out@.len() ==> #[trigger] outc@[j]@ == out@[j]@,
                forall|j: int| 0 <= j < p ==> text_lt(#[trigger] ov[j], x),
                ov == views(out@),
                x == xc@,
            decreases out@.len() - p,
        {
            assert(ov[p as int] == outc@[p as int]@);
            p += 1;
        }
        let dup = p < out.len() && !text_less(xc.as_slice(), outc[p].as_slice());
        if p < out.len() {
            assert(ov[p as int] == outc@[p as int]@);
            proof {
                lemma_text_lt_total(ov[p as int], x);
            }
        }
        if dup {
            assert(ov[p as int] == x);
            assert forall|k: Seq<char>|
                #[trigger] ov.contains(k) <==> exists|j: int| 0 <= j < i + 1 && #[trigger] keys@[j]@ == k by {
                if k == x {
                    assert(ov[p as int] == k);
                }
                if ov.contains(k) {
                    let j = choose|j: int| 0 <= j < i && #[trigger] keys@[j]@ == k;
                }
            }
        } else {
            let name = string_of(xc.as_slice());
            out.insert(p, name);
            outc.insert(p, xc);
            let ghost nv = views(out@);
            assert(nv =~= ov.insert(p as int, x));
            assert forall|q: int| p <= q < ov.len() implies text_lt(x, #[trigger] ov[q]) by {
                if q > p {
                    lemma_text_lt_trans(x, ov[p as int], ov[q]);
                }
            }
            assert forall|a: int, b: int| 0 <= a < b < nv.len() implies text_lt(
                #[trigger] nv[a],
                #[trigger] nv[b],
            ) by {
                if b < p {
                } else if b == p {
                } else if a == p {
                    assert(text_lt(x, ov[b - 1]));
                } else if a < p {
                    assert(text_lt(x, ov[b - 1]));
                    lemma_text_lt_trans(ov[a], x, ov[b - 1]);
                }
            }
            assert forall|k: Seq<char>|
                #[trigger] nv.contains(k) <==> exists|j: int| 0 <= j < i + 1 && #[trigger] keys@[j]@ == k by {
                if k == x {
                    assert(nv[p as int] == k);
                }
                if nv.contains(k) {
                    let q = choose|q: int| 0 <= q < nv.len() && nv[q] == k;
                    if q < p {
                        assert(ov[q] == k);
                    } else if q > p {
                        assert(ov[q - 1] == k);
                    }
                }
                if ov.contains(k) {
                    let q = choose|q: int| 0 <= q < ov.len() && ov[q] == k;
                    if q < p {
                        assert(nv[q] == k);
                    } else {
                        assert(nv[q + 1] == k);
                    }
                }
            }
            assert forall|j: int| 0 <= j < out@.len() implies #[trigger] outc@[j]@ == out@[j]@ by {
                if j < p {
                } else if j > p {
                    assert(ov[j - 1] == nv[j]);
                }
            }
        }
        i += 1;
    }
    out
}

/// The text handed to the selector: the names joined by line feeds, and a
/// final line feed.
pub open spec fn joined(s: Seq<Seq<char>>) -> Seq<char>
    decreases s.len(),
{
    if s.len() == 0 {
        Seq::empty()
    } else if s.len() == 1 {
        s[0]
    } else {
        joined(s.drop_last()) + seq!['\n'] + s.last()
    }
}

/// The selector's input for the given names.
pub fn menu_text(names: &Vec<String>) -> (r: String)
    ensures
        r@ == joined(views(names@)).push('\n'),
{
    let ghost nv = views(names@);
    let mut out: Vec<char> = Vec::new();
    let mut i: usize = 0;
    assert(nv.take(0) =~= Seq::<Seq<char>>::empty());
    while i < names.len()
        invariant
            i <= names@.len(),
            nv == views(names@),
            out@ == joined(nv.take(i as int)),
        decreases names@.len() - i,
    {
        let mut c = chars_of(names[i].as_str());
        if i > 0 {
            out.push('\n');
        }
        out.append(&mut c);
        assert(nv.take(i + 1).drop_last() =~= nv.take(i as int));
        assert(nv.take(i + 1).last() == nv[i as int]);
        if i == 0 {
            assert(out@ =~= joined(nv.take(1)));
        } else {
            assert(out@ =~= joined(nv.take(i + 1)));
        }
        i += 1;
    }
    out.push('\n');
    assert(nv.take(names@.len() as int) =~= nv);
    string_of(out.as_slice())
}

} // verus!
