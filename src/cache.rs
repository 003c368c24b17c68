use vstd::prelude::*;

use crate::text::{
    chars_of, ends_with, lemma_split_append_free, lemma_split_free, lemma_split_nonempty,
    lemma_split_push_delim, lines_of, split, split_on, string_of, strip_cr, text_ends_with,
};

verus! {

/// The mapping that a sequence of (key, value) pairs gives when the pairs
/// are stored in order: a later pair replaces an earlier one with its key.
pub open spec fn pairs_map(s: Seq<(Seq<char>, Seq<char>)>) -> Map<Seq<char>, Seq<char>>
    decreases s.len(),
{
    if s.len() == 0 {
        Map::empty()
    } else {
        pairs_map(s.drop_last()).insert(s.last().0, s.last().1)
    }
}

/// No key occurs twice.
pub open spec fn keys_unique(s: Seq<(Seq<char>, Seq<char>)>) -> bool {
    forall|i: int, j: int| 0 <= i < j < s.len() ==> s[i].0 != s[j].0
}

pub proof fn lemma_pairs_map_dom(s: Seq<(Seq<char>, Seq<char>)>)
    ensures
        forall|k: Seq<char>|
            pairs_map(s).contains_key(k) <==> exists|j: int| 0 <= j < s.len() && s[j].0 == k,
    decreases s.len(),
{
    if s.len() > 0 {
        let s0 = s.drop_last();
        lemma_pairs_map_dom(s0);
        assert forall|k: Seq<char>|
            pairs_map(s).contains_key(k) <==> exists|j: int| 0 <= j < s.len() && s[j].0 == k by {
            if pairs_map(s).contains_key(k) {
                if k != s.last().0 {
                    assert(pairs_map(s0).contains_key(k));
                    let j = choose|j: int| 0 <= j < s0.len() && s0[j].0 == k;
                    assert(s[j] == s0[j]);
                } else {
                    assert(s[s.len() - 1].0 == k);
                }
            }
            if exists|j: int| 0 <= j < s.len() && s[j].0 == k {
                let j = choose|j: int| 0 <= j < s.len() && s[j].0 == k;
                if j < s.len() - 1 {
                    assert(s0[j] == s[j]);
                    assert(pairs_map(s0).contains_key(k));
                }
            }
        }
    }
}

pub proof fn lemma_pairs_map_unique(s: Seq<(Seq<char>, Seq<char>)>)
    requires
        keys_unique(s),
    ensures
        forall|j: int|
            0 <= j < s.len() ==> #[trigger] pairs_map(s).contains_key(s[j].0) && pairs_map(
                s,
            )[s[j].0] == s[j].1,
    decreases s.len(),
{
    if s.len() > 0 {
        let s0 = s.drop_last();
        assert(keys_unique(s0)) by {
            assert forall|i: int, j: int| 0 <= i < j < s0.len() implies s0[i].0 != s0[j].0 by {
                assert(s0[i] == s[i] && s0[j] == s[j]);
            }
        }
        lemma_pairs_map_unique(s0);
        assert forall|j: int| 0 <= j < s.len() implies #[trigger] pairs_map(s).contains_key(
            s[j].0,
        ) && pairs_map(s)[s[j].0] == s[j].1 by {
            if j < s.len() - 1 {
                assert(s0[j] == s[j]);
                assert(s[j].0 != s[s.len() - 1].0);
                assert(pairs_map(s0).contains_key(s0[j].0));
            }
        }
    }
}

pub proof fn lemma_keys_card(s: Seq<(Seq<char>, Seq<char>)>)
    requires
        keys_unique(s),
    ensures
        pairs_map(s).dom().len() == s.len(),
        pairs_map(s).dom().finite(),
    decreases s.len(),
{
    if s.len() > 0 {
        let s0 = s.drop_last();
        assert(keys_unique(s0)) by {
            assert forall|i: int, j: int| 0 <= i < j < s0.len() implies s0[i].0 != s0[j].0 by {
                assert(s0[i] == s[i] && s0[j] == s[j]);
            }
        }
        lemma_keys_card(s0);
        lemma_pairs_map_dom(s0);
        assert(!pairs_map(s0).contains_key(s.last().0)) by {
            if pairs_map(s0).contains_key(s.last().0) {
                let j = choose|j: int| 0 <= j < s0.len() && s0[j].0 == s.last().0;
                assert(s[j] == s0[j]);
            }
        }
    }
}

/// Storing pairs in two runs: what the later run stores wins.
pub proof fn lemma_later_wins(
    earlier: Seq<(Seq<char>, Seq<char>)>,
    later: Seq<(Seq<char>, Seq<char>)>,
)
    ensures
        pairs_map(earlier + later) == pairs_map(earlier).union_prefer_right(pairs_map(later)),
    decreases later.len(),
{
    if later.len() == 0 {
        assert(earlier + later =~= earlier);
        assert(pairs_map(earlier).union_prefer_right(pairs_map(later)) =~= pairs_map(earlier));
    } else {
        lemma_later_wins(earlier, later.drop_last());
        assert((earlier + later).drop_last() =~= earlier + later.drop_last());
        assert((earlier + later).last() == later.last());
        assert(pairs_map(earlier + later) =~= pairs_map(earlier).union_prefer_right(
            pairs_map(later),
        ));
    }
}

/// The line that records one pair: key, a NUL separator, value.
pub open spec fn record_line(p: (Seq<char>, Seq<char>)) -> Seq<char> {
    p.0 + seq!['\0'] + p.1
}

pub open spec fn record_lines(s: Seq<(Seq<char>, Seq<char>)>) -> Seq<Seq<char>> {
    s.map_values(|p: (Seq<char>, Seq<char>)| record_line(p))
}

/// The persisted form of a sequence of pairs: one record line per pair,
/// each ended by a line feed.
pub open spec fn text_of(s: Seq<(Seq<char>, Seq<char>)>) -> Seq<char>
    decreases s.len(),
{
    if s.len() == 0 {
        Seq::empty()
    } else {
        text_of(s.drop_last()) + record_line(s.last()) + seq!['\n']
    }
}

/// The pair that a line records: present when the line splits at NUL into
/// exactly two pieces.
pub open spec fn record_of(l: Seq<char>) -> Option<(Seq<char>, Seq<char>)> {
    let p = split(l, '\0');
    if p.len() == 2 {
        Some((p[0], p[1]))
    } else {
        None
    }
}

/// The pairs that the well-formed lines record, in order.
pub open spec fn records(ls: Seq<Seq<char>>) -> Seq<(Seq<char>, Seq<char>)>
    decreases ls.len(),
{
    if ls.len() == 0 {
        Seq::empty()
    } else {
        let r = records(ls.drop_last());
        match record_of(ls.last()) {
            Some(p) => r.push(p),
            None => r,
        }
    }
}

/// The mapping that persisted text holds.
pub open spec fn parsed(t: Seq<char>) -> Map<Seq<char>, Seq<char>> {
    pairs_map(records(lines_of(t)))
}

/// Text that can stand in a record without changing its shape.
pub open spec fn delimiter_free(t: Seq<char>) -> bool {
    !t.contains('\0') && !t.contains('\n') && !t.contains('\r')
}

pub open spec fn pair_free(p: (Seq<char>, Seq<char>)) -> bool {
    delimiter_free(p.0) && delimiter_free(p.1)
}

/// The extension that marks a desktop shortcut's file name.
pub open spec fn desktop_suffix() -> Seq<char> {
    ".desktop"@
}

/// Whether an entry stays under a filter: hiding direct entries keeps
/// those whose key and value differ; hiding desktop entries keeps those
/// whose value lacks the shortcut extension.
pub open spec fn keeps(hide_direct: bool, k: Seq<char>, v: Seq<char>) -> bool {
    if hide_direct {
        k != v
    } else {
        !ends_with(v, desktop_suffix())
    }
}

pub open spec fn kept(m: Map<Seq<char>, Seq<char>>, hide_direct: bool) -> Map<
    Seq<char>,
    Seq<char>,
> {
    Map::new(|k: Seq<char>| m.contains_key(k) && keeps(hide_direct, k, m[k]), |k: Seq<char>| m[k])
}

proof fn lemma_free_concat(a: Seq<char>, b: Seq<char>, c: char)
    requires
        !a.contains(c),
        !b.contains(c),
    ensures
        !(a + b).contains(c),
{
    if (a + b).contains(c) {
        let j = choose|j: int| 0 <= j < (a + b).len() && (a + b)[j] == c;
        if j < a.len() {
            assert(a[j] == c);
        } else {
            assert(b[j - a.len()] == c);
        }
    }
}

proof fn lemma_record_line(p: (Seq<char>, Seq<char>))
    requires
        pair_free(p),
    ensures
        !record_line(p).contains('\n'),
        strip_cr(record_line(p)) == record_line(p),
        record_of(record_line(p)) == Some(p),
{
    let z = seq!['\0'];
    assert(!z.contains('\n') && !z.contains('\r')) by {
        if z.contains('\n') || z.contains('\r') {
            let j = choose|j: int| 0 <= j < z.len() && (z[j] == '\n' || z[j] == '\r');
        }
    }
    lemma_free_concat(p.0, z, '\n');
    lemma_free_concat(p.0 + z, p.1, '\n');
    let l = record_line(p);
    if p.1.len() > 0 {
        assert(l.last() == p.1.last());
        assert(p.1[p.1.len() - 1] != '\r');
    } else {
        assert(l.last() == '\0');
    }
    lemma_split_free(p.0, '\0');
    lemma_split_push_delim(p.0, '\0');
    assert(p.0 + z =~= p.0.push('\0'));
    lemma_split_append_free(p.0 + z, p.1, '\0');
    assert(Seq::<char>::empty() + p.1 =~= p.1);
    assert(split(l, '\0') =~= seq![p.0, p.1]);
}

proof fn lemma_split_text(s: Seq<(Seq<char>, Seq<char>)>)
    requires
        forall|j: int| 0 <= j < s.len() ==> pair_free(#[trigger] s[j]),
    ensures
        split(text_of(s), '\n') == record_lines(s).push(Seq::<char>::empty()),
    decreases s.len(),
{
    if s.len() == 0 {
        assert(record_lines(s).push(Seq::<char>::empty()) =~= seq![Seq::<char>::empty()]);
    } else {
        let s0 = s.drop_last();
        let l = s.last();
        assert(pair_free(s[s.len() - 1]));
        assert forall|j: int| 0 <= j < s0.len() implies pair_free(#[trigger] s0[j]) by {
            assert(s0[j] == s[j]);
        }
        lemma_split_text(s0);
        lemma_record_line(l);
        let a = text_of(s0) + record_line(l);
        assert(text_of(s) =~= a.push('\n'));
        lemma_split_push_delim(a, '\n');
        lemma_split_append_free(text_of(s0), record_line(l), '\n');
        assert(Seq::<char>::empty() + record_line(l) =~= record_line(l));
        assert(split(a, '\n') =~= record_lines(s));
    }
}

proof fn lemma_records_of_lines(s: Seq<(Seq<char>, Seq<char>)>)
    requires
        forall|j: int| 0 <= j < s.len() ==> pair_free(#[trigger] s[j]),
    ensures
        records(record_lines(s)) == s,
    decreases s.len(),
{
    if s.len() > 0 {
        let s0 = s.drop_last();
        assert(pair_free(s[s.len() - 1]));
        assert forall|j: int| 0 <= j < s0.len() implies pair_free(#[trigger] s0[j]) by {
            assert(s0[j] == s[j]);
        }
        lemma_records_of_lines(s0);
        lemma_record_line(s.last());
        assert(record_lines(s).drop_last() =~= record_lines(s0));
        assert(s0.push(s.last()) =~= s);
    }
}

/// Writing pairs out and reading the text back gives the pairs again,
/// provided no key or value holds a NUL, a line feed or a carriage return.
pub proof fn lemma_text_round_trip(s: Seq<(Seq<char>, Seq<char>)>)
    requires
        forall|j: int| 0 <= j < s.len() ==> pair_free(#[trigger] s[j]),
    ensures
        records(lines_of(text_of(s))) == s,
        parsed(text_of(s)) == pairs_map(s),
{
    lemma_split_text(s);
    lemma_records_of_lines(s);
    let ls = lines_of(text_of(s));
    assert forall|j: int| 0 <= j < s.len() implies strip_cr(record_line(s[j])) == record_line(
        s[j],
    ) by {
        lemma_record_line(s[j]);
    }
    assert(ls.drop_last() =~= record_lines(s));
    assert(ls.last() == Seq::<char>::empty());
    assert(split(Seq::<char>::empty(), '\0') =~= seq![Seq::<char>::empty()]);
}

/// For every mapping whose keys and values hold no NUL, line feed or
/// carriage return, parsing its serialized text gives back the same mapping.
pub proof fn lemma_round_trip(c: Cache)
    requires
        c.wf(),
        forall|k: Seq<char>| #[trigger]
            c@.contains_key(k) ==> delimiter_free(k) && delimiter_free(c@[k]),
    ensures
        parsed(text_of(c.entry_views())) == c@,
{
    let s = c.entry_views();
    lemma_pairs_map_unique(s);
    assert forall|j: int| 0 <= j < s.len() implies pair_free(#[trigger] s[j]) by {
        assert(c@.contains_key(s[j].0));
    }
    lemma_text_round_trip(s);
}

/// Reading a line drops at most a carriage return, which never changes how
/// many pieces the line splits into at NUL.
proof fn lemma_strip_cr_pieces(l: Seq<char>)
    ensures
        split(strip_cr(l), '\0').len() == split(l, '\0').len(),
{
    if l.len() > 0 && l.last() == '\r' {
        lemma_split_nonempty(l.drop_last(), '\0');
    }
}

/// Text holding one well-formed record line and one line with no NUL or
/// with several reads as the well-formed record alone, whichever line comes
/// first.
pub proof fn lemma_malformed_line_skipped(
    p: (Seq<char>, Seq<char>),
    bad: Seq<char>,
)
    requires
        pair_free(p),
        !bad.contains('\n'),
        split(bad, '\0').len() != 2,
    ensures
        parsed(record_line(p) + seq!['\n'] + bad + seq!['\n']) == map![p.0 => p.1],
        parsed(bad + seq!['\n'] + record_line(p) + seq!['\n']) == map![p.0 => p.1],
{
    let rl = record_line(p);
    let nl = seq!['\n'];
    let e = Seq::<char>::empty();
    lemma_record_line(p);
    lemma_strip_cr_pieces(bad);
    lemma_split_nonempty(e, '\0');
    assert(split(e, '\0') =~= seq![e]);
    // The good line first.
    lemma_split_free(rl, '\n');
    lemma_split_push_delim(rl, '\n');
    lemma_split_append_free(rl.push('\n'), bad, '\n');
    lemma_split_push_delim(rl.push('\n') + bad, '\n');
    assert(e + bad =~= bad);
    let t1 = rl + nl + bad + nl;
    assert(t1 =~= (rl.push('\n') + bad).push('\n'));
    assert(split(t1, '\n') =~= seq![rl, bad, e]);
    let l1 = lines_of(t1);
    assert(l1 =~= seq![rl, strip_cr(bad), e]);
    let none = Seq::<(Seq<char>, Seq<char>)>::empty();
    assert(records(Seq::<Seq<char>>::empty()) == none);
    assert(record_of(rl) == Some(p));
    assert(record_of(strip_cr(bad)) is None);
    assert(record_of(e) is None);
    let a0 = l1.drop_last().drop_last();
    assert(a0.drop_last() =~= Seq::<Seq<char>>::empty());
    assert(a0.last() == rl);
    assert(records(a0) == none.push(p));
    assert(none.push(p) =~= seq![p]);
    assert(l1.drop_last().last() == strip_cr(bad));
    assert(records(l1.drop_last()) == records(a0));
    assert(l1.last() == e);
    assert(records(l1) == records(l1.drop_last()));
    assert(none.push(p).drop_last() =~= none);
    assert(none.push(p).last() == p);
    assert(records(l1) == none.push(p));
    assert(pairs_map(none.push(p)) == pairs_map(none).insert(p.0, p.1));
    assert(pairs_map(none) == Map::<Seq<char>, Seq<char>>::empty());
    assert(parsed(t1) =~= map![p.0 => p.1]);
    // The malformed line first.
    lemma_split_free(bad, '\n');
    lemma_split_push_delim(bad, '\n');
    lemma_split_append_free(bad.push('\n'), rl, '\n');
    lemma_split_push_delim(bad.push('\n') + rl, '\n');
    assert(e + rl =~= rl);
    let t2 = bad + nl + rl + nl;
    assert(t2 =~= (bad.push('\n') + rl).push('\n'));
    assert(split(t2, '\n') =~= seq![bad, rl, e]);
    let l2 = lines_of(t2);
    assert(l2 =~= seq![strip_cr(bad), rl, e]);
    let b0 = l2.drop_last().drop_last();
    assert(b0.drop_last() =~= Seq::<Seq<char>>::empty());
    assert(b0.last() == strip_cr(bad));
    assert(records(b0) == none);
    assert(l2.drop_last().last() == rl);
    assert(records(l2.drop_last()) == none.push(p));
    assert(l2.last() == e);
    assert(records(l2) == records(l2.drop_last()));
    assert(parsed(t2) =~= map![p.0 => p.1]);
}

/// A mapping from display names to launch targets.
///
/// A direct entry maps an executable's file name to itself; a desktop entry
/// maps the name declared in a shortcut to the shortcut's file name.
pub struct Cache {
    entries: Vec<(String, String)>,
}

/// The view of a stored pair.
pub open spec fn pair_view(e: (String, String)) -> (Seq<char>, Seq<char>) {
    (e.0@, e.1@)
}

impl View for Cache {
    type V = Map<Seq<char>, Seq<char>>;

    open spec fn view(&self) -> Map<Seq<char>, Seq<char>> {
        pairs_map(self.entry_views())
    }
}

impl Cache {
    /// The stored pairs, in the order in which they are written out.
    pub closed spec fn entry_views(&self) -> Seq<(Seq<char>, Seq<char>)> {
        self.entries@.map_values(|e: (String, String)| pair_view(e))
    }

    pub open spec fn wf(&self) -> bool {
        keys_unique(self.entry_views())
    }

    /// The empty mapping.
    pub fn new() -> (r: Cache)
        ensures
            r.wf(),
            r@ == Map::<Seq<char>, Seq<char>>::empty(),
    {
        let r = Cache { entries: Vec::new() };
        assert(r.entry_views() =~= Seq::<(Seq<char>, Seq<char>)>::empty());
        r
    }

    /// The number of entries.
    pub fn len(&self) -> (r: usize)
        requires
            self.wf(),
        ensures
            r == self@.len(),
    {
        proof {
            self.lemma_dom_is_keys();
        }
        self.entries.len()
    }

    proof fn lemma_dom_is_keys(&self)
        requires
            self.wf(),
        ensures
            self@.dom().len() == self.entry_views().len(),
    {
        lemma_keys_card(self.entry_views());
    }

    /// The position of `key` among the stored pairs, if it is there.
    fn find(&self, key: &String) -> (r: Option<usize>)
        requires
            self.wf(),
        ensures
            match r {
                Some(i) => i < self.entry_views().len() && self.entry_views()[i as int].0 == key@,
                None => !self@.contains_key(key@),
            },
    {
        proof {
            lemma_pairs_map_dom(self.entry_views());
        }
        let mut i: usize = 0;
        while i < self.entries.len()
            invariant
                i <= self.entries@.len(),
                forall|j: int| 0 <= j < i ==> self.entry_views()[j].0 != key@,
            decreases self.entries@.len() - i,
        {
            if self.entries[i].0 == *key {
                return Some(i);
            }
            i += 1;
        }
        None
    }

    /// The display names, each once.
    pub fn keys(&self) -> (r: Vec<String>)
        requires
            self.wf(),
        ensures
            forall|k: Seq<char>|
                self@.contains_key(k) <==> exists|j: int|
                    0 <= j < r@.len() && #[trigger] r@[j]@ == k,
    {
        proof {
            lemma_pairs_map_dom(self.entry_views());
        }
        let mut r: Vec<String> = Vec::new();
        let mut i: usize = 0;
        while i < self.entries.len()
            invariant
                i <= self.entries@.len(),
                r@.len() == i,
                forall|j: int| 0 <= j < i ==> #[trigger] r@[j]@ == self.entry_views()[j].0,
            decreases self.entries@.len() - i,
        {
            r.push(self.entries[i].0.clone());
            i += 1;
        }
        assert forall|k: Seq<char>|
            self@.contains_key(k) <==> exists|j: int|
                0 <= j < r@.len() && #[trigger] r@[j]@ == k by {
            if self@.contains_key(k) {
                let j = choose|j: int|
                    0 <= j < self.entry_views().len() && self.entry_views()[j].0 == k;
                assert(r@[j]@ == k);
            }
        }
        r
    }

    /// The target stored for `key`, if any.
    pub fn get(&self, key: &String) -> (r: Option<String>)
        requires
            self.wf(),
        ensures
            match r {
                Some(v) => self@.contains_key(key@) && v@ == self@[key@],
                None => !self@.contains_key(key@),
            },
    {
        proof {
            lemma_pairs_map_unique(self.entry_views());
        }
        match self.find(key) {
            Some(i) => {
                let v = self.entries[i].1.clone();
                assert(self.entry_views()[i as int] == pair_view(self.entries@[i as int]));
                assert(pairs_map(self.entry_views()).contains_key(self.entry_views()[i as int].0));
                Some(v)
            },
            None => None,
        }
    }

    /// Stores `value` under `key`, replacing what was stored there.
    pub fn insert(&mut self, key: String, value: String)
        requires
            old(self).wf(),
        ensures
            final(self).wf(),
            final(self)@ == old(self)@.insert(key@, value@),
    {
        let ghost s = self.entry_views();
        let ghost k = key@;
        let ghost v = value@;
        proof {
            lemma_pairs_map_dom(s);
            lemma_pairs_map_unique(s);
        }
        match self.find(&key) {
            Some(i) => {
                self.entries.set(i, (key, value));
                let ghost t = self.entry_views();
                assert(t =~= s.update(i as int, (k, v)));
                assert(keys_unique(t)) by {
                    assert forall|a: int, b: int| 0 <= a < b < t.len() implies t[a].0 != t[b].0 by {
                        if a != i && b != i {
                            assert(s[a].0 != s[b].0);
                        } else if a == i {
                            assert(s[a].0 != s[b].0);
                        } else {
                            assert(s[a].0 != s[b].0);
                        }
                    }
                }
                proof {
                    lemma_pairs_map_dom(t);
                    lemma_pairs_map_unique(t);
                }
                assert forall|x: Seq<char>| #[trigger]
                    pairs_map(t).contains_key(x) == pairs_map(s).insert(k, v).contains_key(x) by {
                    if pairs_map(s).contains_key(x) && x != k {
                        let j = choose|j: int| 0 <= j < s.len() && s[j].0 == x;
                        assert(t[j].0 == x);
                    }
                    if pairs_map(t).contains_key(x) {
                        let j = choose|j: int| 0 <= j < t.len() && t[j].0 == x;
                        if j != i {
                            assert(s[j].0 == x);
                        }
                    }
                    if x == k {
                        assert(t[i as int].0 == x);
                    }
                }
                assert forall|x: Seq<char>| #[trigger]
                    pairs_map(t).contains_key(x) implies pairs_map(t)[x] == pairs_map(s).insert(
                    k,
                    v,
                )[x] by {
                    let j = choose|j: int| 0 <= j < t.len() && t[j].0 == x;
                    assert(pairs_map(t).contains_key(t[j].0));
                    if j != i {
                        assert(s[j] == t[j]);
                        assert(pairs_map(s).contains_key(s[j].0));
                    }
                }
                assert(pairs_map(t) =~= pairs_map(s).insert(k, v));
            },
            None => {
                self.entries.push((key, value));
                let ghost t = self.entry_views();
                assert(t =~= s.push((k, v)));
                assert(t.drop_last() =~= s);
                assert(keys_unique(t)) by {
                    assert forall|a: int, b: int| 0 <= a < b < t.len() implies t[a].0 != t[b].0 by {
                        if b == s.len() {
                            assert(t[a] == s[a]);
                            assert(pairs_map(s).contains_key(s[a].0));
                        } else {
                            assert(s[a].0 != s[b].0);
                        }
                    }
                }
            },
        }
    }

    /// The mapping that storing `pairs` in order gives.
    pub fn from_pairs(pairs: Vec<(String, String)>) -> (r: Cache)
        ensures
            r.wf(),
            r@ == pairs_map(pairs@.map_values(|e: (String, String)| pair_view(e))),
    {
        let ghost ps = pairs@.map_values(|e: (String, String)| pair_view(e));
        let mut r = Cache::new();
        let mut i: usize = 0;
        let n = pairs.len();
        assert(ps.take(0) =~= Seq::<(Seq<char>, Seq<char>)>::empty());
        while i < n
            invariant
                n == ps.len(),
                n == pairs@.len(),
                ps == pairs@.map_values(|e: (String, String)| pair_view(e)),
                i <= n,
                r.wf(),
                r@ == pairs_map(ps.take(i as int)),
            decreases n - i,
        {
            let k = pairs[i].0.clone();
            let v = pairs[i].1.clone();
            assert(ps.take(i + 1).drop_last() =~= ps.take(i as int));
            assert(ps.take(i + 1).last() == ps[i as int]);
            assert(ps[i as int] == (k@, v@));
            r.insert(k, v);
            i += 1;
        }
        assert(ps.take(n as int) =~= ps);
        r
    }
    /// Adds every entry of `other`, its value winning where both hold a key.
    pub fn extend(&mut self, other: &Cache)
        requires
            old(self).wf(),
            other.wf(),
        ensures
            final(self).wf(),
            final(self)@ == old(self)@.union_prefer_right(other@),
    {
        let ghost base = self@;
        let ghost os = other.entry_views();
        let n = other.entries.len();
        let mut i: usize = 0;
        assert(os.take(0) =~= Seq::<(Seq<char>, Seq<char>)>::empty());
        assert(base.union_prefer_right(pairs_map(os.take(0))) =~= base);
        while i < n
            invariant
                n == other.entries@.len(),
                os == other.entry_views(),
                i <= n,
                self.wf(),
                self@ == base.union_prefer_right(pairs_map(os.take(i as int))),
            decreases n - i,
        {
            let k = other.entries[i].0.clone();
            let v = other.entries[i].1.clone();
            assert(os.take(i + 1).drop_last() =~= os.take(i as int));
            assert(os.take(i + 1).last() == os[i as int]);
            assert(os[i as int] == pair_view(other.entries@[i as int]));
            self.insert(k, v);
            assert(self@ =~= base.union_prefer_right(pairs_map(os.take(i + 1))));
            i += 1;
        }
        assert(os.take(n as int) =~= os);
    }

    /// The persisted text: one line per entry, key and value joined by NUL.
    pub fn serialize(&self) -> (r: String)
        ensures
            r@ == text_of(self.entry_views()),
    {
        let ghost s = self.entry_views();
        let mut out: Vec<char> = Vec::new();
        let mut i: usize = 0;
        while i < self.entries.len()
            invariant
                i <= self.entries@.len(),
                s == self.entry_views(),
                out@ == text_of(s.take(i as int)),
            decreases self.entries@.len() - i,
        {
            let mut k = chars_of(self.entries[i].0.as_str());
            let mut v = chars_of(self.entries[i].1.as_str());
            out.append(&mut k);
            out.push('\0');
            out.append(&mut v);
            out.push('\n');
            assert(s.take(i + 1).drop_last() =~= s.take(i as int));
            assert(s.take(i + 1).last() == s[i as int]);
            assert(s[i as int] == pair_view(self.entries@[i as int]));
            assert(out@ =~= text_of(s.take(i + 1)));
            i += 1;
        }
        assert(s.take(self.entries@.len() as int) =~= s);
        string_of(out.as_slice())
    }

    /// Reads persisted text. Lines that do not split at NUL into exactly two
    /// pieces are skipped; of two lines with one key the later wins.
    pub fn parse(text: &str) -> (r: Cache)
        ensures
            r.wf(),
            r@ == parsed(text@),
    {
        let cs = chars_of(text);
        let pieces = split_on(cs.as_slice(), '\n');
        let ghost ls = lines_of(text@);
        let ghost pv = pieces@.map_values(|x: String| x@);
        assert(ls =~= pv.map_values(|l: Seq<char>| strip_cr(l)));
        let mut r = Cache::new();
        let n = pieces.len();
        let mut i: usize = 0;
        assert(ls.take(0) =~= Seq::<Seq<char>>::empty());
        while i < n
            invariant
                n == pieces@.len(),
                n == ls.len(),
                ls == pv.map_values(|l: Seq<char>| strip_cr(l)),
                pv == pieces@.map_values(|x: String| x@),
                i <= n,
                r.wf(),
                r@ == pairs_map(records(ls.take(i as int))),
            decreases n - i,
        {
            let lc = chars_of(pieces[i].as_str());
            let mut end = lc.len();
            if end > 0 && lc[end - 1] == '\r' {
                end = end - 1;
            }
            let line = &lc.as_slice()[0..end];
            assert(line@ =~= strip_cr(lc@));
            assert(ls[i as int] == line@);
            let parts = split_on(line, '\0');
            assert(ls.take(i + 1).drop_last() =~= ls.take(i as int));
            assert(ls.take(i + 1).last() == ls[i as int]);
            if parts.len() == 2 {
                let k = parts[0].clone();
                let v = parts[1].clone();
                assert(parts@.map_values(|x: String| x@)[0] == k@);
                assert(parts@.map_values(|x: String| x@)[1] == v@);
                assert(record_of(ls[i as int]) == Some((k@, v@)));
                assert(records(ls.take(i + 1)) == records(ls.take(i as int)).push((k@, v@)));
                assert(records(ls.take(i as int)).push((k@, v@)).drop_last() =~= records(
                    ls.take(i as int),
                ));
                r.insert(k, v);
            } else {
                assert(record_of(ls[i as int]) is None);
                assert(records(ls.take(i + 1)) == records(ls.take(i as int)));
            }
            i += 1;
        }
        assert(ls.take(n as int) =~= ls);
        r
    }

    fn retain_entries(&mut self, hide_direct: bool)
        requires
            old(self).wf(),
        ensures
            final(self).wf(),
            final(self)@ == kept(old(self)@, hide_direct),
    {
        let ghost s = self.entry_views();
        let mut out: Vec<(String, String)> = Vec::new();
        let n = self.entries.len();
        let mut i: usize = 0;
        assert(s.take(0) =~= Seq::<(Seq<char>, Seq<char>)>::empty());
        assert(kept(pairs_map(s.take(0)), hide_direct) =~= Map::<Seq<char>, Seq<char>>::empty());
        while i < n
            invariant
                n == self.entries@.len(),
                s == self.entry_views(),
                keys_unique(s),
                i <= n,
                keys_unique(out@.map_values(|e: (String, String)| pair_view(e))),
                forall|j: int|
                    0 <= j < out@.len() ==> pairs_map(s.take(i as int)).contains_key(
                        #[trigger] out@[j].0@,
                    ),
                pairs_map(out@.map_values(|e: (String, String)| pair_view(e))) == kept(
                    pairs_map(s.take(i as int)),
                    hide_direct,
                ),
            decreases n - i,
        {
            let ghost ov = out@.map_values(|e: (String, String)| pair_view(e));
            let ghost prev = pairs_map(s.take(i as int));
            let ghost e = s[i as int];
            assert(s.take(i + 1).drop_last() =~= s.take(i as int));
            assert(s.take(i + 1).last() == e);
            assert(e == pair_view(self.entries@[i as int]));
            proof {
                lemma_pairs_map_dom(s.take(i as int));
                lemma_pairs_map_dom(s.take(i + 1));
                if prev.contains_key(e.0) {
                    let j = choose|j: int| 0 <= j < i && s.take(i as int)[j].0 == e.0;
                    assert(s[j].0 == s[i as int].0);
                }
            }
            let keep = if hide_direct {
                !(self.entries[i].0 == self.entries[i].1)
            } else {
                !text_ends_with(self.entries[i].1.as_str(), ".desktop")
            };
            if keep {
                let k = self.entries[i].0.clone();
                let v = self.entries[i].1.clone();
                out.push((k, v));
                let ghost nv = out@.map_values(|e: (String, String)| pair_view(e));
                assert(nv =~= ov.push(e));
                assert(nv.drop_last() =~= ov);
                assert(keys_unique(nv)) by {
                    assert forall|a: int, b: int| 0 <= a < b < nv.len() implies nv[a].0
                        != nv[b].0 by {
                        if b == ov.len() {
                            assert(nv[a] == ov[a]);
                            assert(ov[a] == pair_view(out@[a]));
                            assert(prev.contains_key(out@[a].0@));
                        } else {
                            assert(nv[a] == ov[a] && nv[b] == ov[b]);
                        }
                    }
                }
                assert(pairs_map(nv) =~= kept(pairs_map(s.take(i + 1)), hide_direct));
            } else {
                assert(kept(pairs_map(s.take(i + 1)), hide_direct) =~= kept(prev, hide_direct));
            }
            i += 1;
        }
        assert(s.take(n as int) =~= s);
        self.entries = out;
    }

    /// Drops the direct entries: those whose key equals their value.
    pub fn hide_path_entries(&mut self)
        requires
            old(self).wf(),
        ensures
            final(self).wf(),
            final(self)@ == Map::new(
                |k: Seq<char>| old(self)@.contains_key(k) && old(self)@[k] != k,
                |k: Seq<char>| old(self)@[k],
            ),
    {
        self.retain_entries(true);
    }

    /// Drops the desktop entries: those whose value ends with the shortcut
    /// extension.
    pub fn hide_desktop_entries(&mut self)
        requires
            old(self).wf(),
        ensures
            final(self).wf(),
            final(self)@ == Map::new(
                |k: Seq<char>|
                    old(self)@.contains_key(k) && !ends_with(old(self)@[k], desktop_suffix()),
                |k: Seq<char>| old(self)@[k],
            ),
    {
        self.retain_entries(false);
    }
}

} // verus!
