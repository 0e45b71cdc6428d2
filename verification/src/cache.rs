//! The launch-frequency cache: how often each application was started
//! recently, kept as a list of names and counts.

use vstd::prelude::*;

use crate::order::{
    ascending_upto, bucket, by_key_ascending, by_key_descending, descending_upto, keys_in_range,
    law_ascending_is_permutation, law_descending_is_permutation, sorted_ascending, sorted_descending,
};
use crate::text::{
    chars_to_string, decimal, find_char, index_of, is_space, lemma_decimal_parses,
    lemma_index_of, lemma_index_of_at, line_ranges, lines, parse_unsigned, parse_unsigned_range,
    push_char, split_once, str_chars, trim, trim_end, trim_range, trim_start, u8_decimal,
};

verus! {

/// One cache entry as a value: an application's name and its count.
pub type Entry = (Seq<char>, u8);

/// The key that the cache is ordered by: an entry's count.
pub open spec fn count_key() -> spec_fn(Entry) -> int {
    |e: Entry| e.1 as int
}

pub open spec fn entries_view(v: Seq<(String, u8)>) -> Seq<Entry> {
    v.map_values(|e: (String, u8)| (e.0@, e.1))
}

/// How often each application was launched, as `(name, count)` pairs.
#[derive(Clone, PartialEq, Debug)]
pub struct AccessCache {
    pub cache: Vec<(String, u8)>,
}

impl View for AccessCache {
    type V = Seq<Entry>;

    open spec fn view(&self) -> Seq<Entry> {
        entries_view(self.cache@)
    }
}

impl Default for AccessCache {
    fn default() -> (r: Self)
        ensures
            r@ == Seq::<Entry>::empty(),
    {
        let r = AccessCache { cache: Vec::new() };
        assert(r@ =~= Seq::<Entry>::empty());
        r
    }
}

/// The count of the application that is launched: one more, up to 20.
pub open spec fn bump(v: u8) -> u8 {
    if v < 20 {
        (v + 1) as u8
    } else {
        v
    }
}

/// The count of every other application: one less, except at 15, 12 and 8,
/// where it rests, and never below 4.
pub open spec fn decay(v: u8) -> u8 {
    if v > 4 && v != 15 && v != 12 && v != 8 {
        (v - 1) as u8
    } else {
        v
    }
}

pub open spec fn touch(s: Seq<Entry>, name: Seq<char>) -> Seq<Entry> {
    Seq::new(
        s.len(),
        |i: int|
            if s[i].0 == name {
                (s[i].0, bump(s[i].1))
            } else {
                (s[i].0, decay(s[i].1))
            },
    )
}

pub open spec fn lists(s: Seq<Entry>, name: Seq<char>) -> bool {
    exists|i: int| 0 <= i < s.len() && s[i].0 == name
}

/// The cache after `name` was launched: its entries counted up, all others
/// decayed, a new entry with count 1 where it had none, then ordered by
/// count, highest first, entries of equal count in their former order.
pub open spec fn after_launch(s: Seq<Entry>, name: Seq<char>) -> Seq<Entry> {
    let t = touch(s, name);
    by_key_descending(
        if lists(s, name) {
            t
        } else {
            t.push((name, 1u8))
        },
        count_key(),
    )
}

/// The entries of `s` that are not named `name`.
pub open spec fn without(s: Seq<Entry>, name: Seq<char>) -> Seq<Entry>
    decreases s.len(),
{
    if s.len() == 0 {
        seq![]
    } else if s.last().0 == name {
        without(s.drop_last(), name)
    } else {
        without(s.drop_last(), name).push(s.last())
    }
}

/// The cache after `name` was removed, ordered by count, lowest first.
pub open spec fn after_removal(s: Seq<Entry>, name: Seq<char>) -> Seq<Entry> {
    by_key_ascending(without(s, name), count_key())
}

/// The line that stores an entry: `name=count`.
pub open spec fn cache_line(e: Entry) -> Seq<char> {
    e.0 + seq!['='] + decimal(e.1 as nat)
}

/// The text of the cache file: one line per entry, in order.
pub open spec fn cache_text(s: Seq<Entry>) -> Seq<char>
    decreases s.len(),
{
    if s.len() == 0 {
        seq![]
    } else {
        cache_text(s.drop_last()) + cache_line(s.last()) + seq!['\n']
    }
}

/// The entry a line of the cache file holds: the trimmed line split at its
/// first `=`, the part after it read as a `u8`.  Other lines hold none.
pub open spec fn parse_cache_line(line: Seq<char>) -> Option<Entry> {
    match split_once(trim(line), '=') {
        Some((key, value)) => match parse_unsigned(value, 255) {
            Some(v) => Some((key, v as u8)),
            None => None,
        },
        None => None,
    }
}

pub open spec fn parsed_entries(ls: Seq<Seq<char>>) -> Seq<Entry>
    decreases ls.len(),
{
    if ls.len() == 0 {
        seq![]
    } else {
        let p = parsed_entries(ls.drop_last());
        match parse_cache_line(ls.last()) {
            Some(e) => p.push(e),
            None => p,
        }
    }
}

/// The cache that a cache file holds: the entries of its lines, ordered by
/// count, lowest first.
pub open spec fn cache_from_text(text: Seq<char>) -> Seq<Entry> {
    by_key_ascending(parsed_entries(lines(text)), count_key())
}

fn sort_by_count(v: &Vec<(String, u8)>, descending: bool) -> (r: Vec<(String, u8)>)
    ensures
        entries_view(r@) == if descending {
            by_key_descending(entries_view(v@), count_key())
        } else {
            by_key_ascending(entries_view(v@), count_key())
        },
{
    let ghost view = entries_view(v@);
    let ghost key = count_key();
    let mut r: Vec<(String, u8)> = Vec::new();
    let mut m: u32 = 0;
    assert(entries_view(r@) =~= Seq::<Entry>::empty());
    while m < 256
        invariant
            m <= 256,
            view == entries_view(v@),
            key == count_key(),
            entries_view(r@) == if descending {
                descending_upto(view, key, m as int)
            } else {
                ascending_upto(view, key, m as int)
            },
        decreases 256 - m,
    {
        let k: u8 = if descending {
            (255 - m) as u8
        } else {
            m as u8
        };
        let ghost before = entries_view(r@);
        let mut i: usize = 0;
        assert(view.take(0) =~= Seq::<Entry>::empty());
        assert(before + bucket(view.take(0), key, k as int) =~= before);
        while i < v.len()
            invariant
                i <= v.len(),
                view == entries_view(v@),
                key == count_key(),
                entries_view(r@) == before + bucket(view.take(i as int), key, k as int),
            decreases v.len() - i,
        {
            assert(view.take(i + 1).drop_last() =~= view.take(i as int));
            assert(view.take(i + 1).last() == (v@[i as int].0@, v@[i as int].1));
            if v[i].1 == k {
                let name = v[i].0.clone();
                let ghost old_r = r@;
                r.push((name, v[i].1));
                assert(entries_view(r@) =~= entries_view(old_r).push(
                    (v@[i as int].0@, v@[i as int].1),
                ));
            }
            i = i + 1;
        }
        assert(view.take(v.len() as int) =~= view);
        m = m + 1;
    }
    r
}

impl AccessCache {
    /// Records that `app_name` was launched (see `after_launch`).
    pub fn increment(&mut self, app_name: &str)
        ensures
            final(self)@ == after_launch(old(self)@, app_name@),
    {
        let target = app_name.to_owned();
        let ghost s = self@;
        let mut found = false;
        let mut touched: Vec<(String, u8)> = Vec::new();
        let mut i: usize = 0;
        while i < self.cache.len()
            invariant
                s == self@,
                target@ == app_name@,
                i <= self.cache.len(),
                entries_view(touched@) == touch(s, target@).take(i as int),
                found == exists|j: int| 0 <= j < i && s[j].0 == target@,
            decreases self.cache.len() - i,
        {
            let name = self.cache[i].0.clone();
            let v = self.cache[i].1;
            let ghost old_t = touched@;
            assert(s[i as int] == (self.cache@[i as int].0@, v));
            let same = name == target;
            let nv = if same {
                found = true;
                if v < 20 {
                    v + 1
                } else {
                    v
                }
            } else if v > 4 && v != 15 && v != 12 && v != 8 {
                v - 1
            } else {
                v
            };
            assert(nv == (if same { bump(v) } else { decay(v) }));
            touched.push((name, nv));
            assert(entries_view(touched@) =~= entries_view(old_t).push((s[i as int].0, nv)));
            assert(touch(s, target@).take(i + 1) =~= touch(s, target@).take(i as int).push(
                touch(s, target@)[i as int],
            ));
            assert(entries_view(touched@) =~= touch(s, target@).take(i + 1));
            i = i + 1;
        }
        assert(touch(s, target@).take(i as int) =~= touch(s, target@));
        if !found {
            let ghost old_t = touched@;
            touched.push((target, 1u8));
            assert(entries_view(touched@) =~= entries_view(old_t).push((app_name@, 1u8)));
        }
        self.cache = sort_by_count(&touched, true);
    }

    /// Removes every entry named `app_name` (see `after_removal`).
    pub fn del_from_cache(&mut self, app_name: &str)
        ensures
            final(self)@ == after_removal(old(self)@, app_name@),
    {
        let target = app_name.to_owned();
        let ghost s = self@;
        let mut kept: Vec<(String, u8)> = Vec::new();
        let mut i: usize = 0;
        while i < self.cache.len()
            invariant
                s == self@,
                target@ == app_name@,
                i <= self.cache.len(),
                entries_view(kept@) == without(s.take(i as int), target@),
            decreases self.cache.len() - i,
        {
            assert(s.take(i + 1).drop_last() =~= s.take(i as int));
            assert(s.take(i + 1).last() == (self.cache@[i as int].0@, self.cache@[i as int].1));
            if self.cache[i].0 != target {
                let ghost old_k = kept@;
                kept.push((self.cache[i].0.clone(), self.cache[i].1));
                assert(entries_view(kept@) =~= entries_view(old_k).push(
                    (self.cache@[i as int].0@, self.cache@[i as int].1),
                ));
            }
            i = i + 1;
        }
        assert(s.take(i as int) =~= s);
        self.cache = sort_by_count(&kept, false);
    }

    /// The cache itself.
    pub fn i_am(&self) -> (r: &Self)
        ensures
            r == self,
    {
        self
    }
}


impl AccessCache {
    /// The text of the cache file for this cache (see `cache_text`).
    pub fn to_cache_text(&self) -> (r: String)
        ensures
            r@ == cache_text(self@),
    {
        let ghost s = self@;
        let mut r = String::new();
        let mut i: usize = 0;
        assert(s.take(0) =~= Seq::<Entry>::empty());
        while i < self.cache.len()
            invariant
                s == self@,
                i <= self.cache.len(),
                r@ == cache_text(s.take(i as int)),
            decreases self.cache.len() - i,
        {
            let ghost before = r@;
            r.append(self.cache[i].0.as_str());
            push_char(&mut r, '=');
            let digits = u8_decimal(self.cache[i].1);
            r.append(digits.as_str());
            push_char(&mut r, '\n');
            assert(s.take(i + 1).drop_last() =~= s.take(i as int));
            assert(s.take(i + 1).last() == (self.cache@[i as int].0@, self.cache@[i as int].1));
            assert(r@ =~= before + cache_line(s[i as int]) + seq!['\n']);
            i = i + 1;
        }
        assert(s.take(i as int) =~= s);
        r
    }

    /// The cache that the cache file `text` holds (see `cache_from_text`).
    pub fn from_cache_text(text: &str) -> (c: AccessCache)
        ensures
            c@ == cache_from_text(text@),
    {
        let cs = str_chars(text);
        let ranges = line_ranges(&cs);
        let ghost ls = lines(cs@);
        let mut found: Vec<(String, u8)> = Vec::new();
        let mut k: usize = 0;
        assert(ls.take(0) =~= Seq::<Seq<char>>::empty());
        while k < ranges.len()
            invariant
                cs@ == text@,
                ls == lines(cs@),
                ranges.len() == ls.len(),
                forall|j: int|
                    #![trigger ranges@[j]]
                    0 <= j < ranges.len() ==> ranges@[j].0 <= ranges@[j].1 <= cs.len()
                        && cs@.subrange(ranges@[j].0 as int, ranges@[j].1 as int) == ls[j],
                k <= ranges.len(),
                entries_view(found@) == parsed_entries(ls.take(k as int)),
            decreases ranges.len() - k,
        {
            let (a, b) = ranges[k];
            assert(cs@.subrange(a as int, b as int) == ls[k as int]);
            assert(ls.take(k + 1).drop_last() =~= ls.take(k as int));
            assert(ls.take(k + 1).last() == ls[k as int]);
            let (lo, hi) = trim_range(&cs, a, b);
            let ghost t = cs@.subrange(lo as int, hi as int);
            let ghost old_f = found@;
            match find_char(&cs, lo, hi, '=') {
                Some(e) => {
                    proof {
                        lemma_index_of(t, '=');
                        assert(t.take(e - lo) =~= cs@.subrange(lo as int, e as int));
                        assert(t.skip(e - lo + 1) =~= cs@.subrange(e + 1, hi as int));
                    }
                    assert(split_once(t, '=') == Some(
                        (cs@.subrange(lo as int, e as int), cs@.subrange(e + 1, hi as int)),
                    ));
                    match parse_unsigned_range(&cs, e + 1, hi, 255) {
                        Some(v) => {
                            let name = chars_to_string(&cs, lo, e);
                            let b: u8 = v as u8;
                            assert(parse_cache_line(ls[k as int]) == Some(
                                (cs@.subrange(lo as int, e as int), b),
                            ));
                            found.push((name, b));
                            assert(entries_view(found@) =~= entries_view(old_f).push(
                                (cs@.subrange(lo as int, e as int), b),
                            ));
                        },
                        None => {
                            assert(parse_cache_line(ls[k as int]) is None);
                        },
                    }
                },
                None => {
                    assert(parse_cache_line(ls[k as int]) is None);
                },
            }
            k = k + 1;
        }
        assert(ls.take(k as int) =~= ls);
        AccessCache { cache: sort_by_count(&found, false) }
    }
}

/// A name that a line of the cache file gives back unchanged: no `=` and no
/// line feed in it, and no white space at its start.
pub open spec fn storable_name(n: Seq<char>) -> bool {
    &&& forall|i: int| 0 <= i < n.len() ==> n[i] != '=' && n[i] != '\n'
    &&& n.len() > 0 ==> !is_space(n[0])
}

proof fn lemma_lines_append(a: Seq<char>, b: Seq<char>)
    requires
        a.len() == 0 || a.last() == '\n',
    ensures
        lines(a + b) == lines(a) + lines(b),
    decreases a.len(),
{
    if a.len() == 0 {
        assert(a + b =~= b);
        assert(lines(a) + lines(b) =~= lines(b));
    } else {
        lemma_index_of(a, '\n');
        let i = index_of(a, '\n');
        assert(i >= 0);
        lemma_index_of_at(a + b, '\n', i);
        let r = a.skip(i + 1);
        assert((a + b).take(i) =~= a.take(i));
        assert((a + b).skip(i + 1) =~= r + b);
        lemma_lines_append(r, b);
        assert(seq![a.take(i)] + (lines(r) + lines(b)) =~= (seq![a.take(i)] + lines(r)) + lines(b));
    }
}

proof fn lemma_lines_of_one(l: Seq<char>)
    requires
        forall|i: int| 0 <= i < l.len() ==> l[i] != '\n',
    ensures
        lines(l + seq!['\n']) == seq![l],
{
    let x = l + seq!['\n'];
    lemma_index_of_at(x, '\n', l.len() as int);
    assert(x.take(l.len() as int) =~= l);
    assert(x.skip(l.len() as int + 1) =~= Seq::<char>::empty());
    assert(seq![l] + lines(Seq::<char>::empty()) =~= seq![l]);
}

proof fn lemma_cache_line_parses(e: Entry)
    requires
        storable_name(e.0),
    ensures
        parse_cache_line(cache_line(e)) == Some(e),
        forall|i: int| 0 <= i < cache_line(e).len() ==> cache_line(e)[i] != '\n',
{
    let x = cache_line(e);
    let d = decimal(e.1 as nat);
    lemma_decimal_parses(e.1 as nat);
    assert(x.len() > 0);
    assert(!is_space(x[0])) by {
        if e.0.len() == 0 {
            assert(x[0] == '=');
        } else {
            assert(x[0] == e.0[0]);
        }
    }
    assert(trim_start(x) == x);
    assert(x.last() == d.last());
    assert(!is_space(x.last())) by {
        assert(d[d.len() - 1] == d.last());
    }
    assert(trim_end(x) == x);
    lemma_index_of_at(x, '=', e.0.len() as int);
    assert(x.take(e.0.len() as int) =~= e.0);
    assert(x.skip(e.0.len() as int + 1) =~= d);
    assert forall|i: int| 0 <= i < x.len() implies x[i] != '\n' by {
        if i >= e.0.len() + 1 {
            assert(x[i] == d[i - e.0.len() - 1]);
        }
    }
}

proof fn lemma_cache_text_lines(s: Seq<Entry>)
    requires
        forall|i: int| 0 <= i < s.len() ==> storable_name(#[trigger] s[i].0),
    ensures
        parsed_entries(lines(cache_text(s))) == s,
        cache_text(s).len() == 0 || cache_text(s).last() == '\n',
    decreases s.len(),
{
    if s.len() == 0 {
        assert(lines(Seq::<char>::empty()) =~= Seq::<Seq<char>>::empty());
    } else {
        let p = s.drop_last();
        let e = s.last();
        assert(storable_name(s[s.len() - 1].0));
        lemma_cache_text_lines(p);
        lemma_cache_line_parses(e);
        let line = cache_line(e);
        lemma_lines_append(cache_text(p), line + seq!['\n']);
        lemma_lines_of_one(line);
        assert(cache_text(s) =~= cache_text(p) + (line + seq!['\n']));
        let ls = lines(cache_text(p)) + seq![line];
        assert(ls.drop_last() =~= lines(cache_text(p)));
        assert(ls.last() == line);
        assert(p.push(e) =~= s);
    }
}

/// Reading the cache file back gives what was written: the entries of the
/// cache, ordered by count, lowest first, when no name holds `=` or a line
/// feed or starts with white space.
pub proof fn law_cache_text_round_trip(s: Seq<Entry>)
    requires
        forall|i: int| 0 <= i < s.len() ==> storable_name(#[trigger] s[i].0),
    ensures
        cache_from_text(cache_text(s)) == by_key_ascending(s, count_key()),
{
    lemma_cache_text_lines(s);
}


proof fn lemma_same_items<T>(a: Seq<T>, b: Seq<T>, x: T)
    requires
        a.to_multiset() == b.to_multiset(),
    ensures
        a.contains(x) <==> b.contains(x),
{
    vstd::seq_lib::to_multiset_contains(a, x);
    vstd::seq_lib::to_multiset_contains(b, x);
}

proof fn lemma_counts_in_range(s: Seq<Entry>)
    ensures
        keys_in_range(s, count_key()),
{
}

/// After a launch the cache holds the counted-up and decayed entries, one
/// more with count 1 where the application had none, each exactly once, in
/// descending order of count; the launched application is listed, and no
/// count goes past 20 that was not past it before.
pub proof fn law_launch(s: Seq<Entry>, name: Seq<char>)
    ensures
        ({
            let t = touch(s, name);
            let u = if lists(s, name) {
                t
            } else {
                t.push((name, 1u8))
            };
            let r = after_launch(s, name);
            &&& r.to_multiset() == u.to_multiset()
            &&& sorted_descending(r, count_key())
            &&& r.len() == (if lists(s, name) {
                s.len()
            } else {
                s.len() + 1
            })
            &&& lists(r, name)
            &&& (forall|i: int| 0 <= i < s.len() ==> s[i].1 <= 20) ==> (forall|i: int|
                0 <= i < r.len() ==> r[i].1 <= 20)
        }),
{
    broadcast use vstd::seq_lib::group_to_multiset_ensures;

    let t = touch(s, name);
    let u = if lists(s, name) {
        t
    } else {
        t.push((name, 1u8))
    };
    let r = after_launch(s, name);
    lemma_counts_in_range(u);
    law_descending_is_permutation(u, count_key());
    assert(r.len() == u.len()) by {
        assert(r.to_multiset().len() == u.to_multiset().len());
    }
    let j = if lists(s, name) {
        choose|j: int| 0 <= j < s.len() && s[j].0 == name
    } else {
        s.len() as int
    };
    assert(u[j].0 == name);
    lemma_same_items(r, u, u[j]);
    assert(u.contains(u[j]));
    let k = choose|k: int| 0 <= k < r.len() && r[k] == u[j];
    assert(r[k].0 == name);
    if forall|i: int| 0 <= i < s.len() ==> s[i].1 <= 20 {
        assert forall|i: int| 0 <= i < r.len() implies r[i].1 <= 20 by {
            lemma_same_items(r, u, r[i]);
            assert(r.contains(r[i]));
            let m = choose|m: int| 0 <= m < u.len() && u[m] == r[i];
            if m < s.len() {
                assert(u[m] == t[m]);
            }
        }
    }
}

proof fn lemma_without(s: Seq<Entry>, name: Seq<char>)
    ensures
        forall|i: int| 0 <= i < without(s, name).len() ==> (#[trigger] without(s, name)[i]).0 != name,
        forall|e: Entry| s.contains(e) && e.0 != name ==> without(s, name).contains(e),
        forall|e: Entry| #[trigger] without(s, name).contains(e) ==> s.contains(e),
    decreases s.len(),
{
    if s.len() > 0 {
        let p = s.drop_last();
        lemma_without(p, name);
        let w = without(s, name);
        let wp = without(p, name);
        assert forall|i: int| 0 <= i < w.len() implies (#[trigger] w[i]).0 != name by {
            if i < wp.len() {
                assert(w[i] == wp[i]);
            }
        }
        assert forall|e: Entry| s.contains(e) && e.0 != name implies w.contains(e) by {
            let i = choose|i: int| 0 <= i < s.len() && s[i] == e;
            if i < p.len() {
                assert(p[i] == e);
                assert(p.contains(e));
                assert(wp.contains(e));
                let j = choose|j: int| 0 <= j < wp.len() && wp[j] == e;
                assert(w[j] == e);
            } else {
                assert(w[w.len() - 1] == e);
            }
        }
        assert forall|e: Entry| #[trigger] w.contains(e) implies s.contains(e) by {
            let j = choose|j: int| 0 <= j < w.len() && w[j] == e;
            if j < wp.len() {
                assert(wp[j] == e);
                assert(wp.contains(e));
                assert(p.contains(e));
                let i = choose|i: int| 0 <= i < p.len() && p[i] == e;
                assert(s[i] == e);
            } else {
                assert(s[s.len() - 1] == e);
            }
        }
    }
}

/// After a removal no entry of that name is left, every other entry is
/// kept, and the entries are in ascending order of count.
pub proof fn law_removal(s: Seq<Entry>, name: Seq<char>)
    ensures
        forall|i: int|
            0 <= i < after_removal(s, name).len() ==> (#[trigger] after_removal(s, name)[i]).0
                != name,
        forall|e: Entry| s.contains(e) && e.0 != name ==> after_removal(s, name).contains(e),
        forall|e: Entry| #[trigger] after_removal(s, name).contains(e) ==> s.contains(e),
        sorted_ascending(after_removal(s, name), count_key()),
{
    let w = without(s, name);
    let r = after_removal(s, name);
    lemma_without(s, name);
    lemma_counts_in_range(w);
    law_ascending_is_permutation(w, count_key());
    assert forall|i: int| 0 <= i < r.len() implies (#[trigger] r[i]).0 != name by {
        lemma_same_items(r, w, r[i]);
        assert(r.contains(r[i]));
        let j = choose|j: int| 0 <= j < w.len() && w[j] == r[i];
    }
    assert forall|e: Entry| s.contains(e) && e.0 != name implies r.contains(e) by {
        lemma_same_items(r, w, e);
    }
    assert forall|e: Entry| #[trigger] r.contains(e) implies s.contains(e) by {
        lemma_same_items(r, w, e);
    }
}

} // verus!
