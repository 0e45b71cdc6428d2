//! The decisions of the launcher's panels: the order of the applications,
//! the cache entries of applications that are gone, the icon to draw, and
//! the open windows that belong to known applications.

use vstd::prelude::*;

use crate::cache::{after_removal, law_removal, AccessCache, Entry};
use crate::error::Error;
use crate::order::{
    bucket, by_key_descending, descending_upto, keys_in_range, law_descending_is_permutation,
    lemma_bucket_keys, lemma_descending_keys, sorted_descending,
};

verus! {

/// The count that the cache holds for `name`: that of its first entry, 0
/// where it has none.
pub open spec fn score(cache: Seq<Entry>, name: Seq<char>) -> u8
    decreases cache.len(),
{
    if cache.len() == 0 {
        0
    } else if cache[0].0 == name {
        cache[0].1
    } else {
        score(cache.drop_first(), name)
    }
}

proof fn lemma_score_at(cache: Seq<Entry>, name: Seq<char>, j: int)
    requires
        0 <= j < cache.len(),
        cache[j].0 == name,
        forall|m: int| 0 <= m < j ==> cache[m].0 != name,
    ensures
        score(cache, name) == cache[j].1,
    decreases j,
{
    if j > 0 {
        lemma_score_at(cache.drop_first(), name, j - 1);
    }
}

proof fn lemma_score_none(cache: Seq<Entry>, name: Seq<char>)
    requires
        forall|m: int| 0 <= m < cache.len() ==> cache[m].0 != name,
    ensures
        score(cache, name) == 0,
    decreases cache.len(),
{
    if cache.len() > 0 {
        lemma_score_none(cache.drop_first(), name);
    }
}

pub open spec fn indices(n: nat) -> Seq<int> {
    Seq::new(n, |i: int| i)
}

pub open spec fn score_key(cache: Seq<Entry>, names: Seq<Seq<char>>) -> spec_fn(int) -> int {
    |i: int| score(cache, names[i]) as int
}

pub open spec fn names_view(names: Seq<String>) -> Seq<Seq<char>> {
    names.map_values(|s: String| s@)
}

pub open spec fn as_ints(v: Seq<usize>) -> Seq<int> {
    v.map_values(|i: usize| i as int)
}

/// The order in which to show the applications named `names`: by their
/// count in the cache, highest first, applications of equal count in their
/// given order.
pub open spec fn launch_order_spec(names: Seq<Seq<char>>, cache: Seq<Entry>) -> Seq<int> {
    by_key_descending(indices(names.len()), score_key(cache, names))
}

fn cache_score(cache: &AccessCache, name: &String) -> (s: u8)
    ensures
        s == score(cache@, name@),
{
    let mut j: usize = 0;
    while j < cache.cache.len()
        invariant
            j <= cache.cache.len(),
            forall|m: int| 0 <= m < j ==> cache@[m].0 != name@,
        decreases cache.cache.len() - j,
    {
        assert(cache@[j as int] == (cache.cache@[j as int].0@, cache.cache@[j as int].1));
        if cache.cache[j].0 == *name {
            proof {
                lemma_score_at(cache@, name@, j as int);
            }
            return cache.cache[j].1;
        }
        j = j + 1;
    }
    proof {
        lemma_score_none(cache@, name@);
    }
    0
}

/// The positions of the applications named `app_names` in the order in
/// which they are shown (see `launch_order_spec`).
pub fn launch_order(app_names: &Vec<String>, cache: &AccessCache) -> (order: Vec<usize>)
    ensures
        as_ints(order@) == launch_order_spec(names_view(app_names@), cache@),
        order.len() == app_names.len(),
        forall|p: int| 0 <= p < order.len() ==> #[trigger] order@[p] < app_names.len(),
        forall|p: int, q: int|
            0 <= p < q < order.len() ==> score(cache@, app_names@[order@[p] as int]@) > score(
                cache@,
                app_names@[order@[q] as int]@,
            ) || (score(cache@, app_names@[order@[p] as int]@) == score(
                cache@,
                app_names@[order@[q] as int]@,
            ) && order@[p] < order@[q]),
{
    let n = app_names.len();
    let ghost names = names_view(app_names@);
    let ghost idx = indices(n as nat);
    let ghost key = score_key(cache@, names);
    let mut scores: Vec<u8> = Vec::new();
    let mut i: usize = 0;
    while i < n
        invariant
            n == app_names.len(),
            names == names_view(app_names@),
            i <= n,
            scores.len() == i,
            forall|j: int| 0 <= j < i ==> scores@[j] == score(cache@, #[trigger] names[j]),
        decreases n - i,
    {
        let s = cache_score(cache, &app_names[i]);
        scores.push(s);
        i = i + 1;
    }
    let mut order: Vec<usize> = Vec::new();
    let mut m: u32 = 0;
    assert(as_ints(order@) =~= Seq::<int>::empty());
    while m < 256
        invariant
            n == app_names.len(),
            names == names_view(app_names@),
            idx == indices(n as nat),
            key == score_key(cache@, names),
            scores.len() == n,
            forall|j: int| 0 <= j < n ==> scores@[j] == score(cache@, #[trigger] names[j]),
            m <= 256,
            as_ints(order@) == descending_upto(idx, key, m as int),
        decreases 256 - m,
    {
        let k: u8 = (255 - m) as u8;
        let ghost before = as_ints(order@);
        let mut i: usize = 0;
        assert(idx.take(0) =~= Seq::<int>::empty());
        assert(before + bucket(idx.take(0), key, k as int) =~= before);
        while i < n
            invariant
                n == app_names.len(),
                names == names_view(app_names@),
                idx == indices(n as nat),
                key == score_key(cache@, names),
                scores.len() == n,
                forall|j: int| 0 <= j < n ==> scores@[j] == score(cache@, #[trigger] names[j]),
                i <= n,
                as_ints(order@) == before + bucket(idx.take(i as int), key, k as int),
            decreases n - i,
        {
            assert(idx.take(i + 1).drop_last() =~= idx.take(i as int));
            assert(idx.take(i + 1).last() == i as int);
            assert(key(i as int) == scores@[i as int] as int);
            if scores[i] == k {
                let ghost old_o = order@;
                order.push(i);
                assert(as_ints(order@) =~= as_ints(old_o).push(i as int));
            }
            i = i + 1;
        }
        assert(idx.take(n as int) =~= idx);
        m = m + 1;
    }
    proof {
        let ghost names = names_view(app_names@);
        law_launch_order_ranks(names, cache@);
        let o = launch_order_spec(names, cache@);
        assert forall|p: int| 0 <= p < order.len() implies #[trigger] order@[p]
            < app_names.len() by {
            assert(as_ints(order@)[p] == o[p]);
        }
        assert forall|p: int, q: int| 0 <= p < q < order.len() implies score(
            cache@,
            app_names@[order@[p] as int]@,
        ) > score(cache@, app_names@[order@[q] as int]@) || (score(
            cache@,
            app_names@[order@[p] as int]@,
        ) == score(cache@, app_names@[order@[q] as int]@) && order@[p] < order@[q]) by {
            assert(as_ints(order@)[p] == o[p]);
            assert(as_ints(order@)[q] == o[q]);
            assert(names[o[p]] == app_names@[o[p]]@);
            assert(names[o[q]] == app_names@[o[q]]@);
        }
    }
    order
}

/// The names of the cache entries (in cache order) that no application of
/// `names` has.
pub open spec fn stale(cache: Seq<Entry>, names: Seq<Seq<char>>) -> Seq<Seq<char>>
    decreases cache.len(),
{
    if cache.len() == 0 {
        seq![]
    } else {
        let p = stale(cache.drop_last(), names);
        if names.contains(cache.last().0) {
            p
        } else {
            p.push(cache.last().0)
        }
    }
}

/// The cache entries of applications that are no longer installed (see `stale`).
pub fn stale_entries(app_names: &Vec<String>, cache: &AccessCache) -> (r: Vec<String>)
    ensures
        names_view(r@) == stale(cache@, names_view(app_names@)),
{
    let ghost names = names_view(app_names@);
    let ghost c = cache@;
    let mut r: Vec<String> = Vec::new();
    let mut i: usize = 0;
    assert(c.take(0) =~= Seq::<Entry>::empty());
    while i < cache.cache.len()
        invariant
            names == names_view(app_names@),
            c == cache@,
            i <= cache.cache.len(),
            names_view(r@) == stale(c.take(i as int), names),
        decreases cache.cache.len() - i,
    {
        assert(c.take(i + 1).drop_last() =~= c.take(i as int));
        assert(c.take(i + 1).last() == (cache.cache@[i as int].0@, cache.cache@[i as int].1));
        let mut present = false;
        let mut j: usize = 0;
        while j < app_names.len()
            invariant
                names == names_view(app_names@),
                j <= app_names.len(),
                i < cache.cache.len(),
                present == exists|m: int| 0 <= m < j && names[m] == cache.cache@[i as int].0@,
            decreases app_names.len() - j,
        {
            assert(names[j as int] == app_names@[j as int]@);
            if app_names[j] == cache.cache[i].0 {
                present = true;
            }
            assert(present == exists|m: int| 0 <= m < j + 1 && names[m] == cache.cache@[i as int].0@) by {
                if exists|m: int| 0 <= m < j + 1 && names[m] == cache.cache@[i as int].0@ {
                    let m = choose|m: int| 0 <= m < j + 1 && names[m] == cache.cache@[i as int].0@;
                    if m < j {
                    }
                }
            }
            j = j + 1;
        }
        assert(present == names.contains(cache.cache@[i as int].0@));
        if !present {
            let ghost old_r = r@;
            r.push(cache.cache[i].0.clone());
            assert(names_view(r@) =~= names_view(old_r).push(cache.cache@[i as int].0@));
        }
        i = i + 1;
    }
    assert(c.take(i as int) =~= c);
    r
}

/// The image an application's button shows.
#[derive(Debug)]
pub enum IconSource {
    /// An SVG file.
    SvgFile(String),
    /// Another image file.
    ImageFile(String),
    /// The launcher's own default icon.
    Fallback,
}

pub open spec fn is_svg_path(p: Seq<char>) -> bool {
    p.len() >= 4 && p.skip(p.len() - 4) == ".svg"@
}

/// The image for an application: the icon found on disk (`icon_path`, as
/// text), as SVG where its name ends in `.svg`; else the `Icon` value as a
/// file where it names one (`icon_is_file`); else the default icon.
pub fn icon_source(icon_path: Option<String>, icon: Option<String>, icon_is_file: bool) -> (r:
    IconSource)
    ensures
        match (icon_path, icon) {
            (Some(p), _) => if is_svg_path(p@) {
                r == IconSource::SvgFile(p)
            } else {
                r == IconSource::ImageFile(p)
            },
            (None, Some(i)) => if icon_is_file {
                r == IconSource::ImageFile(i)
            } else {
                r == IconSource::Fallback
            },
            (None, None) => r == IconSource::Fallback,
        },
{
    match icon_path {
        Some(p) => {
            let cs = crate::text::str_chars(p.as_str());
            let n = cs.len();
            let svg = n >= 4 && crate::text::matches_literal(&cs, n - 4, n, ".svg");
            proof {
                if n >= 4 {
                    assert(p@.skip(n - 4) =~= cs@.subrange(n - 4, n as int));
                }
            }
            if svg {
                IconSource::SvgFile(p)
            } else {
                IconSource::ImageFile(p)
            }
        },
        None => match icon {
            Some(i) => if icon_is_file {
                IconSource::ImageFile(i)
            } else {
                IconSource::Fallback
            },
            None => IconSource::Fallback,
        },
    }
}

/// The position of the first application whose icon is `id`, or `-1`.
pub open spec fn app_with_icon(icons: Seq<Option<Seq<char>>>, id: Seq<char>) -> int
    decreases icons.len(),
{
    if icons.len() == 0 {
        -1
    } else if icons[0] == Some(id) {
        0
    } else {
        let r = app_with_icon(icons.drop_first(), id);
        if r < 0 {
            -1
        } else {
            r + 1
        }
    }
}

proof fn lemma_app_with_icon_at(icons: Seq<Option<Seq<char>>>, id: Seq<char>, j: int)
    requires
        0 <= j < icons.len(),
        icons[j] == Some(id),
        forall|m: int| 0 <= m < j ==> icons[m] != Some(id),
    ensures
        app_with_icon(icons, id) == j,
    decreases j,
{
    if j > 0 {
        lemma_app_with_icon_at(icons.drop_first(), id, j - 1);
    }
}

proof fn lemma_app_with_icon_none(icons: Seq<Option<Seq<char>>>, id: Seq<char>)
    requires
        forall|m: int| 0 <= m < icons.len() ==> icons[m] != Some(id),
    ensures
        app_with_icon(icons, id) == -1,
    decreases icons.len(),
{
    if icons.len() > 0 {
        lemma_app_with_icon_none(icons.drop_first(), id);
    }
}

/// For each open window (in order) whose application id is the icon of an
/// application, the pair of the window's position and that of the first
/// such application.
pub open spec fn window_matches(
    icons: Seq<Option<Seq<char>>>,
    ids: Seq<Option<Seq<char>>>,
) -> Seq<(int, int)>
    decreases ids.len(),
{
    if ids.len() == 0 {
        seq![]
    } else {
        let p = window_matches(icons, ids.drop_last());
        match ids.last() {
            Some(id) => if app_with_icon(icons, id) >= 0 {
                p.push((ids.len() - 1, app_with_icon(icons, id)))
            } else {
                p
            },
            None => p,
        }
    }
}

pub open spec fn pairs_view(v: Seq<(usize, usize)>) -> Seq<(int, int)> {
    v.map_values(|p: (usize, usize)| (p.0 as int, p.1 as int))
}

/// The open windows that belong to known applications (see `window_matches`);
/// `app_icons` are the applications' icons, `window_app_ids` the windows'
/// application ids.
pub fn match_windows(app_icons: &Vec<Option<String>>, window_app_ids: &Vec<Option<String>>) -> (r:
    Vec<(usize, usize)>)
    ensures
        pairs_view(r@) == window_matches(app_icons.deep_view(), window_app_ids.deep_view()),
{
    let ghost icons = app_icons.deep_view();
    let ghost ids = window_app_ids.deep_view();
    let mut r: Vec<(usize, usize)> = Vec::new();
    let mut w: usize = 0;
    assert(ids.take(0) =~= Seq::<Option<Seq<char>>>::empty());
    while w < window_app_ids.len()
        invariant
            icons == app_icons.deep_view(),
            ids == window_app_ids.deep_view(),
            w <= window_app_ids.len(),
            pairs_view(r@) == window_matches(icons, ids.take(w as int)),
        decreases window_app_ids.len() - w,
    {
        assert(ids.take(w + 1).drop_last() =~= ids.take(w as int));
        assert(ids.take(w + 1).last() == ids[w as int]);
        assert(ids.take(w + 1).len() - 1 == w);
        match &window_app_ids[w] {
            Some(id) => {
                assert(ids[w as int] == Some(id@));
                let mut a: usize = 0;
                let mut found = false;
                while a < app_icons.len()
                    invariant
                        icons == app_icons.deep_view(),
                        a <= app_icons.len(),
                        !found ==> forall|m: int| 0 <= m < a ==> icons[m] != Some(id@),
                        found ==> a < app_icons.len() && icons[a as int] == Some(id@) && forall|m: int|
                            0 <= m < a ==> icons[m] != Some(id@),
                    ensures
                        !found ==> a >= app_icons.len(),
                        a <= app_icons.len(),
                        !found ==> forall|m: int| 0 <= m < a ==> icons[m] != Some(id@),
                        found ==> a < app_icons.len() && icons[a as int] == Some(id@) && forall|m: int|
                            0 <= m < a ==> icons[m] != Some(id@),
                    decreases app_icons.len() - a,
                {
                    let same = match &app_icons[a] {
                        Some(icon) => *icon == *id,
                        None => false,
                    };
                    assert(same == (icons[a as int] == Some(id@)));
                    if same {
                        found = true;
                        break;
                    }
                    a = a + 1;
                }
                if found {
                    proof {
                        lemma_app_with_icon_at(icons, id@, a as int);
                    }
                    let ghost old_r = r@;
                    r.push((w, a));
                    assert(pairs_view(r@) =~= pairs_view(old_r).push((w as int, a as int)));
                } else {
                    proof {
                        lemma_app_with_icon_none(icons, id@);
                    }
                }
            },
            None => {
                assert(ids[w as int] is None);
            },
        }
        w = w + 1;
    }
    assert(ids.take(w as int) =~= ids);
    r
}

/// The answer to a request for the open windows: the windows, where the
/// compositor sent them; `Error::NitiIpcError` with the compositor's message
/// where it refused, or with "cannot get windows" where it answered
/// something else (`None`).
pub fn windows_reply<T>(reply: Result<Option<Vec<T>>, String>) -> (r: Result<Vec<T>, Error>)
    ensures
        match reply {
            Ok(Some(w)) => r == Ok::<Vec<T>, Error>(w),
            Ok(None) => r matches Err(Error::NitiIpcError(m)) && m@ == "cannot get windows"@,
            Err(e) => r matches Err(Error::NitiIpcError(m)) && m@ == e@,
        },
{
    match reply {
        Ok(Some(w)) => Ok(w),
        Ok(None) => Err(Error::NitiIpcError("cannot get windows".to_owned())),
        Err(e) => Err(Error::NitiIpcError(e)),
    }
}


/// The launch order shows every application exactly once, in descending
/// order of its count in the cache.
pub proof fn law_launch_order(names: Seq<Seq<char>>, cache: Seq<Entry>)
    ensures
        launch_order_spec(names, cache).to_multiset() == indices(names.len()).to_multiset(),
        sorted_descending(launch_order_spec(names, cache), score_key(cache, names)),
{
    let idx = indices(names.len());
    let key = score_key(cache, names);
    assert(keys_in_range(idx, key));
    law_descending_is_permutation(idx, key);
}

/// The stale names are exactly the names of the cache entries that no
/// application has.
pub proof fn law_stale(cache: Seq<Entry>, names: Seq<Seq<char>>)
    ensures
        forall|i: int| 0 <= i < stale(cache, names).len() ==> !names.contains(
            #[trigger] stale(cache, names)[i],
        ),
        forall|i: int|
            0 <= i < cache.len() && !names.contains(#[trigger] cache[i].0) ==> stale(
                cache,
                names,
            ).contains(cache[i].0),
        forall|n: Seq<char>| #[trigger] stale(cache, names).contains(n) ==> exists|i: int|
            0 <= i < cache.len() && cache[i].0 == n,
    decreases cache.len(),
{
    if cache.len() > 0 {
        let c = cache.drop_last();
        law_stale(c, names);
        let p = stale(c, names);
        let st = stale(cache, names);
        assert forall|i: int| 0 <= i < st.len() implies !names.contains(#[trigger] st[i]) by {
            if i < p.len() {
                assert(st[i] == p[i]);
            }
        }
        assert forall|i: int|
            0 <= i < cache.len() && !names.contains(#[trigger] cache[i].0) implies st.contains(
            cache[i].0,
        ) by {
            if i < c.len() {
                assert(c[i] == cache[i]);
                assert(!names.contains(c[i].0));
                assert(p.contains(c[i].0));
                let j = choose|j: int| 0 <= j < p.len() && p[j] == c[i].0;
                assert(st[j] == p[j]);
            } else {
                assert(st[st.len() - 1] == cache[i].0);
            }
        }
        assert forall|n: Seq<char>| #[trigger] st.contains(n) implies exists|i: int|
            0 <= i < cache.len() && cache[i].0 == n by {
            let j = choose|j: int| 0 <= j < st.len() && st[j] == n;
            if j < p.len() {
                assert(p[j] == n);
                assert(p.contains(n));
                let i = choose|i: int| 0 <= i < c.len() && c[i].0 == n;
                assert(cache[i] == c[i]);
            } else {
                assert(cache[cache.len() - 1].0 == n);
            }
        }
    }
}


/// The cache after removing each of `ns`, in order, with `del_from_cache`.
pub open spec fn after_removals(s: Seq<Entry>, ns: Seq<Seq<char>>) -> Seq<Entry>
    decreases ns.len(),
{
    if ns.len() == 0 {
        s
    } else {
        after_removal(after_removals(s, ns.drop_last()), ns.last())
    }
}

proof fn lemma_after_removals(s: Seq<Entry>, ns: Seq<Seq<char>>)
    ensures
        forall|e: Entry| #[trigger] after_removals(s, ns).contains(e) ==> s.contains(e) && !ns.contains(
            e.0,
        ),
    decreases ns.len(),
{
    if ns.len() > 0 {
        let p = ns.drop_last();
        lemma_after_removals(s, p);
        let prev = after_removals(s, p);
        law_removal(prev, ns.last());
        assert forall|e: Entry| #[trigger] after_removals(s, ns).contains(e) implies s.contains(e)
            && !ns.contains(e.0) by {
            assert(prev.contains(e));
            let r = after_removals(s, ns);
            let i = choose|i: int| 0 <= i < r.len() && r[i] == e;
            assert(r[i].0 != ns.last());
            if ns.contains(e.0) {
                let j = choose|j: int| 0 <= j < ns.len() && ns[j] == e.0;
                if j < p.len() {
                    assert(p[j] == e.0);
                    assert(p.contains(e.0));
                }
            }
        }
    }
}

/// Once the stale entries are removed, every entry of the cache belongs to
/// an installed application.
pub proof fn law_stale_removal_leaves_installed(cache: Seq<Entry>, names: Seq<Seq<char>>)
    ensures
        forall|e: Entry| #[trigger] after_removals(cache, stale(cache, names)).contains(e) ==> names.contains(
            e.0,
        ),
{
    let st = stale(cache, names);
    lemma_after_removals(cache, st);
    law_stale(cache, names);
    assert forall|e: Entry| #[trigger] after_removals(cache, st).contains(e) implies names.contains(
        e.0,
    ) by {
        assert(cache.contains(e));
        let i = choose|i: int| 0 <= i < cache.len() && cache[i] == e;
        if !names.contains(cache[i].0) {
            assert(st.contains(cache[i].0));
        }
    }
}


proof fn lemma_bucket_of_increasing(s: Seq<int>, key: spec_fn(int) -> int, k: int)
    requires
        forall|i: int, j: int| 0 <= i < j < s.len() ==> s[i] < s[j],
    ensures
        forall|i: int, j: int|
            0 <= i < j < bucket(s, key, k).len() ==> bucket(s, key, k)[i] < bucket(s, key, k)[j],
        forall|i: int|
            0 <= i < bucket(s, key, k).len() ==> s.contains(#[trigger] bucket(s, key, k)[i]),
    decreases s.len(),
{
    if s.len() > 0 {
        let p = s.drop_last();
        lemma_bucket_of_increasing(p, key, k);
        let b = bucket(s, key, k);
        let bp = bucket(p, key, k);
        assert forall|i: int| 0 <= i < b.len() implies s.contains(#[trigger] b[i]) by {
            if i < bp.len() {
                assert(b[i] == bp[i]);
                let j = choose|j: int| 0 <= j < p.len() && p[j] == bp[i];
                assert(s[j] == p[j]);
            } else {
                assert(b[i] == s[s.len() - 1]);
            }
        }
        assert forall|i: int, j: int| 0 <= i < j < b.len() implies b[i] < b[j] by {
            assert(b[i] == bp[i]);
            if j < bp.len() {
                assert(b[j] == bp[j]);
            } else {
                assert(bp.contains(bp[i]));
                let m = choose|m: int| 0 <= m < p.len() && p[m] == bp[i];
                assert(s[m] == p[m]);
                assert(b[j] == s[s.len() - 1]);
            }
        }
    }
}

proof fn lemma_descending_stable(s: Seq<int>, key: spec_fn(int) -> int, m: int)
    requires
        forall|i: int, j: int| 0 <= i < j < s.len() ==> s[i] < s[j],
    ensures
        forall|p: int, q: int|
            0 <= p < q < descending_upto(s, key, m).len() ==> key(descending_upto(s, key, m)[p]) > key(
                descending_upto(s, key, m)[q],
            ) || (key(descending_upto(s, key, m)[p]) == key(descending_upto(s, key, m)[q])
                && descending_upto(s, key, m)[p] < descending_upto(s, key, m)[q]),
    decreases m,
{
    if m > 0 {
        lemma_descending_stable(s, key, m - 1);
        lemma_descending_keys(s, key, m - 1);
        lemma_bucket_keys(s, key, 256 - m);
        lemma_bucket_of_increasing(s, key, 256 - m);
        let a = descending_upto(s, key, m - 1);
        let b = bucket(s, key, 256 - m);
        let d = descending_upto(s, key, m);
        assert(d == a + b);
        assert forall|p: int, q: int| 0 <= p < q < d.len() implies key(d[p]) > key(d[q]) || (key(
            d[p],
        ) == key(d[q]) && d[p] < d[q]) by {
            if q < a.len() {
                assert(d[p] == a[p]);
                assert(d[q] == a[q]);
            } else if p >= a.len() {
                assert(d[p] == b[p - a.len()]);
                assert(d[q] == b[q - a.len()]);
            } else {
                assert(d[p] == a[p]);
                assert(d[q] == b[q - a.len()]);
            }
        }
    }
}

/// The launch order holds every application's position once, and ranks
/// them by the count that the cache holds for each application's name,
/// highest first; applications of equal count keep their given order.
pub proof fn law_launch_order_ranks(names: Seq<Seq<char>>, cache: Seq<Entry>)
    ensures
        launch_order_spec(names, cache).len() == names.len(),
        forall|p: int|
            0 <= p < names.len() ==> 0 <= #[trigger] launch_order_spec(names, cache)[p]
                < names.len(),
        forall|p: int, q: int|
            0 <= p < q < names.len() ==> score(cache, names[launch_order_spec(names, cache)[p]])
                > score(cache, names[launch_order_spec(names, cache)[q]]) || (score(
                cache,
                names[launch_order_spec(names, cache)[p]],
            ) == score(cache, names[launch_order_spec(names, cache)[q]])
                && launch_order_spec(names, cache)[p] < launch_order_spec(names, cache)[q]),
{
    broadcast use vstd::seq_lib::group_to_multiset_ensures;

    let idx = indices(names.len());
    let key = score_key(cache, names);
    let o = launch_order_spec(names, cache);
    assert(keys_in_range(idx, key));
    law_descending_is_permutation(idx, key);
    lemma_descending_stable(idx, key, 256);
    assert(o.len() == idx.len()) by {
        assert(o.to_multiset().len() == idx.to_multiset().len());
    }
    assert forall|p: int| 0 <= p < names.len() implies 0 <= #[trigger] o[p] < names.len() by {
        vstd::seq_lib::to_multiset_contains(o, o[p]);
        vstd::seq_lib::to_multiset_contains(idx, o[p]);
        assert(o.contains(o[p]));
        let j = choose|j: int| 0 <= j < idx.len() && idx[j] == o[p];
    }
    assert forall|p: int, q: int| 0 <= p < q < names.len() implies score(cache, names[o[p]])
        > score(cache, names[o[q]]) || (score(cache, names[o[p]]) == score(cache, names[o[q]])
        && o[p] < o[q]) by {
        assert(key(o[p]) == score(cache, names[o[p]]) as int);
        assert(key(o[q]) == score(cache, names[o[q]]) as int);
    }
}


proof fn lemma_app_with_icon(icons: Seq<Option<Seq<char>>>, id: Seq<char>)
    ensures
        -1 <= app_with_icon(icons, id) < icons.len(),
        app_with_icon(icons, id) >= 0 ==> icons[app_with_icon(icons, id)] == Some(id),
        forall|b: int| 0 <= b < app_with_icon(icons, id) ==> icons[b] != Some(id),
        app_with_icon(icons, id) < 0 ==> forall|b: int| 0 <= b < icons.len() ==> icons[b] != Some(id),
    decreases icons.len(),
{
    if icons.len() > 0 && icons[0] != Some(id) {
        lemma_app_with_icon(icons.drop_first(), id);
        assert forall|b: int| 0 < b < icons.len() implies icons[b] == icons.drop_first()[b - 1] by {}
    }
}

/// The window switcher lists each open window whose application id is the
/// icon of some application, once, in window order, paired with the first
/// application that has that icon; it lists no other window.
pub proof fn law_window_matches(icons: Seq<Option<Seq<char>>>, ids: Seq<Option<Seq<char>>>)
    ensures
        forall|w: int, a: int|
            0 <= w < ids.len() && 0 <= a < icons.len() && ids[w] is Some && icons[a] == ids[w]
                && (forall|b: int| 0 <= b < a ==> icons[b] != ids[w]) ==> window_matches(
                icons,
                ids,
            ).contains((w, a)),
        forall|p: int|
            #![trigger window_matches(icons, ids)[p]]
            0 <= p < window_matches(icons, ids).len() ==> {
                let (w, a) = window_matches(icons, ids)[p];
                &&& 0 <= w < ids.len()
                &&& 0 <= a < icons.len()
                &&& ids[w] is Some
                &&& icons[a] == ids[w]
                &&& forall|b: int| 0 <= b < a ==> icons[b] != ids[w]
            },
        forall|p: int, q: int|
            0 <= p < q < window_matches(icons, ids).len() ==> window_matches(icons, ids)[p].0
                < window_matches(icons, ids)[q].0,
    decreases ids.len(),
{
    if ids.len() > 0 {
        let prev = ids.drop_last();
        law_window_matches(icons, prev);
        let pm = window_matches(icons, prev);
        let m = window_matches(icons, ids);
        let last = ids.len() - 1;
        if let Some(id) = ids.last() {
            lemma_app_with_icon(icons, id);
        }
        assert forall|p: int| 0 <= p < pm.len() implies #[trigger] m[p] == pm[p] by {}
        assert forall|p: int| 0 <= p < pm.len() implies pm[p].0 < last by {
            assert(pm[p] == window_matches(icons, prev)[p]);
        }
        assert forall|w: int, a: int|
            0 <= w < ids.len() && 0 <= a < icons.len() && ids[w] is Some && icons[a] == ids[w]
                && (forall|b: int| 0 <= b < a ==> icons[b] != ids[w]) implies m.contains(
            (w, a),
        ) by {
            if w < last {
                assert(prev[w] == ids[w]);
                assert(forall|b: int| 0 <= b < a ==> icons[b] != prev[w]);
                assert(pm.contains((w, a)));
                let p = choose|p: int| 0 <= p < pm.len() && pm[p] == (w, a);
                assert(m[p] == pm[p]);
            } else {
                let id = ids[w]->0;
                lemma_app_with_icon(icons, id);
                let r = app_with_icon(icons, id);
                if r > a {
                    assert(icons[a] != Some(id));
                }
                if r < a {
                    assert(icons[r] != ids[w]);
                }
                assert(r == a);
                assert(m[m.len() - 1] == (w, a));
            }
        }
        assert forall|p: int|
            #![trigger m[p]]
            0 <= p < m.len() implies {
            let (w, a) = m[p];
            &&& 0 <= w < ids.len()
            &&& 0 <= a < icons.len()
            &&& ids[w] is Some
            &&& icons[a] == ids[w]
            &&& forall|b: int| 0 <= b < a ==> icons[b] != ids[w]
        } by {
            if p < pm.len() {
                assert(m[p] == pm[p]);
                assert(pm[p] == window_matches(icons, prev)[p]);
                assert(prev[pm[p].0] == ids[pm[p].0]);
            }
        }
        assert forall|p: int, q: int| 0 <= p < q < m.len() implies m[p].0 < m[q].0 by {
            assert(m[p] == pm[p]);
            if q < pm.len() {
                assert(m[q] == pm[q]);
            }
        }
    }
}

} // verus!
