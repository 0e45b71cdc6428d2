//! The configuration file: `key=value` lines.

use vstd::prelude::*;

use crate::error::Error;
use crate::text::{
    chars_to_string, find_char, index_of, join_path, lemma_index_of, line_ranges, lines,
    matches_literal, parse_unsigned, parse_unsigned_range, path_join, split_once, str_chars, trim,
    trim_range,
};

verus! {

/// What the configuration file sets, as far as it is read here.
pub struct ConfigScan {
    /// A size did not read as a `u32`.
    pub failed: bool,
    pub window_width: u32,
    pub window_height: u32,
    pub trigger_area: u32,
    pub cache_files: Seq<Seq<char>>,
    pub icon_dims: Seq<(Seq<char>, u32)>,
    pub icon_gaps: Seq<Seq<char>>,
}

pub open spec fn config_start() -> ConfigScan {
    ConfigScan {
        failed: false,
        window_width: 0,
        window_height: 0,
        trigger_area: 0,
        cache_files: seq![],
        icon_dims: seq![],
        icon_gaps: seq![],
    }
}

/// One line: trimmed and split at its first `=`, the part before it names
/// the setting.  The sizes must read as `u32`; the cache file, and the icon
/// size (with the window height set so far) and gap, are kept as written.
pub open spec fn config_line(st: ConfigScan, raw: Seq<char>) -> ConfigScan {
    if st.failed {
        st
    } else {
        match split_once(trim(raw), '=') {
            Some((key, val)) => {
                let n = parse_unsigned(val, u32::MAX as int);
                if key == "window_width"@ {
                    match n {
                        Some(v) => ConfigScan { window_width: v as u32, ..st },
                        None => ConfigScan { failed: true, ..st },
                    }
                } else if key == "window_height"@ {
                    match n {
                        Some(v) => ConfigScan { window_height: v as u32, ..st },
                        None => ConfigScan { failed: true, ..st },
                    }
                } else if key == "trigger_area"@ {
                    match n {
                        Some(v) => ConfigScan { trigger_area: v as u32, ..st },
                        None => ConfigScan { failed: true, ..st },
                    }
                } else if key == "cache_file"@ {
                    ConfigScan { cache_files: st.cache_files.push(val), ..st }
                } else if key == "icon_dim"@ {
                    ConfigScan { icon_dims: st.icon_dims.push((val, st.window_height)), ..st }
                } else if key == "icon_gap"@ {
                    ConfigScan { icon_gaps: st.icon_gaps.push(val), ..st }
                } else {
                    st
                }
            },
            None => st,
        }
    }
}

pub open spec fn config_lines(ls: Seq<Seq<char>>) -> ConfigScan
    decreases ls.len(),
{
    if ls.len() == 0 {
        config_start()
    } else {
        config_line(config_lines(ls.drop_last()), ls.last())
    }
}

/// The settings of a configuration file.  The window sizes are read; the
/// cache file paths and the icon sizes and gaps are kept as written, each
/// icon size with the window height set before it, for the caller to check.
pub struct ConfigText {
    pub window_width: u32,
    pub window_height: u32,
    pub trigger_area: u32,
    pub cache_files: Vec<String>,
    pub icon_dims: Vec<(String, u32)>,
    pub icon_gaps: Vec<String>,
}

pub open spec fn strings_view(v: Seq<String>) -> Seq<Seq<char>> {
    v.map_values(|s: String| s@)
}

pub open spec fn dims_view(v: Seq<(String, u32)>) -> Seq<(Seq<char>, u32)> {
    v.map_values(|d: (String, u32)| (d.0@, d.1))
}

impl ConfigText {
    pub open spec fn matches_scan(&self, st: ConfigScan) -> bool {
        &&& self.window_width == st.window_width
        &&& self.window_height == st.window_height
        &&& self.trigger_area == st.trigger_area
        &&& strings_view(self.cache_files@) == st.cache_files
        &&& dims_view(self.icon_dims@) == st.icon_dims
        &&& strings_view(self.icon_gaps@) == st.icon_gaps
    }
}

/// Reads the configuration file `text` (see `config_line`): a size that is
/// not a `u32` is `Error::ParseError`.
pub fn parse_config(text: &str) -> (r: Result<ConfigText, Error>)
    ensures
        config_lines(lines(text@)).failed ==> r matches Err(Error::ParseError),
        !config_lines(lines(text@)).failed ==> (r matches Ok(c) && c.matches_scan(
            config_lines(lines(text@)),
        )),
{
    let cs = str_chars(text);
    let ranges = line_ranges(&cs);
    let ghost ls = lines(cs@);
    let mut c = ConfigText {
        window_width: 0,
        window_height: 0,
        trigger_area: 0,
        cache_files: Vec::new(),
        icon_dims: Vec::new(),
        icon_gaps: Vec::new(),
    };
    let mut k: usize = 0;
    assert(ls.take(0) =~= Seq::<Seq<char>>::empty());
    assert(strings_view(c.cache_files@) =~= Seq::<Seq<char>>::empty());
    assert(strings_view(c.icon_gaps@) =~= Seq::<Seq<char>>::empty());
    assert(dims_view(c.icon_dims@) =~= Seq::<(Seq<char>, u32)>::empty());
    while k < ranges.len()
        invariant
            cs@ == text@,
            ls == lines(cs@),
            ranges.len() == ls.len(),
            forall|j: int|
                #![trigger ranges@[j]]
                0 <= j < ranges.len() ==> ranges@[j].0 <= ranges@[j].1 <= cs.len()
                    && cs@.subrange(ranges@[j].0 as int, ranges@[j].1 as int) == ls[j],
            k <= ranges.len(),
            !config_lines(ls.take(k as int)).failed,
            c.matches_scan(config_lines(ls.take(k as int))),
        decreases ranges.len() - k,
    {
        let (a, b) = ranges[k];
        assert(ls.take(k + 1).drop_last() =~= ls.take(k as int));
        assert(ls.take(k + 1).last() == ls[k as int]);
        let ghost st = config_lines(ls.take(k as int));
        let (lo, hi) = trim_range(&cs, a, b);
        let ghost t = cs@.subrange(lo as int, hi as int);
        match find_char(&cs, lo, hi, '=') {
            Some(e) => {
                proof {
                    lemma_index_of(t, '=');
                    assert(t.take(e - lo) =~= cs@.subrange(lo as int, e as int));
                    assert(t.skip(e - lo + 1) =~= cs@.subrange(e + 1, hi as int));
                }
                let ghost val = cs@.subrange(e + 1, hi as int);
                if matches_literal(&cs, lo, e, "window_width") {
                    match parse_unsigned_range(&cs, e + 1, hi, u32::MAX) {
                        Some(v) => c.window_width = v,
                        None => {
                            proof {
                                lemma_failed_stays(ls, k + 1);
                            }
                            return Err(Error::ParseError);
                        },
                    }
                } else if matches_literal(&cs, lo, e, "window_height") {
                    match parse_unsigned_range(&cs, e + 1, hi, u32::MAX) {
                        Some(v) => c.window_height = v,
                        None => {
                            proof {
                                lemma_failed_stays(ls, k + 1);
                            }
                            return Err(Error::ParseError);
                        },
                    }
                } else if matches_literal(&cs, lo, e, "trigger_area") {
                    match parse_unsigned_range(&cs, e + 1, hi, u32::MAX) {
                        Some(v) => c.trigger_area = v,
                        None => {
                            proof {
                                lemma_failed_stays(ls, k + 1);
                            }
                            return Err(Error::ParseError);
                        },
                    }
                } else if matches_literal(&cs, lo, e, "cache_file") {
                    let ghost old_v = c.cache_files@;
                    c.cache_files.push(chars_to_string(&cs, e + 1, hi));
                    assert(strings_view(c.cache_files@) =~= strings_view(old_v).push(val));
                } else if matches_literal(&cs, lo, e, "icon_dim") {
                    let ghost old_v = c.icon_dims@;
                    let h = c.window_height;
                    c.icon_dims.push((chars_to_string(&cs, e + 1, hi), h));
                    assert(dims_view(c.icon_dims@) =~= dims_view(old_v).push((val, h)));
                } else if matches_literal(&cs, lo, e, "icon_gap") {
                    let ghost old_v = c.icon_gaps@;
                    c.icon_gaps.push(chars_to_string(&cs, e + 1, hi));
                    assert(strings_view(c.icon_gaps@) =~= strings_view(old_v).push(val));
                }
            },
            None => {},
        }
        k = k + 1;
    }
    assert(ls.take(k as int) =~= ls);
    Ok(c)
}

proof fn lemma_failed_stays(ls: Seq<Seq<char>>, j: int)
    requires
        0 <= j <= ls.len(),
        config_lines(ls.take(j)).failed,
    ensures
        config_lines(ls).failed,
    decreases ls.len(),
{
    if j == ls.len() {
        assert(ls.take(j) =~= ls);
    } else {
        assert(ls.drop_last().take(j) =~= ls.take(j));
        lemma_failed_stays(ls.drop_last(), j);
    }
}

/// Where the configuration file lies: `.config/app_launcher/conf` in the
/// home directory `home`.
pub fn config_file_path(home: &str) -> (r: String)
    ensures
        r@ == path_join(path_join(path_join(home@, ".config"@), "app_launcher"@), "conf"@),
{
    let a = join_path(home, ".config");
    let b = join_path(a.as_str(), "app_launcher");
    join_path(b.as_str(), "conf")
}

/// Where the cache file lies unless the configuration names another:
/// `.cache/app-launcher/app-launch.cache` in the home directory `home`.
pub fn default_cache_path(home: &str) -> (r: String)
    ensures
        r@ == path_join(
            path_join(path_join(home@, ".cache"@), "app-launcher"@),
            "app-launch.cache"@,
        ),
{
    let a = join_path(home, ".cache");
    let b = join_path(a.as_str(), "app-launcher");
    join_path(b.as_str(), "app-launch.cache")
}

} // verus!
