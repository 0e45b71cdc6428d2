//! Reading the `[Desktop Entry]` group of a `.desktop` file.

use vstd::prelude::*;

use crate::text::{
    chars_to_string, find_char, index_of, lemma_index_of, line_ranges, lines, matches_literal,
    split_once, str_chars, trim, trim_range,
};

verus! {

/// What the scan of a desktop file has found after some of its lines.
pub struct DesktopScan {
    /// Inside the `[Desktop Entry]` group.
    pub in_main: bool,
    /// The scan has ended: another group began, or the entry is hidden.
    pub stopped: bool,
    /// `NoDisplay=true` was seen.
    pub hidden: bool,
    pub name: Seq<char>,
    pub command: Seq<char>,
    pub icon: Option<Seq<char>>,
    pub terminal: bool,
}

pub open spec fn scan_start() -> DesktopScan {
    DesktopScan {
        in_main: false,
        stopped: false,
        hidden: false,
        name: seq![],
        command: seq![],
        icon: None,
        terminal: false,
    }
}

/// A `key=value` line of the main group: `Name`, `Exec` and a non-empty
/// `Icon` are taken, `Terminal=true` marks a terminal application,
/// `NoDisplay=true` hides the entry and ends the scan.
pub open spec fn scan_key(st: DesktopScan, key: Seq<char>, val: Seq<char>) -> DesktopScan {
    if key == "Name"@ {
        DesktopScan { name: val, ..st }
    } else if key == "Icon"@ {
        if val.len() > 0 {
            DesktopScan { icon: Some(val), ..st }
        } else {
            st
        }
    } else if key == "Exec"@ {
        DesktopScan { command: val, ..st }
    } else if key == "NoDisplay"@ {
        if val == "true"@ {
            DesktopScan { hidden: true, stopped: true, ..st }
        } else {
            st
        }
    } else if key == "Terminal"@ {
        if val == "true"@ {
            DesktopScan { terminal: true, ..st }
        } else {
            st
        }
    } else {
        st
    }
}

/// One line of the file, trimmed: the header `[Desktop Entry]` opens the
/// main group, any other header inside it ends the scan, and a line of the
/// main group with a `=` is a key (trimmed) and a value (trimmed).
pub open spec fn scan_line(st: DesktopScan, raw: Seq<char>) -> DesktopScan {
    let t = trim(raw);
    if st.stopped {
        st
    } else if t == "[Desktop Entry]"@ {
        DesktopScan { in_main: true, ..st }
    } else if t.len() > 0 && t[0] == '[' && st.in_main {
        DesktopScan { stopped: true, ..st }
    } else if st.in_main {
        match split_once(t, '=') {
            Some((k, v)) => scan_key(st, trim(k), trim(v)),
            None => st,
        }
    } else {
        st
    }
}

pub open spec fn scan_lines(ls: Seq<Seq<char>>) -> DesktopScan
    decreases ls.len(),
{
    if ls.len() == 0 {
        scan_start()
    } else {
        scan_line(scan_lines(ls.drop_last()), ls.last())
    }
}

/// The application that a desktop entry describes.
pub struct EntryView {
    pub name: Seq<char>,
    pub command: Seq<char>,
    pub icon: Option<Seq<char>>,
    pub terminal: bool,
}

/// The application that the desktop file `text` describes: none where it is
/// hidden or lacks a name or a command.
pub open spec fn desktop_entry(text: Seq<char>) -> Option<EntryView> {
    let st = scan_lines(lines(text));
    if st.hidden || st.name.len() == 0 || st.command.len() == 0 {
        None
    } else {
        Some(EntryView { name: st.name, command: st.command, icon: st.icon, terminal: st.terminal })
    }
}

/// An application described by a desktop file.
pub struct DesktopEntry {
    pub name: String,
    pub command: String,
    pub icon: Option<String>,
    pub terminal: bool,
}

impl View for DesktopEntry {
    type V = EntryView;

    open spec fn view(&self) -> EntryView {
        EntryView { name: self.name@, command: self.command@, icon: self.icon.deep_view(), terminal: self.terminal }
    }
}

proof fn lemma_scan_stays_stopped(ls: Seq<Seq<char>>, j: int)
    requires
        0 <= j <= ls.len(),
        scan_lines(ls.take(j)).stopped,
    ensures
        scan_lines(ls) == scan_lines(ls.take(j)),
    decreases ls.len(),
{
    if j == ls.len() {
        assert(ls.take(j) =~= ls);
    } else {
        assert(ls.drop_last().take(j) =~= ls.take(j));
        lemma_scan_stays_stopped(ls.drop_last(), j);
    }
}

/// The exec form of a `DesktopScan`: texts as bounds in the file's characters.
struct ScanState {
    in_main: bool,
    hidden: bool,
    name: (usize, usize),
    command: (usize, usize),
    icon: Option<(usize, usize)>,
    terminal: bool,
}

spec fn bounds_ok(r: (usize, usize), n: nat) -> bool {
    r.0 <= r.1 <= n
}

spec fn scan_state_view(st: ScanState, cs: Seq<char>, stopped: bool) -> DesktopScan {
    DesktopScan {
        in_main: st.in_main,
        stopped: stopped,
        hidden: st.hidden,
        name: cs.subrange(st.name.0 as int, st.name.1 as int),
        command: cs.subrange(st.command.0 as int, st.command.1 as int),
        icon: match st.icon {
            Some(r) => Some(cs.subrange(r.0 as int, r.1 as int)),
            None => None,
        },
        terminal: st.terminal,
    }
}

spec fn scan_state_ok(st: ScanState, n: nat) -> bool {
    &&& bounds_ok(st.name, n)
    &&& bounds_ok(st.command, n)
    &&& (st.icon matches Some(r) ==> bounds_ok(r, n))
}

/// Applies the key `cs[klo..khi]` with the value `cs[vlo..vhi]` to `st`;
/// returns whether the scan stops.
fn apply_key(
    cs: &Vec<char>,
    st: &mut ScanState,
    klo: usize,
    khi: usize,
    vlo: usize,
    vhi: usize,
) -> (stop: bool)
    requires
        klo <= khi <= cs.len(),
        vlo <= vhi <= cs.len(),
        scan_state_ok(*old(st), cs.len() as nat),
    ensures
        scan_state_ok(*final(st), cs.len() as nat),
        scan_state_view(*final(st), cs@, stop) == scan_key(
            scan_state_view(*old(st), cs@, false),
            cs@.subrange(klo as int, khi as int),
            cs@.subrange(vlo as int, vhi as int),
        ),
{
    if matches_literal(cs, klo, khi, "Name") {
        st.name = (vlo, vhi);
    } else if matches_literal(cs, klo, khi, "Icon") {
        if vlo < vhi {
            st.icon = Some((vlo, vhi));
        }
    } else if matches_literal(cs, klo, khi, "Exec") {
        st.command = (vlo, vhi);
    } else if matches_literal(cs, klo, khi, "NoDisplay") {
        if matches_literal(cs, vlo, vhi, "true") {
            st.hidden = true;
            return true;
        }
    } else if matches_literal(cs, klo, khi, "Terminal") {
        if matches_literal(cs, vlo, vhi, "true") {
            st.terminal = true;
        }
    }
    false
}

pub open spec fn entry_view(r: Option<DesktopEntry>) -> Option<EntryView> {
    match r {
        Some(e) => Some(e@),
        None => None,
    }
}

/// The application that the desktop file `text` describes (see `desktop_entry`).
pub fn parse_desktop_entry(text: &str) -> (r: Option<DesktopEntry>)
    ensures
        entry_view(r) == desktop_entry(text@),
{
    let cs = str_chars(text);
    let n = cs.len();
    let ranges = line_ranges(&cs);
    let ghost ls = lines(cs@);
    let mut st = ScanState {
        in_main: false,
        hidden: false,
        name: (0, 0),
        command: (0, 0),
        icon: None,
        terminal: false,
    };
    let mut stopped = false;
    let mut k: usize = 0;
    assert(ls.take(0) =~= Seq::<Seq<char>>::empty());
    assert(cs@.subrange(0, 0) =~= Seq::<char>::empty());
    assert(scan_state_view(st, cs@, false) == scan_start());
    assert(ls.take(ranges.len() as int) =~= ls);
    while k < ranges.len()
        invariant_except_break
            !stopped,
            scan_state_view(st, cs@, false) == scan_lines(ls.take(k as int)),
        invariant
            cs@ == text@,
            n == cs.len(),
            ls == lines(cs@),
            ranges.len() == ls.len(),
            ls.take(ranges.len() as int) == ls,
            forall|j: int|
                #![trigger ranges@[j]]
                0 <= j < ranges.len() ==> ranges@[j].0 <= ranges@[j].1 <= cs.len()
                    && cs@.subrange(ranges@[j].0 as int, ranges@[j].1 as int) == ls[j],
            k <= ranges.len(),
            scan_state_ok(st, n as nat),
        ensures
            scan_state_ok(st, n as nat),
            scan_state_view(st, cs@, stopped) == scan_lines(ls),
        decreases ranges.len() - k,
    {
        let (a, b) = ranges[k];
        assert(ls.take(k + 1).drop_last() =~= ls.take(k as int));
        assert(ls.take(k + 1).last() == ls[k as int]);
        let (lo, hi) = trim_range(&cs, a, b);
        let ghost before = scan_state_view(st, cs@, false);
        let ghost t = cs@.subrange(lo as int, hi as int);
        if matches_literal(&cs, lo, hi, "[Desktop Entry]") {
            st.in_main = true;
        } else if lo < hi && cs[lo] == '[' && st.in_main {
            stopped = true;
        } else if st.in_main {
            match find_char(&cs, lo, hi, '=') {
                Some(e) => {
                    proof {
                        lemma_index_of(t, '=');
                        assert(t.take(e - lo) =~= cs@.subrange(lo as int, e as int));
                        assert(t.skip(e - lo + 1) =~= cs@.subrange(e + 1, hi as int));
                    }
                    let (klo, khi) = trim_range(&cs, lo, e);
                    let (vlo, vhi) = trim_range(&cs, e + 1, hi);
                    stopped = apply_key(&cs, &mut st, klo, khi, vlo, vhi);
                },
                None => {},
            }
        }
        assert(scan_state_view(st, cs@, stopped) == scan_line(before, ls[k as int]));
        if stopped {
            proof {
                lemma_scan_stays_stopped(ls, k + 1);
            }
            break;
        }
        k = k + 1;
    }
    if st.hidden || st.name.0 == st.name.1 || st.command.0 == st.command.1 {
        return None;
    }
    let icon = match st.icon {
        Some((x, y)) => Some(chars_to_string(&cs, x, y)),
        None => None,
    };
    Some(
        DesktopEntry {
            name: chars_to_string(&cs, st.name.0, st.name.1),
            command: chars_to_string(&cs, st.command.0, st.command.1),
            icon: icon,
            terminal: st.terminal,
        },
    )
}


/// A key line changes only the field that its exact key names: `Name` the
/// name, `Exec` the command, `Icon` (with a value) the icon, `Terminal=true`
/// the terminal flag and `NoDisplay=true` hides the entry and ends the scan;
/// every other key, such as a localized `Name[de]`, changes nothing.
pub proof fn law_scan_key_fields(st: DesktopScan, key: Seq<char>, val: Seq<char>)
    ensures
        scan_key(st, key, val).name == (if key == "Name"@ {
            val
        } else {
            st.name
        }),
        scan_key(st, key, val).command == (if key == "Exec"@ {
            val
        } else {
            st.command
        }),
        scan_key(st, key, val).icon == (if key == "Icon"@ && val.len() > 0 {
            Some(val)
        } else {
            st.icon
        }),
        scan_key(st, key, val).terminal == (st.terminal || (key == "Terminal"@ && val == "true"@)),
        scan_key(st, key, val).hidden == (st.hidden || (key == "NoDisplay"@ && val == "true"@)),
        scan_key(st, key, val).stopped == (st.stopped || (key == "NoDisplay"@ && val == "true"@)),
        scan_key(st, key, val).in_main == st.in_main,
{
    reveal_strlit("Name");
    reveal_strlit("Exec");
    reveal_strlit("Icon");
    reveal_strlit("Terminal");
    reveal_strlit("NoDisplay");
    assert("Name"@ != "Icon"@) by {
        assert("Name"@[0] != "Icon"@[0]);
    }
    assert("Name"@ != "Exec"@) by {
        assert("Name"@[0] != "Exec"@[0]);
    }
    assert("Name"@ != "Terminal"@) by {
        assert("Name"@[0] != "Terminal"@[0]);
    }
    assert("Name"@ != "NoDisplay"@) by {
        assert("Name"@.len() != "NoDisplay"@.len());
    }
    assert("Icon"@ != "Exec"@) by {
        assert("Icon"@[0] != "Exec"@[0]);
    }
    assert("Icon"@ != "Terminal"@) by {
        assert("Icon"@[0] != "Terminal"@[0]);
    }
    assert("Icon"@ != "NoDisplay"@) by {
        assert("Icon"@[0] != "NoDisplay"@[0]);
    }
    assert("Exec"@ != "Terminal"@) by {
        assert("Exec"@[0] != "Terminal"@[0]);
    }
    assert("Exec"@ != "NoDisplay"@) by {
        assert("Exec"@[0] != "NoDisplay"@[0]);
    }
    assert("Terminal"@ != "NoDisplay"@) by {
        assert("Terminal"@[0] != "NoDisplay"@[0]);
    }
}

/// A line of the file sets the name only where it lies in the main group and
/// its key, trimmed, is exactly `Name`; the name it sets is its value, trimmed.
pub proof fn law_scan_line_name(st: DesktopScan, raw: Seq<char>)
    ensures
        scan_line(st, raw).name == (if !st.stopped && st.in_main && trim(raw) != "[Desktop Entry]"@
            && !(trim(raw).len() > 0 && trim(raw)[0] == '[') {
            match split_once(trim(raw), '=') {
                Some((k, v)) => if trim(k) == "Name"@ {
                    trim(v)
                } else {
                    st.name
                },
                None => st.name,
            }
        } else {
            st.name
        }),
{
    if let Some((k, v)) = split_once(trim(raw), '=') {
        law_scan_key_fields(st, trim(k), trim(v));
    }
}

} // verus!
