//! The applications the launcher offers, and how one is started.

use vstd::prelude::*;

use std::path::PathBuf;

use crate::desktop::{desktop_entry, entry_view, parse_desktop_entry, EntryView};
use crate::error::Error;
use crate::text::{join_path, path_join, split_on, split_pieces};

verus! {

/// std's `PathBuf`, carried through as an opaque value: where an icon lies.
#[verifier::external_type_specification]
#[verifier::external_body]
pub struct ExPathBuf(PathBuf);

/// An application found in a desktop file.
#[derive(Debug, Clone)]
pub struct NiriApp {
    /// The desktop file's name without its extension.
    pub file_name: String,
    pub name: String,
    /// The command line of the `Exec` key.
    pub command: String,
    /// The `Icon` key: a theme icon name or a file.
    pub icon: Option<String>,
    /// Where the icon was found on disk.
    pub icon_path: Option<PathBuf>,
    /// Whether the application runs in a terminal.
    pub terminal: bool,
}

/// An application as a value (its icon's place on disk aside).
pub struct AppView {
    pub file_name: Seq<char>,
    pub name: Seq<char>,
    pub command: Seq<char>,
    pub icon: Option<Seq<char>>,
    pub terminal: bool,
}

impl View for NiriApp {
    type V = AppView;

    open spec fn view(&self) -> AppView {
        AppView {
            file_name: self.file_name@,
            name: self.name@,
            command: self.command@,
            icon: self.icon.deep_view(),
            terminal: self.terminal,
        }
    }
}

impl Default for NiriApp {
    fn default() -> (r: Self)
        ensures
            r@ == (AppView {
                file_name: seq![],
                name: seq![],
                command: seq![],
                icon: None,
                terminal: false,
            }),
            r.icon_path is None,
    {
        NiriApp {
            file_name: String::new(),
            name: String::new(),
            command: String::new(),
            icon: None,
            icon_path: None,
            terminal: false,
        }
    }
}

/// Looks the icon `id` up in the installed icon themes, at size 64, with
/// `freedesktop_icons::lookup(id).with_size(64).find()`.  What is found
/// depends on the files on disk, so nothing is stated of the result.
#[verifier::external_body]
fn freedesktop_icon(id: &str) -> Option<PathBuf> {
    freedesktop_icons::lookup(id).with_size(64).find()
}

/// Looks the icon `id` up with `linicon::lookup_icon(id).with_size(512)` and
/// gives the path of the first icon found without error.  What is found
/// depends on the files on disk, so nothing is stated of the result.
#[verifier::external_body]
fn linicon_icon(id: &str) -> Option<PathBuf> {
    linicon::lookup_icon(id).with_size(512).flatten().next().map(|icon| icon.path)
}

/// Where the icon `id` lies on disk: the icon-theme lookup of
/// `freedesktop_icons` first, then that of `linicon` (see `icon_or_fallback`).
pub fn lookup_icon(id: &str) -> Option<PathBuf> {
    let found = freedesktop_icon(id);
    icon_or_fallback(found, id)
}

/// The icon `found` by the icon-theme lookup where there is one; else the
/// one that `linicon` finds for `id`, which depends on the disk.
pub fn icon_or_fallback(found: Option<PathBuf>, id: &str) -> (r: Option<PathBuf>)
    ensures
        found is Some ==> r == found,
{
    match found {
        Some(path) => Some(path),
        None => linicon_icon(id),
    }
}

/// A desktop file that was read: its name without extension, and its text.
pub struct DesktopFile {
    pub file_name: String,
    pub content: String,
}

pub open spec fn files_view(files: Seq<DesktopFile>) -> Seq<(Seq<char>, Seq<char>)> {
    files.map_values(|f: DesktopFile| (f.file_name@, f.content@))
}

pub open spec fn app_from_entry(file_name: Seq<char>, e: EntryView) -> AppView {
    AppView {
        file_name: file_name,
        name: e.name,
        command: e.command,
        icon: e.icon,
        terminal: e.terminal,
    }
}

pub open spec fn has_app_named(apps: Seq<AppView>, name: Seq<char>) -> bool {
    exists|i: int| 0 <= i < apps.len() && apps[i].name == name
}

/// The applications of a list of desktop files, in the files' order: each
/// file that describes an application, unless an earlier file already gave
/// one of that name.
pub open spec fn gathered(files: Seq<(Seq<char>, Seq<char>)>) -> Seq<AppView>
    decreases files.len(),
{
    if files.len() == 0 {
        seq![]
    } else {
        let p = gathered(files.drop_last());
        match desktop_entry(files.last().1) {
            Some(e) => if has_app_named(p, e.name) {
                p
            } else {
                p.push(app_from_entry(files.last().0, e))
            },
            None => p,
        }
    }
}

pub open spec fn apps_view(apps: Seq<NiriApp>) -> Seq<AppView> {
    apps.map_values(|a: NiriApp| a@)
}

/// The applications that `files` describe (see `gathered`), each with its
/// icon looked up on disk.
pub fn apps_from_desktop_files(files: &Vec<DesktopFile>) -> (apps: Vec<NiriApp>)
    ensures
        apps_view(apps@) == gathered(files_view(files@)),
        forall|i: int| 0 <= i < apps.len() ==> (#[trigger] apps@[i]).icon is None ==> apps@[i].icon_path is None,
{
    let ghost fv = files_view(files@);
    let mut apps: Vec<NiriApp> = Vec::new();
    let mut i: usize = 0;
    assert(fv.take(0) =~= Seq::<(Seq<char>, Seq<char>)>::empty());
    while i < files.len()
        invariant
            fv == files_view(files@),
            i <= files.len(),
            apps_view(apps@) == gathered(fv.take(i as int)),
            forall|j: int| 0 <= j < apps.len() ==> (#[trigger] apps@[j]).icon is None ==> apps@[j].icon_path is None,
        decreases files.len() - i,
    {
        let ghost p = apps_view(apps@);
        assert(fv.take(i + 1).drop_last() =~= fv.take(i as int));
        assert(fv.take(i + 1).last() == (files@[i as int].file_name@, files@[i as int].content@));
        match parse_desktop_entry(files[i].content.as_str()) {
            Some(entry) => {
                let mut seen = false;
                let mut j: usize = 0;
                while j < apps.len()
                    invariant
                        p == apps_view(apps@),
                        j <= apps.len(),
                        seen == exists|m: int| 0 <= m < j && p[m].name == entry.name@,
                    decreases apps.len() - j,
                {
                    assert(p[j as int] == apps@[j as int]@);
                    if apps[j].name == entry.name {
                        seen = true;
                    }
                    assert(seen == exists|m: int| 0 <= m < j + 1 && p[m].name == entry.name@) by {
                        if exists|m: int| 0 <= m < j + 1 && p[m].name == entry.name@ {
                            let m = choose|m: int| 0 <= m < j + 1 && p[m].name == entry.name@;
                            if m < j {
                            }
                        }
                    }
                    j = j + 1;
                }
                if !seen {
                    let icon_path = match &entry.icon {
                        Some(icon) => lookup_icon(icon.as_str()),
                        None => None,
                    };
                    let app = NiriApp {
                        file_name: files[i].file_name.clone(),
                        name: entry.name,
                        command: entry.command,
                        icon: entry.icon,
                        icon_path: icon_path,
                        terminal: entry.terminal,
                    };
                    let ghost old_apps = apps@;
                    apps.push(app);
                    assert(apps_view(apps@) =~= apps_view(old_apps).push(
                        app_from_entry(files@[i as int].file_name@, entry@),
                    ));
                }
            },
            None => {},
        }
        i = i + 1;
    }
    assert(fv.take(files.len() as int) =~= fv);
    apps
}

/// No two gathered applications share a name.
pub proof fn law_gathered_names_unique(files: Seq<(Seq<char>, Seq<char>)>)
    ensures
        forall|i: int, j: int|
            0 <= i < j < gathered(files).len() ==> gathered(files)[i].name != gathered(
                files,
            )[j].name,
    decreases files.len(),
{
    if files.len() > 0 {
        law_gathered_names_unique(files.drop_last());
        let p = gathered(files.drop_last());
        let g = gathered(files);
        assert forall|i: int, j: int| 0 <= i < j < g.len() implies g[i].name != g[j].name by {
            if j >= p.len() {
                assert(g[i] == p[i]);
                if g[i].name == g[j].name {
                    assert(has_app_named(p, g[j].name));
                }
            } else {
                assert(g[i] == p[i]);
                assert(g[j] == p[j]);
            }
        }
    }
}


/// Whether something exists at `path` on the file system (`Path::exists`).
/// That depends on the disk, so nothing is stated of the result.
#[verifier::external_body]
fn path_exists(path: &str) -> bool {
    std::path::Path::new(path).exists()
}

/// The terminal emulators the launcher knows, in the order it prefers them.
pub open spec fn terminal_names() -> Seq<Seq<char>> {
    seq![
        "kitty"@,
        "alacritty"@,
        "ghostty"@,
        "wezterm"@,
        "foot"@,
        "gnome-terminal"@,
        "konsole"@,
        "xfce4-terminal"@,
        "mate-terminal"@,
        "terminator"@,
        "termite"@,
        "st"@,
        "urxvt"@,
        "xterm"@,
    ]
}

/// The first terminal `i`, from `i` on, that `present` marks as found.
pub open spec fn first_marked_terminal(present: Seq<bool>, i: int) -> Option<Seq<char>>
    decreases present.len() - i,
{
    if i < 0 || i >= present.len() || i >= terminal_names().len() {
        None
    } else if present[i] {
        Some(terminal_names()[i])
    } else {
        first_marked_terminal(present, i + 1)
    }
}

/// The first known terminal emulator, in the order of `terminal_names`,
/// whose entry of `present` is true (entries past the known terminals
/// count for nothing).
pub fn first_present_terminal(present: &Vec<bool>) -> (r: Option<String>)
    ensures
        r.deep_view() == first_marked_terminal(present@, 0),
{
    let all_terms: [&str; 14] = [
        "kitty",
        "alacritty",
        "ghostty",
        "wezterm",
        "foot",
        "gnome-terminal",
        "konsole",
        "xfce4-terminal",
        "mate-terminal",
        "terminator",
        "termite",
        "st",
        "urxvt",
        "xterm",
    ];
    assert(all_terms@.map_values(|t: &str| t@) =~= terminal_names());
    let mut i: usize = 0;
    while i < 14 && i < present.len()
        invariant
            i <= 14,
            all_terms@.map_values(|t: &str| t@) == terminal_names(),
            first_marked_terminal(present@, 0) == first_marked_terminal(present@, i as int),
        decreases 14 - i,
    {
        if present[i] {
            let found = all_terms[i].to_owned();
            assert(terminal_names()[i as int] == found@);
            return Some(found);
        }
        i = i + 1;
    }
    None
}

/// The first known terminal emulator (in the order of `terminal_names`)
/// that lies in a directory of `path_var`, the value of `PATH`; none where
/// `PATH` is unset.  Whether a terminal lies in a directory is a question
/// for the disk; the choice among the answers is `first_present_terminal`.
pub fn get_term(path_var: Option<String>) -> (r: Option<String>)
    ensures
        path_var is None ==> r is None,
        r matches Some(t) ==> terminal_names().contains(t@),
        r.deep_view() matches Some(t) ==> terminal_names().contains(t),
        exists|present: Seq<bool>|
            present.len() == terminal_names().len() && r.deep_view() == first_marked_terminal(
                present,
                0,
            ),
{
    let all_terms: [&str; 14] = [
        "kitty",
        "alacritty",
        "ghostty",
        "wezterm",
        "foot",
        "gnome-terminal",
        "konsole",
        "xfce4-terminal",
        "mate-terminal",
        "terminator",
        "termite",
        "st",
        "urxvt",
        "xterm",
    ];
    assert(all_terms@.map_values(|t: &str| t@) =~= terminal_names());
    let pv = match &path_var {
        Some(p) => p,
        None => {
            proof {
                let none_found = Seq::new(14, |k: int| false);
                lemma_none_marked(none_found, 0);
                assert(none_found.len() == terminal_names().len());
            }
            return None;
        },
    };
    let dirs = split_pieces(pv.as_str(), ':');
    let mut present: Vec<bool> = Vec::new();
    let mut hit = false;
    let mut i: usize = 0;
    while i < 14
        invariant
            i <= 14,
            present.len() == i,
            all_terms@.map_values(|t: &str| t@) == terminal_names(),
        decreases 14 - i,
    {
        let term = all_terms[i];
        let mut found = false;
        if !hit {
            let mut j: usize = 0;
            while j < dirs.len()
                decreases dirs.len() - j,
            {
                let candidate = join_path(dirs[j].as_str(), term);
                if path_exists(candidate.as_str()) {
                    found = true;
                    break;
                }
                j = j + 1;
            }
        }
        present.push(found);
        if found {
            hit = true;
        }
        i = i + 1;
    }
    let r = first_present_terminal(&present);
    proof {
        lemma_first_marked_is_known(present@, 0);
    }
    r
}

proof fn lemma_none_marked(present: Seq<bool>, i: int)
    requires
        forall|k: int| 0 <= k < present.len() ==> !present[k],
    ensures
        first_marked_terminal(present, i) is None,
    decreases present.len() - i,
{
    if !(i < 0 || i >= present.len() || i >= terminal_names().len()) {
        lemma_none_marked(present, i + 1);
    }
}

proof fn lemma_first_marked_is_known(present: Seq<bool>, i: int)
    ensures
        first_marked_terminal(present, i) matches Some(t) ==> terminal_names().contains(t),
    decreases present.len() - i,
{
    if !(i < 0 || i >= present.len() || i >= terminal_names().len()) && !present[i] {
        lemma_first_marked_is_known(present, i + 1);
    }
    if 0 <= i < present.len() && i < terminal_names().len() && present[i] {
        assert(terminal_names()[i] == first_marked_terminal(present, i)->0);
    }
}

/// The command line that starts `command`, in the terminal `term` where one
/// is given: the terminal's name, a space, then the command.
pub open spec fn command_line(command: Seq<char>, term: Option<Seq<char>>) -> Seq<char> {
    match term {
        Some(t) => t + " "@ + command,
        None => command,
    }
}

pub fn command_with_terminal(command: &str, term: Option<String>) -> (r: String)
    ensures
        r@ == command_line(command@, term.deep_view()),
{
    match term {
        Some(t) => {
            let mut r = t;
            r.append(" ");
            r.append(command);
            r
        },
        None => command.to_owned(),
    }
}

impl NiriApp {
    /// The command line that launches this application: its command, after
    /// the name of an available terminal emulator where it runs in a terminal
    /// (`path_var` is the value of `PATH`).
    pub fn launch_command(&self, path_var: Option<String>) -> (r: String)
        ensures
            !self.terminal || path_var is None ==> r@ == self.command@,
            self.terminal ==> r@ == self.command@ || exists|i: int|
                0 <= i < terminal_names().len() && r@ == terminal_names()[i] + " "@ + self.command@,
    {
        let term = if self.terminal {
            get_term(path_var)
        } else {
            None
        };
        let ghost tv = term.deep_view();
        let r = command_with_terminal(self.command.as_str(), term);
        proof {
            if let Some(t) = tv {
                let i = choose|i: int| 0 <= i < terminal_names().len() && terminal_names()[i] == t;
                assert(r@ == terminal_names()[i] + " "@ + self.command@);
            }
        }
        r
    }
}

/// The directories that hold application data: those of `XDG_DATA_DIRS`
/// (by default `/usr/local/share:/usr/share`), then `XDG_DATA_HOME` (by
/// default `.local/share` in the home directory).
pub open spec fn data_dirs(
    xdg_data_dirs: Option<Seq<char>>,
    home: Seq<char>,
    xdg_data_home: Option<Seq<char>>,
) -> Seq<Seq<char>> {
    split_on(
        match xdg_data_dirs {
            Some(d) => d,
            None => "/usr/local/share:/usr/share"@,
        },
        ':',
    ).push(
        match xdg_data_home {
            Some(d) => d,
            None => home + "/.local/share"@,
        },
    )
}

/// The directories to search for desktop files: `applications` in each data
/// directory (see `data_dirs`).  The arguments are the values of
/// `XDG_DATA_DIRS`, `HOME` and `XDG_DATA_HOME`; without `HOME` this fails.
pub fn application_dirs(
    xdg_data_dirs: Option<String>,
    home: Option<String>,
    xdg_data_home: Option<String>,
) -> (r: Result<Vec<String>, Error>)
    ensures
        home is None ==> (r matches Err(Error::InternalError(m)) && m@ == "Cannot access Home"@),
        home matches Some(h) ==> (r matches Ok(dirs) && dirs.len() == data_dirs(
            xdg_data_dirs.deep_view(),
            h@,
            xdg_data_home.deep_view(),
        ).len() && forall|i: int|
            0 <= i < dirs.len() ==> #[trigger] dirs@[i]@ == path_join(
                data_dirs(xdg_data_dirs.deep_view(), h@, xdg_data_home.deep_view())[i],
                "applications"@,
            )),
{
    let data = match &xdg_data_dirs {
        Some(d) => d.clone(),
        None => "/usr/local/share:/usr/share".to_owned(),
    };
    let h = match home {
        Some(h) => h,
        None => return Err(Error::InternalError("Cannot access Home".to_owned())),
    };
    let own = match &xdg_data_home {
        Some(d) => d.clone(),
        None => {
            let mut d = h.clone();
            d.append("/.local/share");
            d
        },
    };
    let mut all = split_pieces(data.as_str(), ':');
    all.push(own);
    let ghost dd = data_dirs(xdg_data_dirs.deep_view(), h@, xdg_data_home.deep_view());
    assert forall|i: int| 0 <= i < all.len() implies #[trigger] all@[i]@ == dd[i] by {}
    let mut dirs: Vec<String> = Vec::new();
    let mut i: usize = 0;
    while i < all.len()
        invariant
            all.len() == dd.len(),
            forall|k: int| 0 <= k < all.len() ==> #[trigger] all@[k]@ == dd[k],
            i <= all.len(),
            dirs.len() == i,
            forall|k: int| 0 <= k < i ==> #[trigger] dirs@[k]@ == path_join(dd[k], "applications"@),
        decreases all.len() - i,
    {
        dirs.push(join_path(all[i].as_str(), "applications"));
        i = i + 1;
    }
    Ok(dirs)
}

} // verus!
