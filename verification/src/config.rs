//! The settings file, the browsers that are looked for without one, and the profiles in use.
use vstd::prelude::*;
use vstd::string::*;
use crate::fault::{CommandError, Fault, Reason};
use crate::number;
use crate::number::{parse_u64, parse_usize};
use crate::path;
use crate::path::to_lowercase;
use crate::text;
use crate::text::{
    contains_text, ends_with, eq_ignore_ascii_case, strip_prefix, text_eq, trim,
    trim_set, CharSet,
};
use crate::time;
use crate::time::{local_now, STAMP_PATTERN};

verus! {

/// How a browser stores its bookmarks.
#[derive(Debug, Clone, Copy, PartialEq, Eq, Structural)]
pub enum ProfileBackend {
    ChromiumJson,
    FirefoxSqlite,
}

/// A browser profile: the name of its folder, the file that holds its bookmarks, and the form of
/// that file.
#[derive(Debug)]
pub struct Profile {
    pub name: String,
    pub bookmark_path: String,
    pub backend: ProfileBackend,
}

/// The model of a profile.
pub struct ProfileView {
    pub name: Seq<char>,
    pub bookmark_path: Seq<char>,
    pub backend: ProfileBackend,
}

impl View for Profile {
    type V = ProfileView;

    open spec fn view(&self) -> ProfileView {
        ProfileView {
            name: self.name@,
            bookmark_path: self.bookmark_path@,
            backend: self.backend,
        }
    }
}

/// The models of a list of profiles.
pub open spec fn profiles_of(s: Seq<Profile>) -> Seq<ProfileView> {
    s.map_values(|p: Profile| p@)
}

/// The profiles in use and how they are backed up.
#[derive(Debug)]
pub struct Config {
    pub profiles: Vec<Profile>,
    pub backup_interval_minutes: u64,
    pub backup_keep_generations: usize,
}

/// Whether messages are logged.
#[derive(Debug, Clone, Copy, PartialEq, Eq, Structural)]
pub struct Session {
    pub debug: bool,
}

/// Switches the log on or off.
pub fn set_debug_mode(session: &mut Session, enabled: bool)
    ensures
        final(session).debug == enabled,
{
    session.debug = enabled;
}

/// The line that a message adds to the log at a given time.
pub open spec fn log_entry(now: Seq<char>, msg: Seq<char>) -> Seq<char> {
    "["@ + now + "] "@ + msg + "\n"@
}

/// The line that a message adds to the log now, where there is a log.
pub fn log_msg(session: &Session, msg: &str) -> (r: Option<String>)
    ensures
        match r {
            Some(line) => session.debug && exists|now: Seq<char>|
                time::is_clock_text(now, STAMP_PATTERN@) && line@ == #[trigger] log_entry(
                    now,
                    msg@,
                ),
            None => !session.debug,
        },
{
    let now: String = local_now(STAMP_PATTERN);
    log_line(session, now.as_str(), msg)
}

/// The line that a message adds to the log, where there is a log.
pub fn log_line(session: &Session, now: &str, msg: &str) -> (r: Option<String>)
    ensures
        match r {
            Some(line) => session.debug && line@ == log_entry(now@, msg@),
            None => !session.debug,
        },
{
    if session.debug {
        let mut out: String = "[".to_owned();
        out.append(now);
        out.append("] ");
        out.append(msg);
        out.append("\n");
        Some(out)
    } else {
        None
    }
}

// ---------------------------------------------------------------------------
// The settings file
// ---------------------------------------------------------------------------

/// What the lines of a settings file have said so far.
pub struct SettingsView {
    pub in_profiles: bool,
    pub candidates: Seq<ProfileView>,
    pub backup_interval_minutes: u64,
    pub backup_keep_generations: usize,
    pub debug: bool,
}

/// The settings before the first line.
pub open spec fn default_settings() -> SettingsView {
    SettingsView {
        in_profiles: false,
        candidates: Seq::empty(),
        backup_interval_minutes: 30,
        backup_keep_generations: 3,
        debug: false,
    }
}

/// The form of a bookmark file, by its name.
pub open spec fn backend_of(path: Seq<char>) -> ProfileBackend {
    if text::finishes_with(path, ".sqlite"@) || text::find(path, "places.sqlite"@) is Some {
        ProfileBackend::FirefoxSqlite
    } else {
        ProfileBackend::ChromiumJson
    }
}

/// The settings after an assignment `key = val`.
pub open spec fn assigned(st: SettingsView, key: Seq<char>, val: Seq<char>) -> SettingsView {
    if st.in_profiles {
        SettingsView {
            candidates: st.candidates.push(
                ProfileView { name: key, bookmark_path: val, backend: backend_of(val) },
            ),
            ..st
        }
    } else if text::same_ignoring_case(key, "backup_interval_minutes"@) {
        match number::parse_unsigned(val, u64::MAX as nat) {
            Some(n) => SettingsView { backup_interval_minutes: n as u64, ..st },
            None => st,
        }
    } else if text::same_ignoring_case(key, "backup_keep_generations"@) {
        match number::parse_unsigned(val, usize::MAX as nat) {
            Some(n) => SettingsView { backup_keep_generations: n as usize, ..st },
            None => st,
        }
    } else if text::same_ignoring_case(key, "debug"@) && (text::same_ignoring_case(val, "true"@)
        || val == "1"@) {
        SettingsView { debug: true, ..st }
    } else {
        st
    }
}

/// A line without content: blank, or a comment.
pub open spec fn is_idle(t: Seq<char>) -> bool {
    t.len() == 0 || t[0] == ';' || t[0] == '#'
}

/// A line that opens a section.
pub open spec fn opens_section(t: Seq<char>) -> bool {
    t.len() > 1 && t[0] == '[' && t.last() == ']'
}

/// The title of the section that a line opens; nothing for any other line.
pub open spec fn section_title(line: Seq<char>) -> Seq<char> {
    let t = text::trimmed(line);
    if opens_section(t) {
        text::trimmed(t.subrange(1, t.len() - 1))
    } else {
        ""@
    }
}

/// The settings after one more line, given the lower case of the section title in it.
pub open spec fn after_line_given(st: SettingsView, line: Seq<char>, lower: Seq<char>) -> SettingsView {
    let t = text::trimmed(line);
    if is_idle(t) {
        st
    } else if opens_section(t) {
        SettingsView { in_profiles: lower == "profiles"@, ..st }
    } else {
        match text::first_index(t, text::is_char('=')) {
            Some(i) => assigned(
                st,
                text::trimmed(t.take(i)),
                text::strip(text::trimmed(t.skip(i + 1)), CharSet::One('"')),
            ),
            None => st,
        }
    }
}

/// The settings after one more line.
pub open spec fn after_line(st: SettingsView, line: Seq<char>) -> SettingsView {
    after_line_given(st, line, path::lowercase(section_title(line)))
}

/// What the lines of a settings file say.
pub open spec fn settings_of(lines: Seq<Seq<char>>) -> SettingsView
    decreases lines.len(),
{
    if lines.len() == 0 {
        default_settings()
    } else {
        after_line(settings_of(lines.drop_last()), lines.last())
    }
}

/// What a settings file says.
#[derive(Debug)]
pub struct Settings {
    pub in_profiles: bool,
    pub candidates: Vec<Profile>,
    pub backup_interval_minutes: u64,
    pub backup_keep_generations: usize,
    pub debug: bool,
}

impl View for Settings {
    type V = SettingsView;

    open spec fn view(&self) -> SettingsView {
        SettingsView {
            in_profiles: self.in_profiles,
            candidates: profiles_of(self.candidates@),
            backup_interval_minutes: self.backup_interval_minutes,
            backup_keep_generations: self.backup_keep_generations,
            debug: self.debug,
        }
    }
}

impl Settings {
    /// Takes in an assignment.
    fn assign(&mut self, key: &str, val: &str)
        ensures
            final(self)@ == assigned(old(self)@, key@, val@),
    {
        if self.in_profiles {
            let sqlite: bool = ends_with(val, ".sqlite") || contains_text(val, "places.sqlite");
            let backend: ProfileBackend = if sqlite {
                ProfileBackend::FirefoxSqlite
            } else {
                ProfileBackend::ChromiumJson
            };
            let ghost before = profiles_of(self.candidates@);
            let p: Profile = Profile {
                name: key.to_owned(),
                bookmark_path: val.to_owned(),
                backend,
            };
            let ghost pv = p@;
            self.candidates.push(p);
            assert(profiles_of(self.candidates@) =~= before.push(pv));
        } else if eq_ignore_ascii_case(key, "backup_interval_minutes") {
            if let Some(n) = parse_u64(val) {
                self.backup_interval_minutes = n;
            }
        } else if eq_ignore_ascii_case(key, "backup_keep_generations") {
            if let Some(n) = parse_usize(val) {
                self.backup_keep_generations = n;
            }
        } else if eq_ignore_ascii_case(key, "debug") {
            if eq_ignore_ascii_case(val, "true") || text_eq(val, "1") {
                self.debug = true;
            }
        }
    }

    /// Takes in a line.
    pub fn take_line(&mut self, line: &str)
        ensures
            final(self)@ == after_line(old(self)@, line@),
            opens_section(text::trimmed(line@)) && !is_idle(text::trimmed(line@))
                && vstd::utf8::is_ascii_chars(section_title(line@)) ==> final(self)@.in_profiles
                == (text::ascii_lower(section_title(line@)) == "profiles"@),
    {
        let t: &str = trim(line);
        let n: usize = t.unicode_len();
        let title: &str = if n > 1 && t.get_char(0) == '[' && t.get_char(n - 1) == ']' {
            trim(t.substring_char(1, n - 1))
        } else {
            ""
        };
        let lower: String = to_lowercase(title);
        self.take_line_given(line, lower.as_str());
    }

    /// Takes in a line, given the lower case of the section title in it.
    pub fn take_line_given(&mut self, line: &str, lower: &str)
        ensures
            final(self)@ == after_line_given(old(self)@, line@, lower@),
    {
        let t: &str = trim(line);
        let n: usize = t.unicode_len();
        if n == 0 || t.get_char(0) == ';' || t.get_char(0) == '#' {
            return;
        }
        if n > 1 && t.get_char(0) == '[' && t.get_char(n - 1) == ']' {
            self.in_profiles = text_eq(lower, "profiles");
            return;
        }
        let mut i: usize = 0;
        while i < n
            invariant
                i <= n,
                n == t@.len(),
                forall|j: int| 0 <= j < i ==> t@[j] != '=',
                t@ == text::trimmed(line@),
                !is_idle(t@),
                !opens_section(t@),
                *self == *old(self),
            decreases n - i,
        {
            if t.get_char(i) == '=' {
                proof {
                    text::lemma_first_index_found(t@, text::is_char('='), i as int);
                    assert(t@.subrange(0, i as int) =~= t@.take(i as int));
                    assert(t@.subrange(i + 1, n as int) =~= t@.skip(i + 1));
                }
                let key: &str = trim(t.substring_char(0, i));
                let val: &str = trim_set(trim(t.substring_char(i + 1, n)), CharSet::One('"'));
                self.assign(key, val);
                return;
            }
            i += 1;
        }
        proof {
            text::lemma_first_index_missing(t@, text::is_char('='));
        }
    }
}

/// Reads the lines of a settings file.
pub fn read_settings(lines: &[String]) -> (r: Settings)
    ensures
        r@ == settings_of(text::texts(lines@)),
{
    let mut st: Settings = Settings {
        in_profiles: false,
        candidates: Vec::new(),
        backup_interval_minutes: 30,
        backup_keep_generations: 3,
        debug: false,
    };
    let ghost all = text::texts(lines@);
    assert(profiles_of(st.candidates@) =~= Seq::empty());
    assert(all.take(0) =~= Seq::empty());
    let mut i: usize = 0;
    while i < lines.len()
        invariant
            i <= lines@.len(),
            all == text::texts(lines@),
            st@ == settings_of(all.take(i as int)),
        decreases lines.len() - i,
    {
        proof {
            assert(all.take(i + 1).drop_last() =~= all.take(i as int));
            assert(all.take(i + 1).last() == lines@[i as int]@);
        }
        st.take_line(lines[i].as_str());
        i += 1;
    }
    assert(all.take(i as int) =~= all);
    st
}

// ---------------------------------------------------------------------------
// Browsers found without a settings file
// ---------------------------------------------------------------------------

/// The line names a directory among the profiles of Firefox.
pub open spec fn in_profiles_dir(s: Seq<char>) -> bool {
    text::find(s, "Profiles/"@) is Some || text::find(s, "Profiles\\"@) is Some
}

/// The last default directory and the first listed directory that the lines of a `profiles.ini`
/// name.
pub open spec fn firefox_dirs(lines: Seq<Seq<char>>) -> (Option<Seq<char>>, Option<Seq<char>>)
    decreases lines.len(),
{
    if lines.len() == 0 {
        (None, None)
    } else {
        let (default, first) = firefox_dirs(lines.drop_last());
        let t = text::trimmed(lines.last());
        if text::begins_with(t, "Default="@) {
            let rest = t.skip("Default="@.len() as int);
            if in_profiles_dir(rest) {
                (Some(rest), first)
            } else {
                (default, first)
            }
        } else if text::begins_with(t, "Path="@) {
            let rest = t.skip("Path="@.len() as int);
            if first is None && in_profiles_dir(rest) {
                (default, Some(rest))
            } else {
                (default, first)
            }
        } else {
            (default, first)
        }
    }
}

/// The directory of the Firefox profile that the lines of a `profiles.ini` name: the default one,
/// else the first listed one.
pub open spec fn firefox_dir(lines: Seq<Seq<char>>) -> Option<Seq<char>> {
    let (default, first) = firefox_dirs(lines);
    if default is Some {
        default
    } else {
        first
    }
}

/// The directory of the Firefox profile that the lines of a `profiles.ini` name.
pub fn detect_firefox_profile(lines: &[String]) -> (r: Option<String>)
    ensures
        match r {
            Some(dir) => firefox_dir(text::texts(lines@)) == Some(dir@),
            None => firefox_dir(text::texts(lines@)) is None,
        },
{
    let ghost all = text::texts(lines@);
    let mut default: Option<String> = None;
    let mut first: Option<String> = None;
    assert(all.take(0) =~= Seq::empty());
    let mut i: usize = 0;
    while i < lines.len()
        invariant
            i <= lines@.len(),
            all == text::texts(lines@),
            firefox_dirs(all.take(i as int)) == (
                match default {
                    Some(s) => Some(s@),
                    None => None,
                },
                match first {
                    Some(s) => Some(s@),
                    None => None,
                },
            ),
        decreases lines.len() - i,
    {
        proof {
            assert(all.take(i + 1).drop_last() =~= all.take(i as int));
            assert(all.take(i + 1).last() == lines@[i as int]@);
        }
        let t: &str = trim(lines[i].as_str());
        match strip_prefix(t, "Default=") {
            Some(rest) => {
                if contains_text(rest, "Profiles/") || contains_text(rest, "Profiles\\") {
                    default = Some(rest.to_owned());
                }
            },
            None => match strip_prefix(t, "Path=") {
                Some(rest) => {
                    if first.is_none() && (contains_text(rest, "Profiles/") || contains_text(
                        rest,
                        "Profiles\\",
                    )) {
                        first = Some(rest.to_owned());
                    }
                },
                None => {},
            },
        }
        i += 1;
    }
    assert(all.take(i as int) =~= all);
    if default.is_some() {
        default
    } else {
        first
    }
}

/// The directory of the user under which a browser keeps its files.
#[derive(Debug, Clone, Copy, PartialEq, Eq, Structural)]
pub enum UserDir {
    /// `LOCALAPPDATA`; the place is the bookmark file.
    Local,
    /// `APPDATA`; the place is the directory of a `profiles.ini`.
    Roaming,
}

/// The number of browsers that are looked for.
pub const KNOWN_BROWSERS: usize = 5;

/// The name of a browser that is looked for.
pub open spec fn known_name(i: int) -> Seq<char> {
    if i == 0 {
        "Brave"@
    } else if i == 1 {
        "Chrome"@
    } else if i == 2 {
        "Edge"@
    } else if i == 3 {
        "Firefox"@
    } else {
        "Firefox-Compat"@
    }
}

/// Where a browser that is looked for keeps its files.
pub open spec fn known_place(i: int) -> (UserDir, Seq<char>) {
    if i == 0 {
        (UserDir::Local, "BraveSoftware\\Brave-Browser\\User Data\\Default\\Bookmarks"@)
    } else if i == 1 {
        (UserDir::Local, "Google\\Chrome\\User Data\\Default\\Bookmarks"@)
    } else if i == 2 {
        (UserDir::Local, "Microsoft\\Edge\\User Data\\Default\\Bookmarks"@)
    } else if i == 3 {
        (UserDir::Roaming, "Mozilla\\Firefox"@)
    } else {
        (UserDir::Roaming, "mercury"@)
    }
}

/// How a browser that is looked for stores its bookmarks.
pub open spec fn known_backend(i: int) -> ProfileBackend {
    if i < 3 {
        ProfileBackend::ChromiumJson
    } else {
        ProfileBackend::FirefoxSqlite
    }
}

/// Where a browser that is looked for keeps its files.
pub fn browser_place(i: usize) -> (r: (UserDir, &'static str))
    requires
        i < KNOWN_BROWSERS,
    ensures
        (r.0, r.1@) == known_place(i as int),
{
    if i == 0 {
        (UserDir::Local, "BraveSoftware\\Brave-Browser\\User Data\\Default\\Bookmarks")
    } else if i == 1 {
        (UserDir::Local, "Google\\Chrome\\User Data\\Default\\Bookmarks")
    } else if i == 2 {
        (UserDir::Local, "Microsoft\\Edge\\User Data\\Default\\Bookmarks")
    } else if i == 3 {
        (UserDir::Roaming, "Mozilla\\Firefox")
    } else {
        (UserDir::Roaming, "mercury")
    }
}

/// The profiles of the first `n` browsers, where `found` says for each which bookmark file was
/// found.
pub open spec fn detected(found: Seq<Option<String>>, n: int) -> Seq<ProfileView>
    decreases n,
{
    if n <= 0 {
        Seq::empty()
    } else {
        let rest = detected(found, n - 1);
        if n <= found.len() && found[n - 1] is Some {
            rest.push(
                ProfileView {
                    name: known_name(n - 1),
                    bookmark_path: found[n - 1]->0@,
                    backend: known_backend(n - 1),
                },
            )
        } else {
            rest
        }
    }
}

/// The profiles of the browsers that were found, in a fixed order; `found` says for each browser
/// which bookmark file was found.
pub fn detect_default_profiles(found: &[Option<String>]) -> (r: Vec<Profile>)
    ensures
        profiles_of(r@) == detected(found@, KNOWN_BROWSERS as int),
{
    let mut out: Vec<Profile> = Vec::new();
    assert(profiles_of(out@) =~= Seq::empty());
    let mut i: usize = 0;
    while i < KNOWN_BROWSERS
        invariant
            i <= KNOWN_BROWSERS,
            profiles_of(out@) == detected(found@, i as int),
        decreases KNOWN_BROWSERS - i,
    {
        if i < found.len() {
            if let Some(place) = &found[i] {
                let name: &str = if i == 0 {
                    "Brave"
                } else if i == 1 {
                    "Chrome"
                } else if i == 2 {
                    "Edge"
                } else if i == 3 {
                    "Firefox"
                } else {
                    "Firefox-Compat"
                };
                let backend: ProfileBackend = if i < 3 {
                    ProfileBackend::ChromiumJson
                } else {
                    ProfileBackend::FirefoxSqlite
                };
                let ghost before = profiles_of(out@);
                let p: Profile = Profile {
                    name: name.to_owned(),
                    bookmark_path: place.clone(),
                    backend,
                };
                let ghost pv = p@;
                out.push(p);
                assert(profiles_of(out@) =~= before.push(pv));
            }
        }
        i += 1;
    }
    out
}

// ---------------------------------------------------------------------------
// The profiles in use
// ---------------------------------------------------------------------------

/// The candidates whose bookmark file exists.
pub open spec fn existing(candidates: Seq<ProfileView>, exists_at: Seq<bool>) -> Seq<ProfileView>
    decreases candidates.len(),
{
    if candidates.len() == 0 {
        Seq::empty()
    } else {
        let n = candidates.len() - 1;
        let rest = existing(candidates.drop_last(), exists_at);
        if n < exists_at.len() && exists_at[n] {
            rest.push(candidates.last())
        } else {
            rest
        }
    }
}

/// The profiles in use: the configured ones whose files exist, or the browsers that were found
/// where there are none of these.
pub open spec fn profiles_in_use(
    settings: SettingsView,
    exists_at: Seq<bool>,
    found: Seq<Option<String>>,
) -> Seq<ProfileView> {
    let own = existing(settings.candidates, exists_at);
    if own.len() > 0 {
        own
    } else {
        detected(found, KNOWN_BROWSERS as int)
    }
}

/// Keeps the candidates whose bookmark file exists.
fn keep_existing(candidates: Vec<Profile>, exists_at: &[bool]) -> (r: Vec<Profile>)
    ensures
        profiles_of(r@) == existing(profiles_of(candidates@), exists_at@),
{
    let ghost all = profiles_of(candidates@);
    let mut out: Vec<Profile> = Vec::new();
    assert(profiles_of(out@) =~= Seq::empty());
    assert(all.take(0) =~= Seq::empty());
    let mut i: usize = 0;
    while i < candidates.len()
        invariant
            i <= candidates@.len(),
            all == profiles_of(candidates@),
            profiles_of(out@) == existing(all.take(i as int), exists_at@),
        decreases candidates.len() - i,
    {
        proof {
            assert(all.take(i + 1).drop_last() =~= all.take(i as int));
            assert(all.take(i + 1).last() == candidates@[i as int]@);
        }
        if i < exists_at.len() && exists_at[i] {
            let ghost before = profiles_of(out@);
            let p: Profile = Profile {
                name: candidates[i].name.clone(),
                bookmark_path: candidates[i].bookmark_path.clone(),
                backend: candidates[i].backend,
            };
            let ghost pv = p@;
            out.push(p);
            assert(profiles_of(out@) =~= before.push(pv));
        }
        i += 1;
    }
    assert(all.take(i as int) =~= all);
    out
}

/// The configuration in force, given what the settings file says, which of its candidates exist,
/// and which of the known browsers were found.
pub fn load_config(settings: Settings, exists_at: &[bool], found: &[Option<String>]) -> (r: Result<
    Config,
    CommandError,
>)
    ensures
        ({
            let used = profiles_in_use(settings@, exists_at@, found@);
            match r {
                Ok(config) => {
                    &&& used.len() > 0
                    &&& profiles_of(config.profiles@) == used
                    &&& config.backup_interval_minutes == settings@.backup_interval_minutes
                    &&& config.backup_keep_generations == settings@.backup_keep_generations
                },
                Err(e) => {
                    &&& used.len() == 0
                    &&& e@ == (Fault { reason: Reason::NoProfiles, detail: ""@ })
                },
            }
        }),
{
    let backup_interval_minutes: u64 = settings.backup_interval_minutes;
    let backup_keep_generations: usize = settings.backup_keep_generations;
    let own: Vec<Profile> = keep_existing(settings.candidates, exists_at);
    let profiles: Vec<Profile> = if own.len() > 0 {
        own
    } else {
        detect_default_profiles(found)
    };
    if profiles.len() == 0 {
        return Err(CommandError::new(Reason::NoProfiles, ""));
    }
    Ok(Config { profiles, backup_interval_minutes, backup_keep_generations })
}

/// The profile has the name, up to the case of ASCII letters.
pub open spec fn has_name(name: Seq<char>) -> spec_fn(ProfileView) -> bool {
    |p: ProfileView| text::same_ignoring_case(p.name, name)
}

/// The position of the first profile of a name.
pub open spec fn profile_index(config: Config, name: Seq<char>) -> Option<int> {
    text::first_index(profiles_of(config.profiles@), has_name(name))
}

/// The position of the first profile of a name.
pub fn profile_position(config: &Config, name: &str) -> (r: Option<usize>)
    ensures
        match r {
            Some(i) => i < config.profiles@.len() && profile_index(*config, name@) == Some(i as int),
            None => profile_index(*config, name@) is None,
        },
{
    let ghost all = profiles_of(config.profiles@);
    let mut i: usize = 0;
    while i < config.profiles.len()
        invariant
            i <= config.profiles@.len(),
            all == profiles_of(config.profiles@),
            forall|j: int| 0 <= j < i ==> !has_name(name@)(#[trigger] all[j]),
        decreases config.profiles.len() - i,
    {
        assert(all[i as int] == config.profiles@[i as int]@);
        if eq_ignore_ascii_case(config.profiles[i].name.as_str(), name) {
            proof {
                text::lemma_first_index_found(all, has_name(name@), i as int);
            }
            return Some(i);
        }
        i += 1;
    }
    proof {
        text::lemma_first_index_missing(all, has_name(name@));
    }
    None
}

/// The first profile of a name.
pub fn find_profile<'a>(config: &'a Config, name: &str) -> (r: Option<&'a Profile>)
    ensures
        match r {
            Some(p) => {
                &&& profile_index(*config, name@) is Some
                &&& *p == config.profiles@[profile_index(*config, name@)->0]
            },
            None => profile_index(*config, name@) is None,
        },
{
    match profile_position(config, name) {
        Some(i) => Some(&config.profiles[i]),
        None => None,
    }
}

// ---------------------------------------------------------------------------
// Laws
// ---------------------------------------------------------------------------

/// Without lines, copies are made every half hour, three are kept, nothing is logged, and no
/// profile is named.
pub proof fn law_settings_without_lines()
    ensures
        ({
            let st = settings_of(Seq::empty());
            &&& st.candidates.len() == 0
            &&& st.backup_interval_minutes == 30
            &&& st.backup_keep_generations == 3
            &&& !st.debug
            &&& !st.in_profiles
        }),
{
}

/// Settings are read line by line: one more line is taken in behind the ones before it.
pub proof fn law_settings_are_read_line_by_line(lines: Seq<Seq<char>>, line: Seq<char>)
    ensures
        settings_of(lines.push(line)) == after_line(settings_of(lines), line),
{
    assert(lines.push(line).drop_last() =~= lines);
}

/// A line that is blank or a comment says nothing, nor does one that opens no section and holds no
/// equals sign.
pub proof fn law_comment_says_nothing(st: SettingsView, line: Seq<char>)
    requires
        ({
            let t = text::trimmed(line);
            ||| t.len() == 0
            ||| t[0] == ';'
            ||| t[0] == '#'
            ||| t[0] != '[' && !t.contains('=')
        }),
    ensures
        after_line(st, line) == st,
{
    let t = text::trimmed(line);
    if !is_idle(t) {
        text::lemma_first_index(t, text::is_char('='));
        if let Some(i) = text::first_index(t, text::is_char('=')) {
            assert(t[i] == '=');
            assert(t.contains('='));
        }
    }
}

/// The line is an assignment of a value to a key: the key holds no equals sign and begins with
/// none of the marks of comments and sections, neither has white space around it, and the value
/// has no quotation marks around it.
pub open spec fn is_assignment(line: Seq<char>, key: Seq<char>, val: Seq<char>) -> bool {
    &&& key.len() > 0 && val.len() > 0
    &&& !text::is_space(key[0]) && !text::is_space(key.last())
    &&& !text::is_space(val[0]) && !text::is_space(val.last())
    &&& val[0] != '"' && val.last() != '"'
    &&& key[0] != ';' && key[0] != '#' && key[0] != '['
    &&& !key.contains('=')
    &&& line == key + "="@ + val || line == key + "=\""@ + val + "\""@
}

/// An assignment is taken apart at its equals sign.
#[verifier::rlimit(40)]
proof fn lemma_assignment(st: SettingsView, line: Seq<char>, key: Seq<char>, val: Seq<char>)
    requires
        is_assignment(line, key, val),
    ensures
        after_line(st, line) == assigned(st, key, val),
{
    reveal_strlit("=");
    reveal_strlit("=\"");
    reveal_strlit("\"");
    let k = key.len() as int;
    assert(line[0] == key[0]);
    assert(!text::is_space('"'));
    assert(line.last() == val.last() || line.last() == '"');
    text::lemma_strip_keeps(line, CharSet::Space);
    let t = text::trimmed(line);
    assert(t == line);
    assert(!is_idle(t) && !opens_section(t));
    assert(t[k] == '=');
    assert forall|j: int| 0 <= j < k implies !text::is_char('=')(#[trigger] t[j]) by {
        assert(t[j] == key[j]);
        assert(key.contains(key[j]));
    }
    text::lemma_first_index_found(t, text::is_char('='), k);
    assert(t.take(k) =~= key);
    text::lemma_strip_keeps(key, CharSet::Space);
    let rest = t.skip(k + 1);
    if line == key + "="@ + val {
        assert(rest =~= val);
        text::lemma_strip_keeps(val, CharSet::Space);
        text::lemma_strip_keeps(val, CharSet::One('"'));
    } else {
        assert(rest =~= seq!['"'] + val + seq!['"']);
        text::lemma_strip_keeps(rest, CharSet::Space);
        lemma_unquoted(val);
    }
}

/// A text between quotation marks, without them.
proof fn lemma_unquoted(val: Seq<char>)
    requires
        val.len() > 0,
        val[0] != '"',
        val.last() != '"',
    ensures
        text::strip(seq!['"'] + val + seq!['"'], CharSet::One('"')) == val,
{
    let q = seq!['"'] + val + seq!['"'];
    let f = val + seq!['"'];
    assert(q.drop_first() =~= f);
    assert(f.drop_last() =~= val);
    reveal_with_fuel(text::strip_front, 3);
    reveal_with_fuel(text::strip_back, 3);
    assert(f[0] == val[0]);
    assert(text::strip_front(q, CharSet::One('"')) == f);
    assert(text::strip_back(f, CharSet::One('"')) == val);
}

/// In the section of profiles each assignment names one more profile, with its name and its file,
/// behind those before it; the file tells whether it is one of Firefox. Nothing else changes.
pub proof fn law_assignment_names_a_profile(
    st: SettingsView,
    line: Seq<char>,
    name: Seq<char>,
    file: Seq<char>,
)
    requires
        st.in_profiles,
        is_assignment(line, name, file),
    ensures
        ({
            let after = after_line(st, line);
            let p = after.candidates.last();
            &&& after.candidates.len() == st.candidates.len() + 1
            &&& after.candidates.drop_last() == st.candidates
            &&& p.name == name
            &&& p.bookmark_path == file
            &&& text::finishes_with(file, ".sqlite"@) ==> p.backend == ProfileBackend::FirefoxSqlite
            &&& text::find(file, ".sqlite"@) is None ==> p.backend == ProfileBackend::ChromiumJson
            &&& after.in_profiles
            &&& after.backup_interval_minutes == st.backup_interval_minutes
            &&& after.backup_keep_generations == st.backup_keep_generations
            &&& after.debug == st.debug
        }),
{
    lemma_assignment(st, line, name, file);
    let after = after_line(st, line);
    assert(after.candidates.drop_last() =~= st.candidates);
    if text::find(file, ".sqlite"@) is None {
        lemma_no_sqlite(file);
    }
}

/// A name without `.sqlite` in it is none of a Firefox file.
proof fn lemma_no_sqlite(file: Seq<char>)
    requires
        text::find(file, ".sqlite"@) is None,
    ensures
        !text::finishes_with(file, ".sqlite"@),
        text::find(file, "places.sqlite"@) is None,
{
    reveal_strlit(".sqlite");
    reveal_strlit("places.sqlite");
    let p = ".sqlite"@;
    let q = "places.sqlite"@;
    if text::finishes_with(file, p) {
        lemma_occurs(file, p, file.len() - p.len());
    }
    if let Some(i) = text::find(file, q) {
        lemma_found_there(file, q);
        assert(file.subrange(i + 6, i + 13) =~= p) by {
            assert forall|k: int| 0 <= k < 7 implies file[i + 6 + k] == #[trigger] p[k] by {
                assert(file.subrange(i, i + 13)[6 + k] == q[6 + k]);
            }
        }
        lemma_occurs(file, p, i + 6);
    }
}

/// What is found in a text stands there.
proof fn lemma_found_there(s: Seq<char>, p: Seq<char>)
    ensures
        text::find(s, p) matches Some(i) ==> 0 <= i && i + p.len() <= s.len() && s.subrange(
            i,
            i + p.len() as int,
        ) == p,
    decreases s.len(),
{
    if text::begins_with(s, p) {
        assert(s.subrange(0, p.len() as int) =~= s.take(p.len() as int));
    } else if s.len() > 0 {
        lemma_found_there(s.drop_first(), p);
        if let Some(i) = text::find(s.drop_first(), p) {
            assert(s.drop_first().subrange(i, i + p.len()) =~= s.subrange(i + 1, i + 1 + p.len()));
        }
    }
}

/// What stands in a text is found in it.
proof fn lemma_occurs(s: Seq<char>, p: Seq<char>, i: int)
    requires
        0 <= i,
        i + p.len() <= s.len(),
        s.subrange(i, i + p.len() as int) == p,
    ensures
        text::find(s, p) is Some,
    decreases s.len(),
{
    if i == 0 {
        assert(s.take(p.len() as int) =~= s.subrange(0, p.len() as int));
    } else {
        let t = s.drop_first();
        assert(t.subrange(i - 1, i - 1 + p.len()) =~= s.subrange(i, i + p.len()));
        lemma_occurs(t, p, i - 1);
    }
}

/// Outside the section of profiles a setting is changed by its own key alone, in any case, and by
/// a value that is a number: the last such line counts. A value that is no number changes nothing.
#[verifier::rlimit(40)]
pub proof fn law_assignment_changes_its_setting(
    st: SettingsView,
    line: Seq<char>,
    key: Seq<char>,
    val: Seq<char>,
)
    requires
        !st.in_profiles,
        is_assignment(line, key, val),
    ensures
        ({
            let after = after_line(st, line);
            let interval = text::same_ignoring_case(key, "backup_interval_minutes"@);
            let keep = text::same_ignoring_case(key, "backup_keep_generations"@);
            let debug = text::same_ignoring_case(key, "debug"@);
            &&& after.candidates == st.candidates
            &&& after.in_profiles == st.in_profiles
            &&& interval ==> match number::parse_unsigned(val, u64::MAX as nat) {
                Some(n) => after.backup_interval_minutes == n,
                None => after == st,
            }
            &&& keep ==> match number::parse_unsigned(val, usize::MAX as nat) {
                Some(n) => after.backup_keep_generations == n,
                None => after == st,
            }
            &&& debug ==> (after.debug <==> st.debug || val == "1"@ || text::same_ignoring_case(
                val,
                "true"@,
            ))
            &&& !interval ==> after.backup_interval_minutes == st.backup_interval_minutes
            &&& !keep ==> after.backup_keep_generations == st.backup_keep_generations
            &&& !debug ==> after.debug == st.debug
        }),
{
    lemma_assignment(st, line, key, val);
    reveal_strlit("backup_interval_minutes");
    reveal_strlit("backup_keep_generations");
    reveal_strlit("debug");
    let a = text::ascii_lower("backup_interval_minutes"@);
    let b = text::ascii_lower("backup_keep_generations"@);
    let c = text::ascii_lower("debug"@);
    assert(a.len() == 23 && b.len() == 23 && c.len() == 5);
    assert(a[7] == 'i' && b[7] == 'k');
}

/// A section line switches to the section it opens, and changes nothing else: profiles are named
/// exactly in the section of that title, in any case of its letters.
pub proof fn law_section_line_opens_its_section(st: SettingsView, line: Seq<char>, lower: Seq<char>)
    requires
        ({
            let t = text::trimmed(line);
            t.len() > 1 && t[0] == '[' && t.last() == ']'
        }),
    ensures
        after_line_given(st, line, lower) == (SettingsView {
            in_profiles: lower == "profiles"@,
            ..st
        }),
        section_title(line) == text::trimmed(
            text::trimmed(line).subrange(1, text::trimmed(line).len() - 1),
        ),
{
}

/// A candidate is used exactly if its file exists: candidates are judged one by one, and those that
/// stay keep their order.
pub proof fn law_existing_candidates_are_used(
    candidates: Seq<ProfileView>,
    p: ProfileView,
    exists_at: Seq<bool>,
)
    ensures
        existing(Seq::empty(), exists_at).len() == 0,
        ({
            let before = existing(candidates, exists_at);
            let after = existing(candidates.push(p), exists_at);
            let there = candidates.len() < exists_at.len() && exists_at[candidates.len() as int];
            &&& there ==> after == before.push(p)
            &&& !there ==> after == before
        }),
{
    assert(candidates.push(p).drop_last() =~= candidates);
}

/// The profiles in use are the configured ones that exist, and none but these where there are any;
/// else they are the browsers that were found.
pub proof fn law_configured_profiles_go_first(
    settings: SettingsView,
    exists_at: Seq<bool>,
    found: Seq<Option<String>>,
    i: int,
)
    requires
        0 <= i < settings.candidates.len(),
        i < exists_at.len(),
        exists_at[i],
    ensures
        profiles_in_use(settings, exists_at, found).contains(settings.candidates[i]),
        forall|p: ProfileView| #[trigger]
            profiles_in_use(settings, exists_at, found).contains(p)
                ==> settings.candidates.contains(p),
{
    lemma_existing(settings.candidates, exists_at);
    let own = existing(settings.candidates, exists_at);
    assert(own.contains(settings.candidates[i]));
    let k = choose|k: int| 0 <= k < own.len() && own[k] == settings.candidates[i];
    assert(own.len() > 0);
}

/// What stays of candidates are those whose files exist.
proof fn lemma_existing(candidates: Seq<ProfileView>, exists_at: Seq<bool>)
    ensures
        forall|i: int|
            0 <= i < candidates.len() && i < exists_at.len() && exists_at[i] ==> existing(
                candidates,
                exists_at,
            ).contains(#[trigger] candidates[i]),
        forall|p: ProfileView| #[trigger]
            existing(candidates, exists_at).contains(p) ==> candidates.contains(p),
    decreases candidates.len(),
{
    if candidates.len() > 0 {
        let head = candidates.drop_last();
        lemma_existing(head, exists_at);
        let before = existing(head, exists_at);
        let after = existing(candidates, exists_at);
        assert forall|i: int|
            0 <= i < candidates.len() && i < exists_at.len() && exists_at[i] implies after.contains(
            #[trigger] candidates[i],
        ) by {
            if i < head.len() {
                assert(head[i] == candidates[i]);
                let k = choose|k: int| 0 <= k < before.len() && before[k] == candidates[i];
                assert(after[k] == candidates[i]);
            } else {
                assert(after[before.len() as int] == candidates[i]);
            }
        }
        assert forall|p: ProfileView| #[trigger] after.contains(p) implies candidates.contains(p) by {
            let k = choose|k: int| 0 <= k < after.len() && after[k] == p;
            if k < before.len() {
                assert(before[k] == p);
                assert(before.contains(p));
                let i = choose|i: int| 0 <= i < head.len() && head[i] == p;
                assert(candidates[i] == p);
            } else {
                assert(candidates[candidates.len() - 1] == p);
            }
        }
    }
}

/// Where no configured profile exists, the browsers that were found are used: each of them, under
/// its own name, with the file that was found, and the later two as those of Firefox.
#[verifier::rlimit(40)]
pub proof fn law_found_browsers_stand_in(
    settings: SettingsView,
    exists_at: Seq<bool>,
    found: Seq<Option<String>>,
)
    requires
        forall|i: int| 0 <= i < exists_at.len() ==> !#[trigger] exists_at[i],
        found.len() == 5,
    ensures
        ({
            let used = profiles_in_use(settings, exists_at, found);
            &&& found[0] matches Some(f) ==> has_profile(
                used,
                "Brave"@,
                f@,
                ProfileBackend::ChromiumJson,
            )
            &&& found[1] matches Some(f) ==> has_profile(
                used,
                "Chrome"@,
                f@,
                ProfileBackend::ChromiumJson,
            )
            &&& found[2] matches Some(f) ==> has_profile(
                used,
                "Edge"@,
                f@,
                ProfileBackend::ChromiumJson,
            )
            &&& found[3] matches Some(f) ==> has_profile(
                used,
                "Firefox"@,
                f@,
                ProfileBackend::FirefoxSqlite,
            )
            &&& found[4] matches Some(f) ==> has_profile(
                used,
                "Firefox-Compat"@,
                f@,
                ProfileBackend::FirefoxSqlite,
            )
            &&& (forall|i: int| 0 <= i < 5 ==> (#[trigger] found[i]) is None) ==> used.len() == 0
        }),
{
    lemma_none_exist(settings.candidates, exists_at);
    reveal_with_fuel(detected, 6);
    let used = detected(found, 5);
    let a = detected(found, 1);
    let b = detected(found, 2);
    let c = detected(found, 3);
    let d = detected(found, 4);
    if found[0] is Some {
        assert(used[0] == a[0]);
    }
    if found[1] is Some {
        assert(used[a.len() as int] == b[a.len() as int]);
    }
    if found[2] is Some {
        assert(used[b.len() as int] == c[b.len() as int]);
    }
    if found[3] is Some {
        assert(used[c.len() as int] == d[c.len() as int]);
    }
    if found[4] is Some {
        assert(used[d.len() as int] == used.last());
    }
}

/// A profile of a name, a file and a form is among profiles.
pub open spec fn has_profile(
    profiles: Seq<ProfileView>,
    name: Seq<char>,
    file: Seq<char>,
    backend: ProfileBackend,
) -> bool {
    exists|i: int|
        0 <= i < profiles.len() && #[trigger] profiles[i] == (ProfileView {
            name,
            bookmark_path: file,
            backend,
        })
}

/// Where no file exists, no candidate stays.
proof fn lemma_none_exist(candidates: Seq<ProfileView>, exists_at: Seq<bool>)
    requires
        forall|i: int| 0 <= i < exists_at.len() ==> !#[trigger] exists_at[i],
    ensures
        existing(candidates, exists_at).len() == 0,
    decreases candidates.len(),
{
    if candidates.len() > 0 {
        lemma_none_exist(candidates.drop_last(), exists_at);
    }
}

/// A line of a `profiles.ini` that names a default directory among the profiles decides, whatever
/// stands before it; lines that name neither a default nor a listed directory there change
/// nothing; and a listed directory counts only where no line named a default one, and then the
/// first one.
pub proof fn law_default_directory_goes_first(
    lines: Seq<Seq<char>>,
    line: Seq<char>,
    dir: Seq<char>,
)
    requires
        text::find(dir, "Profiles/"@) is Some || text::find(dir, "Profiles\\"@) is Some,
    ensures
        text::trimmed(line) == "Default="@ + dir ==> firefox_dir(lines.push(line)) == Some(dir),
        text::trimmed(line) == "Path="@ + dir && firefox_dir(lines) is Some ==> firefox_dir(
            lines.push(line),
        ) == firefox_dir(lines),
        text::trimmed(line) == "Path="@ + dir && firefox_dir(lines) is None ==> firefox_dir(
            lines.push(line),
        ) == Some(dir),
        !text::begins_with(text::trimmed(line), "Default="@) && !text::begins_with(
            text::trimmed(line),
            "Path="@,
        ) ==> firefox_dir(lines.push(line)) == firefox_dir(lines),
        firefox_dir(Seq::empty()) is None,
{
    reveal_strlit("Default=");
    reveal_strlit("Path=");
    let all = lines.push(line);
    assert(all.drop_last() =~= lines);
    let t = text::trimmed(line);
    if t == "Default="@ + dir {
        assert(t.take(8) =~= "Default="@);
        assert(t.skip(8) =~= dir);
    }
    if t == "Path="@ + dir {
        assert(t.take(5) =~= "Path="@);
        assert(t.skip(5) =~= dir);
        if text::begins_with(t, "Default="@) {
            assert(t.take(8)[0] == 'D');
            assert(t[0] == 'P');
        }
    }
}

/// The profile is the first one of a name, up to the case of ASCII letters.
pub open spec fn is_first_of_name(config: Config, p: int, name: Seq<char>) -> bool {
    &&& 0 <= p < config.profiles@.len()
    &&& text::same_ignoring_case(config.profiles@[p].name@, name)
    &&& forall|k: int|
        0 <= k < p ==> !text::same_ignoring_case((#[trigger] config.profiles@[k]).name@, name)
}

/// A profile is found by its name, in any case of its letters, and the first one of the name is
/// found.
pub proof fn law_profile_is_found_by_its_name(config: Config, name: Seq<char>)
    ensures
        profile_index(config, name) matches Some(p) ==> 0 <= p < config.profiles@.len()
            && text::same_ignoring_case(config.profiles@[p].name@, name) && forall|k: int|
            0 <= k < p ==> !text::same_ignoring_case((#[trigger] config.profiles@[k]).name@, name),
        profile_index(config, name) is None ==> forall|k: int|
            0 <= k < config.profiles@.len() ==> !text::same_ignoring_case(
                (#[trigger] config.profiles@[k]).name@,
                name,
            ),
{
    let all = profiles_of(config.profiles@);
    text::lemma_first_index(all, has_name(name));
    if let Some(p) = profile_index(config, name) {
        assert(has_name(name)(all[p]));
        assert(all[p].name == config.profiles@[p].name@);
        assert forall|k: int| 0 <= k < p implies !text::same_ignoring_case(
            (#[trigger] config.profiles@[k]).name@,
            name,
        ) by {
            assert(!has_name(name)(all[k]));
        }
    } else {
        assert forall|k: int| 0 <= k < config.profiles@.len() implies !text::same_ignoring_case(
            (#[trigger] config.profiles@[k]).name@,
            name,
        ) by {
            assert(!has_name(name)(all[k]));
        }
    }
}

/// A file is one of Firefox if its name ends in `.sqlite` or has `places.sqlite` in it, and one of
/// Chromium otherwise.
pub proof fn law_file_tells_the_browser(a: Seq<char>, b: Seq<char>)
    ensures
        backend_of(a + ".sqlite"@) == ProfileBackend::FirefoxSqlite,
        backend_of(a + "places.sqlite"@ + b) == ProfileBackend::FirefoxSqlite,
        text::find(a, ".sqlite"@) is None ==> backend_of(a) == ProfileBackend::ChromiumJson,
{
    let s = a + ".sqlite"@;
    assert(s.skip(s.len() - ".sqlite"@.len()) =~= ".sqlite"@);
    let t = a + "places.sqlite"@ + b;
    let q = "places.sqlite"@;
    assert(t.subrange(a.len() as int, a.len() as int + q.len()) =~= q);
    lemma_occurs(t, q, a.len() as int);
    if text::find(a, ".sqlite"@) is None {
        lemma_no_sqlite(a);
    }
}

/// A directory that is not among the profiles does not count, whether a line names it as the
/// default or lists it.
pub proof fn law_other_directories_do_not_count(
    lines: Seq<Seq<char>>,
    line: Seq<char>,
    dir: Seq<char>,
)
    requires
        text::find(dir, "Profiles/"@) is None,
        text::find(dir, "Profiles\\"@) is None,
        text::trimmed(line) == "Default="@ + dir || text::trimmed(line) == "Path="@ + dir,
    ensures
        firefox_dir(lines.push(line)) == firefox_dir(lines),
{
    reveal_strlit("Default=");
    reveal_strlit("Path=");
    assert(lines.push(line).drop_last() =~= lines);
    let t = text::trimmed(line);
    if t == "Default="@ + dir {
        assert(t.take(8) =~= "Default="@);
        assert(t.skip(8) =~= dir);
    } else {
        assert(t.take(5) =~= "Path="@);
        assert(t.skip(5) =~= dir);
        if text::begins_with(t, "Default="@) {
            assert(t.take(8)[0] == 'D');
            assert(t[0] == 'P');
        }
    }
}

/// A line of the log holds the time and the message, and ends the line.
pub proof fn law_log_line_holds_its_message(now: Seq<char>, msg: Seq<char>)
    ensures
        text::begins_with(log_entry(now, msg), "["@ + now + "]"@),
        text::finishes_with(log_entry(now, msg), " "@ + msg + "\n"@),
        log_entry(now, msg).len() == now.len() + msg.len() + 4,
{
    reveal_strlit("[");
    reveal_strlit("]");
    reveal_strlit("] ");
    reveal_strlit(" ");
    reveal_strlit("\n");
    let e = log_entry(now, msg);
    let head = "["@ + now + "]"@;
    let tail = " "@ + msg + "\n"@;
    assert(e.take(head.len() as int) =~= head);
    assert(e.skip(e.len() - tail.len()) =~= tail);
}

} // verus!
