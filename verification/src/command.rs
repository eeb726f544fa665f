//! The commands that change bookmarks: what each one asks for, and the order of its work.
//!
//! A command is first turned into a [`Task`] or refused. A task is then worked off step by step;
//! files are read and written between the steps.
use vstd::prelude::*;
use crate::config;
use crate::config::{profile_position, Config, ProfileBackend};
use crate::fault::{CommandError, Fault, Reason};
use crate::path;
use crate::path::{checked_segments, join_path};
use crate::text;
use crate::text::{copy_part, trim};
use crate::tree;
use crate::tree::is_history_name;

verus! {

/// A change to bookmarks. Profiles are given by their position in the configuration, and paths
/// by their segments behind the browser.
#[derive(Debug)]
pub enum Task {
    /// The items of a folder are deleted, or the folder itself where no item is named.
    Delete { profile: usize, folder: Vec<String>, items: Vec<String> },
    /// A folder is deleted.
    RemoveFolder { profile: usize, path: Vec<String> },
    /// A folder is made; `written` is its path as it was written.
    MakeFolder { profile: usize, parents: Vec<String>, name: String, written: String },
    /// A node moves; `to_table` says that the target keeps its bookmarks in a table.
    Move { source: usize, target: usize, from: Vec<String>, to: Vec<String>, to_table: bool },
    /// A node is copied; `written` is its path as it was written, and `to_table` says that the
    /// target keeps its bookmarks in a table.
    Copy {
        source: usize,
        target: usize,
        from: Vec<String>,
        to: Vec<String>,
        written: String,
        to_table: bool,
    },
    /// A node gets a new name.
    Rename { profile: usize, path: Vec<String>, name: String },
}

/// The model of a task.
pub enum TaskView {
    Delete { profile: int, folder: Seq<Seq<char>>, items: Seq<Seq<char>> },
    RemoveFolder { profile: int, path: Seq<Seq<char>> },
    MakeFolder { profile: int, parents: Seq<Seq<char>>, name: Seq<char>, written: Seq<char> },
    Move {
        source: int,
        target: int,
        from: Seq<Seq<char>>,
        to: Seq<Seq<char>>,
        to_table: bool,
    },
    Copy {
        source: int,
        target: int,
        from: Seq<Seq<char>>,
        to: Seq<Seq<char>>,
        written: Seq<char>,
        to_table: bool,
    },
    Rename { profile: int, path: Seq<Seq<char>>, name: Seq<char> },
}

impl View for Task {
    type V = TaskView;

    open spec fn view(&self) -> TaskView {
        match *self {
            Task::Delete { profile, folder, items } => TaskView::Delete {
                profile: profile as int,
                folder: text::texts(folder@),
                items: text::texts(items@),
            },
            Task::RemoveFolder { profile, path } => TaskView::RemoveFolder {
                profile: profile as int,
                path: text::texts(path@),
            },
            Task::MakeFolder { profile, parents, name, written } => TaskView::MakeFolder {
                profile: profile as int,
                parents: text::texts(parents@),
                name: name@,
                written: written@,
            },
            Task::Move { source, target, from, to, to_table } => TaskView::Move {
                source: source as int,
                target: target as int,
                from: text::texts(from@),
                to: text::texts(to@),
                to_table,
            },
            Task::Copy { source, target, from, to, written, to_table } => TaskView::Copy {
                source: source as int,
                target: target as int,
                from: text::texts(from@),
                to: text::texts(to@),
                written: written@,
                to_table,
            },
            Task::Rename { profile, path, name } => TaskView::Rename {
                profile: profile as int,
                path: text::texts(path@),
                name: name@,
            },
        }
    }
}

/// A result is the task or the refusal that a plan says.
pub open spec fn agrees(r: Result<Task, CommandError>, plan: Result<TaskView, Fault>) -> bool {
    match r {
        Ok(task) => plan == Ok::<TaskView, Fault>(task@),
        Err(e) => plan == Err::<TaskView, Fault>(e@),
    }
}

/// A refusal.
pub open spec fn refused(reason: Reason, detail: Seq<char>) -> Result<TaskView, Fault> {
    Err(Fault { reason, detail })
}

/// The model of segments that may be missing.
pub open spec fn segments_view(segments: Option<Vec<String>>) -> Option<Seq<Seq<char>>> {
    match segments {
        Some(s) => Some(text::texts(s@)),
        None => None,
    }
}

/// The path leads into the history of a browser.
pub open spec fn in_history(segments: Seq<Seq<char>>) -> bool {
    segments.len() > 1 && tree::names_history(segments[1])
}

/// Tells whether a path leads into the history of a browser.
fn leads_into_history(segments: &Vec<String>) -> (r: bool)
    ensures
        r == in_history(text::texts(segments@)),
{
    segments.len() > 1 && is_history_name(segments[1].as_str())
}

/// The segments behind the browser.
fn behind_browser(segments: &Vec<String>) -> (r: Vec<String>)
    requires
        segments@.len() > 0,
    ensures
        text::texts(r@) == text::texts(segments@).drop_first(),
{
    let r: Vec<String> = copy_part(segments.as_slice(), 1, segments.len());
    assert(text::texts(r@) =~= text::texts(segments@).drop_first());
    r
}

// ---------------------------------------------------------------------------
// Deleting
// ---------------------------------------------------------------------------

/// What `delete` asks for.
pub open spec fn planned_delete(
    config: Config,
    parent_path: Seq<char>,
    segments: Option<Seq<Seq<char>>>,
    items: Seq<Seq<char>>,
) -> Result<TaskView, Fault> {
    match segments {
        None => refused(Reason::UnreadablePath, parent_path),
        Some(s) => if s.len() == 0 {
            refused(Reason::DeleteFromRoot, parent_path)
        } else {
            match config::profile_index(config, s[0]) {
                None => refused(Reason::ProfileNotFound, s[0]),
                Some(p) => Ok(TaskView::Delete { profile: p, folder: s.drop_first(), items }),
            }
        },
    }
}

/// What `delete` asks for, given the segments of the path.
pub fn plan_delete(
    config: &Config,
    parent_path: &str,
    segments: Option<Vec<String>>,
    raw_items: &[String],
) -> (r: Result<Task, CommandError>)
    ensures
        agrees(
            r,
            planned_delete(
                *config,
                parent_path@,
                segments_view(segments),
                text::texts(raw_items@),
            ),
        ),
{
    let s: Vec<String> = match segments {
        Some(s) => s,
        None => return Err(CommandError::new(Reason::UnreadablePath, parent_path)),
    };
    if s.len() == 0 {
        return Err(CommandError::new(Reason::DeleteFromRoot, parent_path));
    }
    match profile_position(config, s[0].as_str()) {
        None => Err(CommandError::new(Reason::ProfileNotFound, s[0].as_str())),
        Some(profile) => {
            let items: Vec<String> = copy_part(raw_items, 0, raw_items.len());
            assert(text::texts(items@) =~= text::texts(raw_items@));
            Ok(Task::Delete { profile, folder: behind_browser(&s), items })
        },
    }
}

/// What `delete` asks for.
pub fn cmd_delete(config: &Config, parent_path: &str, raw_items: &[String]) -> (r: Result<
    Task,
    CommandError,
>)
    ensures
        agrees(
            r,
            planned_delete(
                *config,
                parent_path@,
                path::segments_of(parent_path@),
                text::texts(raw_items@),
            ),
        ),
{
    plan_delete(config, parent_path, checked_segments(parent_path), raw_items)
}

/// The path of the folder that `deldir` names: the item, if it is not blank, is appended.
pub open spec fn folder_path(path: Seq<char>, folder_name: Option<Seq<char>>) -> Seq<char> {
    match folder_name {
        Some(f) => if text::trimmed(f).len() > 0 {
            path::joined(path, text::trimmed(f))
        } else {
            path
        },
        None => path,
    }
}

/// The path of the folder that `deldir` names.
pub fn full_folder_path(virtual_path: &str, folder_name: Option<&str>) -> (r: String)
    ensures
        r@ == folder_path(
            virtual_path@,
            text::maybe(folder_name),
        ),
{
    if let Some(f) = folder_name {
        let t: &str = trim(f);
        if !t.is_empty() {
            return join_path(virtual_path, t);
        }
    }
    virtual_path.to_owned()
}

/// What `deldir` asks for, given the full path.
pub open spec fn planned_deldir(
    config: Config,
    full_path: Seq<char>,
    segments: Option<Seq<Seq<char>>>,
) -> Result<TaskView, Fault> {
    match segments {
        None => refused(Reason::UnreadablePath, full_path),
        Some(s) => if s.len() <= 2 {
            refused(Reason::DeleteBrowserRoot, full_path)
        } else if in_history(s) {
            refused(Reason::DeleteHistory, full_path)
        } else {
            match config::profile_index(config, s[0]) {
                None => refused(Reason::ProfileNotFound, s[0]),
                Some(p) => Ok(TaskView::RemoveFolder { profile: p, path: s.drop_first() }),
            }
        },
    }
}

/// What `deldir` asks for, given the full path and its segments.
pub fn plan_deldir(config: &Config, full_path: &str, segments: Option<Vec<String>>) -> (r: Result<
    Task,
    CommandError,
>)
    ensures
        agrees(r, planned_deldir(*config, full_path@, segments_view(segments))),
{
    let s: Vec<String> = match segments {
        Some(s) => s,
        None => return Err(CommandError::new(Reason::UnreadablePath, full_path)),
    };
    if s.len() <= 2 {
        return Err(CommandError::new(Reason::DeleteBrowserRoot, full_path));
    }
    if leads_into_history(&s) {
        return Err(CommandError::new(Reason::DeleteHistory, full_path));
    }
    match profile_position(config, s[0].as_str()) {
        None => Err(CommandError::new(Reason::ProfileNotFound, s[0].as_str())),
        Some(profile) => Ok(Task::RemoveFolder { profile, path: behind_browser(&s) }),
    }
}

/// What `deldir` asks for.
pub fn cmd_deldir(config: &Config, virtual_path: &str, folder_name: Option<&str>) -> (r: Result<
    Task,
    CommandError,
>)
    ensures
        ({
            let full = folder_path(
                virtual_path@,
                text::maybe(folder_name),
            );
            agrees(r, planned_deldir(*config, full, path::segments_of(full)))
        }),
{
    let full: String = full_folder_path(virtual_path, folder_name);
    plan_deldir(config, full.as_str(), checked_segments(full.as_str()))
}

// ---------------------------------------------------------------------------
// Making a folder
// ---------------------------------------------------------------------------

/// The path of the folder that `makedir` names: the item, if it is not empty, is appended.
pub open spec fn new_folder_path(path: Seq<char>, folder_name: Option<Seq<char>>) -> Seq<char> {
    match folder_name {
        Some(f) => if f.len() > 0 {
            path::joined(path, f)
        } else {
            path
        },
        None => path,
    }
}

/// The path of the folder that `makedir` names.
pub fn full_new_folder_path(parent_path: &str, folder_name: Option<&str>) -> (r: String)
    ensures
        r@ == new_folder_path(
            parent_path@,
            text::maybe(folder_name),
        ),
{
    if let Some(f) = folder_name {
        if !f.is_empty() {
            return join_path(parent_path, f);
        }
    }
    parent_path.to_owned()
}

/// What `makedir` asks for, given the full path.
pub open spec fn planned_makedir(
    config: Config,
    full_path: Seq<char>,
    segments: Option<Seq<Seq<char>>>,
) -> Result<TaskView, Fault> {
    match segments {
        None => refused(Reason::UnreadablePath, full_path),
        Some(s) => if s.len() < 2 {
            refused(Reason::MakeAtRoot, full_path)
        } else {
            match config::profile_index(config, s[0]) {
                None => refused(Reason::ProfileNotFound, s[0]),
                Some(p) => Ok(
                    TaskView::MakeFolder {
                        profile: p,
                        parents: s.subrange(1, s.len() - 1),
                        name: s.last(),
                        written: full_path,
                    },
                ),
            }
        },
    }
}

/// What `makedir` asks for, given the full path and its segments.
pub fn plan_makedir(config: &Config, full_path: &str, segments: Option<Vec<String>>) -> (r: Result<
    Task,
    CommandError,
>)
    ensures
        agrees(r, planned_makedir(*config, full_path@, segments_view(segments))),
{
    let s: Vec<String> = match segments {
        Some(s) => s,
        None => return Err(CommandError::new(Reason::UnreadablePath, full_path)),
    };
    if s.len() < 2 {
        return Err(CommandError::new(Reason::MakeAtRoot, full_path));
    }
    match profile_position(config, s[0].as_str()) {
        None => Err(CommandError::new(Reason::ProfileNotFound, s[0].as_str())),
        Some(profile) => Ok(
            Task::MakeFolder {
                profile,
                parents: copy_part(s.as_slice(), 1, s.len() - 1),
                name: s[s.len() - 1].clone(),
                written: full_path.to_owned(),
            },
        ),
    }
}

/// What `makedir` asks for.
pub fn cmd_makedir(config: &Config, parent_path: &str, folder_name: Option<&str>) -> (r: Result<
    Task,
    CommandError,
>)
    ensures
        ({
            let full = new_folder_path(
                parent_path@,
                text::maybe(folder_name),
            );
            agrees(r, planned_makedir(*config, full, path::segments_of(full)))
        }),
{
    let full: String = full_new_folder_path(parent_path, folder_name);
    plan_makedir(config, full.as_str(), checked_segments(full.as_str()))
}

// ---------------------------------------------------------------------------
// Moving, copying and renaming
// ---------------------------------------------------------------------------

/// A profile keeps its bookmarks in a table, as Firefox does.
pub open spec fn keeps_table(config: Config, profile: int) -> bool {
    config.profiles@[profile].backend == ProfileBackend::FirefoxSqlite
}

/// Tells whether a profile keeps its bookmarks in a table.
fn has_table(config: &Config, profile: usize) -> (r: bool)
    requires
        profile < config.profiles@.len(),
    ensures
        r == keeps_table(*config, profile as int),
{
    config.profiles[profile].backend == ProfileBackend::FirefoxSqlite
}

/// What `move` asks for.
pub open spec fn planned_move(
    config: Config,
    src_path: Seq<char>,
    src: Option<Seq<Seq<char>>>,
    dest_path: Seq<char>,
    dest: Option<Seq<Seq<char>>>,
) -> Result<TaskView, Fault> {
    match (src, dest) {
        (None, _) => refused(Reason::UnreadablePath, src_path),
        (_, None) => refused(Reason::UnreadablePath, dest_path),
        (Some(s), Some(d)) => if s.len() <= 2 {
            refused(Reason::MoveRoot, src_path)
        } else if d.len() == 0 {
            refused(Reason::DestinationRoot, dest_path)
        } else if in_history(s) {
            refused(Reason::MoveHistory, src_path)
        } else if in_history(d) {
            refused(Reason::MoveIntoHistory, dest_path)
        } else {
            match (config::profile_index(config, s[0]), config::profile_index(config, d[0])) {
                (None, _) => refused(Reason::SourceProfileNotFound, s[0]),
                (_, None) => refused(Reason::DestProfileNotFound, d[0]),
                (Some(p), Some(q)) => Ok(
                    TaskView::Move {
                        source: p,
                        target: q,
                        from: s.drop_first(),
                        to: d.drop_first(),
                        to_table: keeps_table(config, q),
                    },
                ),
            }
        },
    }
}

/// What `move` asks for, given the segments of the paths.
pub fn plan_move(
    config: &Config,
    src_path: &str,
    src: Option<Vec<String>>,
    dest_path: &str,
    dest: Option<Vec<String>>,
) -> (r: Result<Task, CommandError>)
    ensures
        agrees(
            r,
            planned_move(*config, src_path@, segments_view(src), dest_path@, segments_view(dest)),
        ),
{
    let s: Vec<String> = match src {
        Some(s) => s,
        None => return Err(CommandError::new(Reason::UnreadablePath, src_path)),
    };
    let d: Vec<String> = match dest {
        Some(d) => d,
        None => return Err(CommandError::new(Reason::UnreadablePath, dest_path)),
    };
    if s.len() <= 2 {
        return Err(CommandError::new(Reason::MoveRoot, src_path));
    }
    if d.len() == 0 {
        return Err(CommandError::new(Reason::DestinationRoot, dest_path));
    }
    if leads_into_history(&s) {
        return Err(CommandError::new(Reason::MoveHistory, src_path));
    }
    if leads_into_history(&d) {
        return Err(CommandError::new(Reason::MoveIntoHistory, dest_path));
    }
    let source: usize = match profile_position(config, s[0].as_str()) {
        Some(p) => p,
        None => return Err(CommandError::new(Reason::SourceProfileNotFound, s[0].as_str())),
    };
    let target: usize = match profile_position(config, d[0].as_str()) {
        Some(q) => q,
        None => return Err(CommandError::new(Reason::DestProfileNotFound, d[0].as_str())),
    };
    Ok(
        Task::Move {
            source,
            target,
            from: behind_browser(&s),
            to: behind_browser(&d),
            to_table: has_table(config, target),
        },
    )
}

/// What `move` asks for.
pub fn cmd_move(config: &Config, src_path: &str, dest_path: &str) -> (r: Result<Task, CommandError>)
    ensures
        agrees(
            r,
            planned_move(
                *config,
                src_path@,
                path::segments_of(src_path@),
                dest_path@,
                path::segments_of(dest_path@),
            ),
        ),
{
    plan_move(config, src_path, checked_segments(src_path), dest_path, checked_segments(dest_path))
}

/// What `copy` asks for.
pub open spec fn planned_copy(
    config: Config,
    src_path: Seq<char>,
    src: Option<Seq<Seq<char>>>,
    dest_path: Seq<char>,
    dest: Option<Seq<Seq<char>>>,
) -> Result<TaskView, Fault> {
    match (src, dest) {
        (None, _) => refused(Reason::UnreadablePath, src_path),
        (_, None) => refused(Reason::UnreadablePath, dest_path),
        (Some(s), Some(d)) => if s.len() <= 2 {
            refused(Reason::CopyRoot, src_path)
        } else if d.len() == 0 {
            refused(Reason::DestinationRoot, dest_path)
        } else if in_history(d) {
            refused(Reason::CopyIntoHistory, dest_path)
        } else {
            match (config::profile_index(config, s[0]), config::profile_index(config, d[0])) {
                (None, _) => refused(Reason::SourceProfileNotFound, s[0]),
                (_, None) => refused(Reason::DestProfileNotFound, d[0]),
                (Some(p), Some(q)) => Ok(
                    TaskView::Copy {
                        source: p,
                        target: q,
                        from: s.drop_first(),
                        to: d.drop_first(),
                        written: src_path,
                        to_table: keeps_table(config, q),
                    },
                ),
            }
        },
    }
}

/// What `copy` asks for, given the segments of the paths.
pub fn plan_copy(
    config: &Config,
    src_path: &str,
    src: Option<Vec<String>>,
    dest_path: &str,
    dest: Option<Vec<String>>,
) -> (r: Result<Task, CommandError>)
    ensures
        agrees(
            r,
            planned_copy(*config, src_path@, segments_view(src), dest_path@, segments_view(dest)),
        ),
{
    let s: Vec<String> = match src {
        Some(s) => s,
        None => return Err(CommandError::new(Reason::UnreadablePath, src_path)),
    };
    let d: Vec<String> = match dest {
        Some(d) => d,
        None => return Err(CommandError::new(Reason::UnreadablePath, dest_path)),
    };
    if s.len() <= 2 {
        return Err(CommandError::new(Reason::CopyRoot, src_path));
    }
    if d.len() == 0 {
        return Err(CommandError::new(Reason::DestinationRoot, dest_path));
    }
    if leads_into_history(&d) {
        return Err(CommandError::new(Reason::CopyIntoHistory, dest_path));
    }
    let source: usize = match profile_position(config, s[0].as_str()) {
        Some(p) => p,
        None => return Err(CommandError::new(Reason::SourceProfileNotFound, s[0].as_str())),
    };
    let target: usize = match profile_position(config, d[0].as_str()) {
        Some(q) => q,
        None => return Err(CommandError::new(Reason::DestProfileNotFound, d[0].as_str())),
    };
    Ok(
        Task::Copy {
            source,
            target,
            from: behind_browser(&s),
            to: behind_browser(&d),
            written: src_path.to_owned(),
            to_table: has_table(config, target),
        },
    )
}

/// What `copy` asks for.
pub fn cmd_copy(config: &Config, src_path: &str, dest_path: &str) -> (r: Result<Task, CommandError>)
    ensures
        agrees(
            r,
            planned_copy(
                *config,
                src_path@,
                path::segments_of(src_path@),
                dest_path@,
                path::segments_of(dest_path@),
            ),
        ),
{
    plan_copy(config, src_path, checked_segments(src_path), dest_path, checked_segments(dest_path))
}

/// What `rename` asks for. The new name is the last segment of the destination.
pub open spec fn planned_rename(
    config: Config,
    src_path: Seq<char>,
    src: Option<Seq<Seq<char>>>,
    dest_path: Seq<char>,
    dest: Option<Seq<Seq<char>>>,
) -> Result<TaskView, Fault> {
    match (src, dest) {
        (None, _) => refused(Reason::UnreadablePath, src_path),
        (_, None) => refused(Reason::UnreadablePath, dest_path),
        (Some(s), Some(d)) => if s.len() <= 2 {
            refused(Reason::RenameRoot, src_path)
        } else if d.len() == 0 {
            refused(Reason::RenameToNothing, dest_path)
        } else if in_history(s) {
            refused(Reason::RenameHistory, src_path)
        } else {
            match config::profile_index(config, s[0]) {
                None => refused(Reason::ProfileNotFound, s[0]),
                Some(p) => Ok(
                    TaskView::Rename { profile: p, path: s.drop_first(), name: d.last() },
                ),
            }
        },
    }
}

/// What `rename` asks for, given the segments of the paths.
pub fn plan_rename(
    config: &Config,
    src_path: &str,
    src: Option<Vec<String>>,
    dest_path: &str,
    dest: Option<Vec<String>>,
) -> (r: Result<Task, CommandError>)
    ensures
        agrees(
            r,
            planned_rename(*config, src_path@, segments_view(src), dest_path@, segments_view(dest)),
        ),
{
    let s: Vec<String> = match src {
        Some(s) => s,
        None => return Err(CommandError::new(Reason::UnreadablePath, src_path)),
    };
    let d: Vec<String> = match dest {
        Some(d) => d,
        None => return Err(CommandError::new(Reason::UnreadablePath, dest_path)),
    };
    if s.len() <= 2 {
        return Err(CommandError::new(Reason::RenameRoot, src_path));
    }
    if d.len() == 0 {
        return Err(CommandError::new(Reason::RenameToNothing, dest_path));
    }
    if leads_into_history(&s) {
        return Err(CommandError::new(Reason::RenameHistory, src_path));
    }
    match profile_position(config, s[0].as_str()) {
        None => Err(CommandError::new(Reason::ProfileNotFound, s[0].as_str())),
        Some(profile) => Ok(
            Task::Rename { profile, path: behind_browser(&s), name: d[d.len() - 1].clone() },
        ),
    }
}

/// What `rename` asks for.
pub fn cmd_rename(config: &Config, src_path: &str, dest_path: &str) -> (r: Result<
    Task,
    CommandError,
>)
    ensures
        agrees(
            r,
            planned_rename(
                *config,
                src_path@,
                path::segments_of(src_path@),
                dest_path@,
                path::segments_of(dest_path@),
            ),
        ),
{
    plan_rename(
        config,
        src_path,
        checked_segments(src_path),
        dest_path,
        checked_segments(dest_path),
    )
}

// ---------------------------------------------------------------------------
// Laws
// ---------------------------------------------------------------------------

/// A browser is found under a name, and it is the first one of that name.
proof fn lemma_browser(config: Config, name: Seq<char>)
    ensures
        config::profile_index(config, name) matches Some(p) ==> config::is_first_of_name(config, p, name),
        config::profile_index(config, name) is Some <==> exists|p: int| #[trigger]
            config::is_first_of_name(config, p, name),
{
    config::law_profile_is_found_by_its_name(config, name);
    if let Some(p) = config::profile_index(config, name) {
        assert(config::is_first_of_name(config, p, name));
    }
    if exists|p: int| #[trigger] config::is_first_of_name(config, p, name) {
        let p = choose|p: int| #[trigger] config::is_first_of_name(config, p, name);
        assert(text::same_ignoring_case(config.profiles@[p].name@, name));
    }
}

/// A deletion means the browser that the path begins with, the folder behind it, and the items as
/// they are named. It is refused only where there is no such browser, or the path names none.
pub proof fn law_delete_means_what_is_named(
    config: Config,
    written: Seq<char>,
    browser: Seq<char>,
    folder: Seq<Seq<char>>,
    items: Seq<Seq<char>>,
)
    ensures
        ({
            let plan = planned_delete(config, written, Some(seq![browser] + folder), items);
            &&& plan is Ok <==> exists|p: int| #[trigger] config::is_first_of_name(config, p, browser)
            &&& plan matches Ok(task) ==> (task matches TaskView::Delete {
                profile,
                folder: f,
                items: i,
            } && config::is_first_of_name(config, profile, browser) && f == folder && i == items)
        }),
        planned_delete(config, written, Some(Seq::empty()), items) is Err,
{
    let s = seq![browser] + folder;
    assert(s[0] == browser);
    assert(s.drop_first() =~= folder);
    lemma_browser(config, browser);
}

/// Removing a folder means the whole path behind the browser; a browser itself, one of its roots
/// and the history are refused.
pub proof fn law_deldir_means_what_is_named(
    config: Config,
    written: Seq<char>,
    browser: Seq<char>,
    path: Seq<Seq<char>>,
)
    ensures
        ({
            let plan = planned_deldir(config, written, Some(seq![browser] + path));
            &&& plan is Ok <==> path.len() > 1 && path[0] != "history"@ && path[0] != "履歴"@
                && exists|p: int| #[trigger] config::is_first_of_name(config, p, browser)
            &&& plan matches Ok(task) ==> (task matches TaskView::RemoveFolder { profile, path: f }
                && config::is_first_of_name(config, profile, browser) && f == path)
        }),
{
    let s = seq![browser] + path;
    assert(s[0] == browser);
    assert(s.drop_first() =~= path);
    if path.len() > 0 {
        assert(s[1] == path[0]);
    }
    lemma_browser(config, browser);
}

/// Making a folder means its name, the last segment, in the folder that the others lead to.
pub proof fn law_makedir_means_what_is_named(
    config: Config,
    written: Seq<char>,
    browser: Seq<char>,
    parents: Seq<Seq<char>>,
    name: Seq<char>,
)
    ensures
        ({
            let plan = planned_makedir(config, written, Some((seq![browser] + parents).push(name)));
            &&& plan is Ok <==> exists|p: int| #[trigger] config::is_first_of_name(config, p, browser)
            &&& plan matches Ok(task) ==> (task matches TaskView::MakeFolder {
                profile,
                parents: f,
                name: n,
                written: w,
            } && config::is_first_of_name(config, profile, browser) && f == parents && n == name && w
                == written)
        }),
        planned_makedir(config, written, Some(seq![browser])) is Err,
{
    let s = (seq![browser] + parents).push(name);
    assert(s[0] == browser);
    assert(s.subrange(1, s.len() - 1) =~= parents);
    assert(s.last() == name);
    lemma_browser(config, browser);
}

/// Moving and copying mean the node behind the one browser and the folder behind the other; the
/// kind of the second browser says whether a table is written. A browser itself and its roots are
/// refused, and nothing goes into the history; what is in the history can be copied, not moved.
#[verifier::rlimit(40)]
pub proof fn law_move_and_copy_mean_what_is_named(
    config: Config,
    src: Seq<char>,
    dest: Seq<char>,
    a: Seq<char>,
    from: Seq<Seq<char>>,
    b: Seq<char>,
    to: Seq<Seq<char>>,
)
    ensures
        ({
            let moved = planned_move(
                config,
                src,
                Some(seq![a] + from),
                dest,
                Some(seq![b] + to),
            );
            let copied = planned_copy(
                config,
                src,
                Some(seq![a] + from),
                dest,
                Some(seq![b] + to),
            );
            let found = (exists|p: int| #[trigger] config::is_first_of_name(config, p, a)) && (exists|
                p: int,
            | #[trigger]
                config::is_first_of_name(config, p, b));
            let into_history = to.len() > 0 && (to[0] == "history"@ || to[0] == "履歴"@);
            let from_history = from.len() > 0 && (from[0] == "history"@ || from[0] == "履歴"@);
            &&& moved is Ok <==> from.len() > 1 && !from_history && !into_history && found
            &&& copied is Ok <==> from.len() > 1 && !into_history && found
            &&& moved matches Ok(task) ==> (task matches TaskView::Move {
                source,
                target,
                from: f,
                to: t,
                to_table,
            } && config::is_first_of_name(config, source, a) && config::is_first_of_name(config, target, b) && f
                == from && t == to && to_table == (config.profiles@[target].backend
                == ProfileBackend::FirefoxSqlite))
            &&& copied matches Ok(task) ==> (task matches TaskView::Copy {
                source,
                target,
                from: f,
                to: t,
                written,
                to_table,
            } && config::is_first_of_name(config, source, a) && config::is_first_of_name(config, target, b) && f
                == from && t == to && written == src && to_table == (
            config.profiles@[target].backend == ProfileBackend::FirefoxSqlite))
        }),
        planned_move(config, src, Some(seq![a] + from), dest, Some(Seq::empty())) is Err,
        planned_copy(config, src, Some(seq![a] + from), dest, Some(Seq::empty())) is Err,
{
    let s = seq![a] + from;
    let d = seq![b] + to;
    assert(s[0] == a && d[0] == b);
    assert(s.drop_first() =~= from);
    assert(d.drop_first() =~= to);
    if from.len() > 0 {
        assert(s[1] == from[0]);
    }
    if to.len() > 0 {
        assert(d[1] == to[0]);
    }
    lemma_browser(config, a);
    lemma_browser(config, b);
}

/// Renaming means the node behind the browser, and for its new name the last segment of the
/// destination. A browser itself, its roots and the history are refused.
pub proof fn law_rename_means_what_is_named(
    config: Config,
    src: Seq<char>,
    dest: Seq<char>,
    browser: Seq<char>,
    path: Seq<Seq<char>>,
    to: Seq<Seq<char>>,
    name: Seq<char>,
)
    ensures
        ({
            let plan = planned_rename(
                config,
                src,
                Some(seq![browser] + path),
                dest,
                Some(to.push(name)),
            );
            &&& plan is Ok <==> path.len() > 1 && path[0] != "history"@ && path[0] != "履歴"@
                && exists|p: int| #[trigger] config::is_first_of_name(config, p, browser)
            &&& plan matches Ok(task) ==> (task matches TaskView::Rename {
                profile,
                path: f,
                name: n,
            } && config::is_first_of_name(config, profile, browser) && f == path && n == name)
        }),
        planned_rename(config, src, Some(seq![browser] + path), dest, Some(Seq::empty())) is Err,
{
    let s = seq![browser] + path;
    assert(s[0] == browser);
    assert(s.drop_first() =~= path);
    if path.len() > 0 {
        assert(s[1] == path[0]);
    }
    assert(to.push(name).last() == name);
    lemma_browser(config, browser);
}

/// A folder that is named beside a path is the one of that name below the path.
pub proof fn law_folder_is_named_below_the_path(names: Seq<Seq<char>>, f: Seq<char>)
    requires
        path::are_names(names),
        f.len() > 0,
        text::trimmed(f) == f,
        !f.contains('/'),
        !f.contains('\\'),
    ensures
        folder_path(path::path_of(names), Some(f)) == path::path_of(names.push(f)),
        new_folder_path(path::path_of(names), Some(f)) == path::path_of(names.push(f)),
        folder_path(path::path_of(names), None) == path::path_of(names),
        new_folder_path(path::path_of(names), None) == path::path_of(names),
{
    path::law_item_is_appended(names, f);
}

/// A name that is blank, or empty where a folder is to be made, names nothing beside the path.
pub proof fn law_blank_name_means_the_path(path: Seq<char>, f: Seq<char>)
    ensures
        text::trimmed(f).len() == 0 ==> folder_path(path, Some(f)) == path,
        f.len() == 0 ==> new_folder_path(path, Some(f)) == path,
        folder_path(path, None) == path,
        new_folder_path(path, None) == path,
{
}

} // verus!
