//! Listings of folders in the list format of the file manager, and shortcuts to single links.
use vstd::prelude::*;
use vstd::string::*;
use crate::command;
use crate::config;
use crate::config::{profile_position, Config};
use crate::fault::{CommandError, Fault, Reason};
use crate::node;
use crate::node::{
    node_is_folder, node_is_link, node_name, sanitize_title, BOOKMARK_BAR_JP, BOOKMARK_MENU_JP,
    HISTORY_FOLDER_NAME, OTHER_BOOKMARKS_JP, TRASH_FOLDER_NAME,
};
use crate::number;
use crate::number::decimal_text;
use crate::path;
use crate::path::checked_segments;
use crate::text;
use crate::text::{byte_offset, chars_of, copy_part, text_eq, trim};
use crate::time;
use crate::time::{moment_text, stamp_moment, Moment};
use crate::tree;
use crate::tree::{is_other_name, navigate_node_ref, root_folder_ref};
use crate::value;
use crate::value::{Doc, Json};

verus! {

// ---------------------------------------------------------------------------
// Entries
// ---------------------------------------------------------------------------

/// An entry of a listing: its name, the size where it is a link, and when it changed.
#[derive(Debug)]
pub struct Entry {
    pub name: String,
    pub size: Option<u128>,
    pub moment: Moment,
}

/// The model of an entry.
pub struct EntryView {
    pub name: Seq<char>,
    pub size: Option<nat>,
    pub moment: Moment,
}

impl View for Entry {
    type V = EntryView;

    open spec fn view(&self) -> EntryView {
        EntryView {
            name: self.name@,
            size: match self.size {
                Some(n) => Some(n as nat),
                None => None,
            },
            moment: self.moment,
        }
    }
}

/// The models of a list of entries.
pub open spec fn entries_of(s: Seq<Entry>) -> Seq<EntryView> {
    s.map_values(|e: Entry| e@)
}

/// The entry of a folder.
pub open spec fn folder_entry(name: Seq<char>, moment: Moment) -> EntryView {
    EntryView { name, size: None, moment }
}

/// The first of two members that a node has.
pub open spec fn member_or(n: Json, key: Seq<char>, other: Seq<char>) -> Option<Json> {
    match n.member(key) {
        Some(x) => Some(x),
        None => n.member(other),
    }
}

/// The text of a document that may be missing.
pub open spec fn text_of(j: Option<Json>) -> Option<Seq<char>> {
    match j {
        Some(x) => x.text(),
        None => None,
    }
}

/// When a node changed, or else when it was added.
pub open spec fn changed_or_added(n: Json) -> Moment {
    time::moment_of(text_of(member_or(n, "date_modified"@, "date_added"@)))
}

/// When a node that may be missing changed.
pub open spec fn changed(n: Option<Json>) -> Moment {
    match n {
        Some(x) => time::moment_of(x.text_member("date_modified"@)),
        None => Moment::Now,
    }
}

/// The stamp of a node: when it changed, or else when it was added.
fn change_or_addition(n: &Doc) -> (r: Moment)
    ensures
        r == changed_or_added(n@),
{
    let found: Option<&Doc> = match n.get("date_modified") {
        Some(x) => Some(x),
        None => n.get("date_added"),
    };
    match found {
        Some(x) => stamp_moment(x.as_str()),
        None => stamp_moment(None),
    }
}

/// The stamp of a node that may be missing.
fn change(n: Option<&Doc>) -> (r: Moment)
    ensures
        r == changed(
            match n {
                Some(x) => Some(x@),
                None => None,
            },
        ),
{
    match n {
        Some(x) => stamp_moment(x.get_str("date_modified")),
        None => Moment::Now,
    }
}

// ---------------------------------------------------------------------------
// The browsers
// ---------------------------------------------------------------------------

/// The entries of the first `n` browsers, where `moments` says when their files changed.
pub open spec fn profile_entries(profiles: Seq<config::ProfileView>, moments: Seq<Moment>) -> Seq<
    EntryView,
> {
    Seq::new(
        profiles.len(),
        |i: int|
            folder_entry(
                profiles[i].name,
                if i < moments.len() {
                    moments[i]
                } else {
                    Moment::Now
                },
            ),
    )
}

/// Lists the browsers; `moments` says when their files changed.
pub fn list_profiles(config: &Config, moments: &[Moment]) -> (r: Vec<Entry>)
    ensures
        entries_of(r@) == profile_entries(config::profiles_of(config.profiles@), moments@),
{
    let ghost all = config::profiles_of(config.profiles@);
    let mut out: Vec<Entry> = Vec::new();
    let mut i: usize = 0;
    while i < config.profiles.len()
        invariant
            i <= config.profiles@.len(),
            all == config::profiles_of(config.profiles@),
            out@.len() == i,
            forall|j: int|
                0 <= j < i ==> (#[trigger] out@[j])@ == profile_entries(all, moments@)[j],
        decreases config.profiles.len() - i,
    {
        let moment: Moment = if i < moments.len() {
            moments[i]
        } else {
            Moment::Now
        };
        assert(all[i as int].name == config.profiles@[i as int].name@);
        out.push(Entry { name: config.profiles[i].name.clone(), size: None, moment });
        i += 1;
    }
    assert(entries_of(out@) =~= profile_entries(all, moments@));
    out
}

// ---------------------------------------------------------------------------
// The roots of a browser
// ---------------------------------------------------------------------------

/// The node has the name.
pub open spec fn is_named(name: Seq<char>) -> spec_fn(Json) -> bool {
    |n: Json| n.text_member("name"@) == Some(name)
}

/// The trash of a document, by its name alone.
pub open spec fn trash_by_name(doc: Json) -> Option<Json> {
    match tree::other_children(doc) {
        Some(c) => match text::first_index(c, is_named(TRASH_FOLDER_NAME@)) {
            Some(i) => Some(c[i]),
            None => None,
        },
        None => None,
    }
}

/// When the last page was visited.
pub open spec fn last_visit(history: Json) -> Moment {
    match node::children_of(history) {
        Some(c) => if c.len() > 0 {
            changed_or_added(c[0])
        } else {
            Moment::Now
        },
        None => Moment::Now,
    }
}

/// The entries of a browser: the bar, the other bookmarks, the menu if there is one, the trash,
/// and the history if there is one.
pub open spec fn browser_entries(doc: Json) -> Seq<EntryView> {
    let first = seq![
        folder_entry(BOOKMARK_BAR_JP@, changed(tree::root_folder(doc, "bookmark_bar"@))),
        folder_entry(OTHER_BOOKMARKS_JP@, changed(tree::root_folder(doc, "other"@))),
    ];
    let menu = match tree::root_folder(doc, "menu"@) {
        Some(m) => seq![folder_entry(BOOKMARK_MENU_JP@, changed(Some(m)))],
        None => Seq::empty(),
    };
    let trash = seq![folder_entry(TRASH_FOLDER_NAME@, changed(trash_by_name(doc)))];
    let history = match tree::root_folder(doc, "history"@) {
        Some(h) => seq![folder_entry(HISTORY_FOLDER_NAME@, last_visit(h))],
        None => Seq::empty(),
    };
    first + menu + trash + history
}

/// The trash of a document, by its name alone.
fn find_trash<'a>(val: &'a Doc) -> (r: Option<&'a Doc>)
    ensures
        trash_by_name(val@) == (match r {
            Some(v) => Some(v@),
            None => None,
        }),
{
    if let Some(other) = root_folder_ref(val, "other") {
        if let Some(children) = other.get_array("children") {
            let ghost s = value::items_of(children@);
            let mut i: usize = 0;
            while i < children.len()
                invariant
                    i <= children@.len(),
                    s == value::items_of(children@),
                    tree::other_children(val@) == Some(s),
                    forall|j: int|
                        0 <= j < i ==> !is_named(TRASH_FOLDER_NAME@)(#[trigger] s[j]),
                decreases children.len() - i,
            {
                assert(s[i as int] == children@[i as int]@);
                let named: bool = match children[i].get_str("name") {
                    Some(name) => text_eq(name, TRASH_FOLDER_NAME),
                    None => false,
                };
                if named {
                    proof {
                        text::lemma_first_index_found(s, is_named(TRASH_FOLDER_NAME@), i as int);
                    }
                    return Some(&children[i]);
                }
                i += 1;
            }
            proof {
                text::lemma_first_index_missing(s, is_named(TRASH_FOLDER_NAME@));
            }
        }
    }
    None
}

/// Adds the entry of a folder.
fn push_folder(out: &mut Vec<Entry>, name: &str, moment: Moment)
    ensures
        entries_of(final(out)@) == entries_of(old(out)@).push(folder_entry(name@, moment)),
{
    let ghost before = entries_of(out@);
    out.push(Entry { name: name.to_owned(), size: None, moment });
    assert(entries_of(out@) =~= before.push(folder_entry(name@, moment)));
}

/// Lists the roots of a browser.
pub fn list_browser(val: &Doc) -> (r: Vec<Entry>)
    ensures
        entries_of(r@) == browser_entries(val@),
{
    let mut out: Vec<Entry> = Vec::new();
    push_folder(&mut out, BOOKMARK_BAR_JP, change(root_folder_ref(val, "bookmark_bar")));
    push_folder(&mut out, OTHER_BOOKMARKS_JP, change(root_folder_ref(val, "other")));
    if let Some(menu) = root_folder_ref(val, "menu") {
        push_folder(&mut out, BOOKMARK_MENU_JP, change(Some(menu)));
    }
    push_folder(&mut out, TRASH_FOLDER_NAME, change(find_trash(val)));
    if let Some(history) = root_folder_ref(val, "history") {
        let moment: Moment = match history.get_array("children") {
            Some(children) => if children.len() > 0 {
                assert(value::items_of(children@)[0] == children@[0]@);
                change_or_addition(&children[0])
            } else {
                Moment::Now
            },
            None => Moment::Now,
        };
        push_folder(&mut out, HISTORY_FOLDER_NAME, moment);
    }
    assert(entries_of(out@) =~= browser_entries(val@));
    out
}

// ---------------------------------------------------------------------------
// Folders
// ---------------------------------------------------------------------------

/// The entry of a node, if it is listed: folders and links are, under their file names.
pub open spec fn node_entry(n: Json) -> Option<EntryView> {
    let name = node::sanitized(node::name_of(n));
    if node::is_folder(n) {
        Some(folder_entry(name, changed_or_added(n)))
    } else if node::is_link(n) {
        Some(
            EntryView {
                name: name + ".url"@,
                size: Some(text::byte_len(node::text_or(n, "url"@, ""@))),
                moment: changed_or_added(n),
            },
        )
    } else {
        None
    }
}

/// The entries of nodes, in their order; what is named like the trash may be left out.
pub open spec fn node_entries(nodes: Seq<Json>, hide_trash: bool) -> Seq<EntryView>
    decreases nodes.len(),
{
    if nodes.len() == 0 {
        Seq::empty()
    } else {
        let rest = node_entries(nodes.drop_last(), hide_trash);
        let n = nodes.last();
        if hide_trash && node::name_of(n) == TRASH_FOLDER_NAME@ {
            rest
        } else {
            match node_entry(n) {
                Some(e) => rest.push(e),
                None => rest,
            }
        }
    }
}

/// The entry of a node.
fn entry_of(n: &Doc) -> (r: Option<Entry>)
    ensures
        node_entry(n@) == (match r {
            Some(e) => Some(e@),
            None => None,
        }),
{
    if node_is_folder(n) {
        Some(
            Entry {
                name: sanitize_title(node_name(n)),
                size: None,
                moment: change_or_addition(n),
            },
        )
    } else if node_is_link(n) {
        let mut name: String = sanitize_title(node_name(n));
        name.append(".url");
        let url: Vec<char> = chars_of(
            match n.get_str("url") {
                Some(u) => u,
                None => "",
            },
        );
        assert(url@.take(url@.len() as int) =~= url@);
        Some(
            Entry {
                name,
                size: Some(byte_offset(&url, url.len())),
                moment: change_or_addition(n),
            },
        )
    } else {
        None
    }
}

/// Lists nodes.
fn list_nodes(nodes: &Vec<Doc>, hide_trash: bool) -> (r: Vec<Entry>)
    ensures
        entries_of(r@) == node_entries(value::items_of(nodes@), hide_trash),
{
    let ghost all = value::items_of(nodes@);
    let mut out: Vec<Entry> = Vec::new();
    let mut i: usize = 0;
    assert(entries_of(out@) =~= Seq::empty());
    assert(all.take(0) =~= Seq::empty());
    while i < nodes.len()
        invariant
            i <= nodes@.len(),
            all == value::items_of(nodes@),
            entries_of(out@) == node_entries(all.take(i as int), hide_trash),
        decreases nodes.len() - i,
    {
        proof {
            assert(all.take(i + 1).drop_last() =~= all.take(i as int));
            assert(all.take(i + 1).last() == nodes@[i as int]@);
        }
        if !(hide_trash && text_eq(node_name(&nodes[i]), TRASH_FOLDER_NAME)) {
            if let Some(e) = entry_of(&nodes[i]) {
                let ghost before = entries_of(out@);
                let ghost ev = e@;
                out.push(e);
                assert(entries_of(out@) =~= before.push(ev));
            }
        }
        i += 1;
    }
    assert(all.take(i as int) =~= all);
    out
}

/// The entries of what a path leads to: the roots of the browser, or the children of a folder.
/// The trash is not listed among the other bookmarks.
pub open spec fn listed(doc: Json, path: Seq<Seq<char>>, written: Seq<char>) -> Result<
    Seq<EntryView>,
    Fault,
> {
    if path.len() == 0 {
        Ok(browser_entries(doc))
    } else {
        match tree::navigated(doc, path) {
            None => Err(Fault { reason: Reason::PathNotFound, detail: written }),
            Some(n) => match node::children_of(n) {
                Some(c) => Ok(node_entries(c, path.len() == 1 && tree::names_other(path[0]))),
                None => Ok(Seq::empty()),
            },
        }
    }
}

/// Lists what a path leads to; `written` is the path as it was written.
pub fn list_path(val: &Doc, path: &Vec<String>, written: &str) -> (r: Result<
    Vec<Entry>,
    CommandError,
>)
    ensures
        match r {
            Ok(entries) => listed(val@, text::texts(path@), written@) == Ok::<
                Seq<EntryView>,
                Fault,
            >(entries_of(entries@)),
            Err(e) => listed(val@, text::texts(path@), written@) == Err::<Seq<EntryView>, Fault>(
                e@,
            ),
        },
{
    if path.len() == 0 {
        return Ok(list_browser(val));
    }
    match navigate_node_ref(val, path.as_slice()) {
        None => Err(CommandError::new(Reason::PathNotFound, written)),
        Some(n) => match n.get_array("children") {
            Some(children) => {
                let hide_trash: bool = path.len() == 1 && is_other_name(path[0].as_str());
                Ok(list_nodes(children, hide_trash))
            },
            None => {
                let none: Vec<Entry> = Vec::new();
                assert(entries_of(none@) =~= Seq::empty());
                Ok(none)
            },
        },
    }
}

// ---------------------------------------------------------------------------
// The list format
// ---------------------------------------------------------------------------

/// How a listing begins.
pub const LIST_HEAD: &'static str = ";ListFile\r\n";

/// The line of an entry whose moment is written as `date`.
pub open spec fn entry_line(e: EntryView, date: Seq<char>) -> Seq<char> {
    match e.size {
        None => "\""@ + e.name + "\",A:H10,W:"@ + date + "\r\n"@,
        Some(n) => "\""@ + e.name + "\",A:H20,S:"@ + number::decimal(n) + ",W:"@ + date + "\r\n"@,
    }
}

/// The listing of entries whose moments are written as `dates`.
pub open spec fn list_text(entries: Seq<EntryView>, dates: Seq<Seq<char>>) -> Seq<char>
    decreases entries.len(),
{
    if entries.len() == 0 {
        LIST_HEAD@
    } else {
        list_text(entries.drop_last(), dates.drop_last()) + entry_line(
            entries.last(),
            dates.last(),
        )
    }
}

/// The line of an entry whose moment is written as `date`.
pub fn line_of(e: &Entry, date: &str) -> (r: String)
    ensures
        r@ == entry_line(e@, date@),
{
    let mut out: String = "\"".to_owned();
    out.append(e.name.as_str());
    match e.size {
        None => {
            out.append("\",A:H10,W:");
        },
        Some(n) => {
            out.append("\",A:H20,S:");
            out.append(decimal_text(n).as_str());
            out.append(",W:");
        },
    }
    out.append(date);
    out.append("\r\n");
    out
}

/// The listing of entries, given the dates of their moments.
pub fn listing_with(entries: &[Entry], dates: &[String]) -> (r: String)
    requires
        entries@.len() == dates@.len(),
    ensures
        r@ == list_text(entries_of(entries@), text::texts(dates@)),
{
    let ghost all = entries_of(entries@);
    let ghost days = text::texts(dates@);
    let mut out: String = LIST_HEAD.to_owned();
    let mut i: usize = 0;
    assert(all.take(0) =~= Seq::empty());
    while i < entries.len()
        invariant
            i <= entries@.len(),
            entries@.len() == dates@.len(),
            all == entries_of(entries@),
            days == text::texts(dates@),
            out@ == list_text(all.take(i as int), days.take(i as int)),
        decreases entries.len() - i,
    {
        proof {
            assert(all.take(i + 1).drop_last() =~= all.take(i as int));
            assert(days.take(i + 1).drop_last() =~= days.take(i as int));
            assert(all.take(i + 1).last() == entries@[i as int]@);
            assert(days.take(i + 1).last() == dates@[i as int]@);
        }
        out.append(line_of(&entries[i], dates[i].as_str()).as_str());
        i += 1;
    }
    proof {
        assert(all.take(i as int) =~= all);
        assert(days.take(i as int) =~= days);
    }
    out
}

/// The dates are those of the moments of entries.
pub open spec fn dates_entries(dates: Seq<Seq<char>>, entries: Seq<EntryView>) -> bool {
    &&& dates.len() == entries.len()
    &&& forall|i: int|
        0 <= i < dates.len() ==> time::shows_moment(#[trigger] dates[i], entries[i].moment)
}

/// The listing of entries. How a moment is written depends on the time zone of the machine, and
/// on the clock where an entry has no moment of its own.
pub fn listing(entries: &[Entry]) -> (r: String)
    ensures
        exists|dates: Seq<Seq<char>>|
            dates_entries(dates, entries_of(entries@)) && r@ == #[trigger] list_text(
                entries_of(entries@),
                dates,
            ),
{
    let mut dates: Vec<String> = Vec::new();
    let mut i: usize = 0;
    while i < entries.len()
        invariant
            i <= entries@.len(),
            dates@.len() == i,
            forall|j: int|
                0 <= j < i ==> time::shows_moment((#[trigger] dates@[j])@, entries@[j].moment),
        decreases entries.len() - i,
    {
        dates.push(moment_text(entries[i].moment));
        i += 1;
    }
    let out: String = listing_with(entries, dates.as_slice());
    assert(dates_entries(text::texts(dates@), entries_of(entries@)));
    assert(out@ == list_text(entries_of(entries@), text::texts(dates@)));
    out
}

// ---------------------------------------------------------------------------
// What is asked for
// ---------------------------------------------------------------------------

/// What a path names: the list of browsers, or something in a browser.
#[derive(Debug)]
pub enum Place {
    Browsers,
    Inside { profile: usize, path: Vec<String> },
}

/// The model of a place.
pub enum PlaceView {
    Browsers,
    Inside { profile: int, path: Seq<Seq<char>> },
}

impl View for Place {
    type V = PlaceView;

    open spec fn view(&self) -> PlaceView {
        match *self {
            Place::Browsers => PlaceView::Browsers,
            Place::Inside { profile, path } => PlaceView::Inside {
                profile: profile as int,
                path: text::texts(path@),
            },
        }
    }
}

/// A result is the place or the refusal that a plan says.
pub open spec fn settles(r: Result<Place, CommandError>, plan: Result<PlaceView, Fault>) -> bool {
    match r {
        Ok(place) => plan == Ok::<PlaceView, Fault>(place@),
        Err(e) => plan == Err::<PlaceView, Fault>(e@),
    }
}

/// The place inside the browser that the first segment names.
pub open spec fn place_inside(config: Config, s: Seq<Seq<char>>) -> Result<PlaceView, Fault> {
    match config::profile_index(config, s[0]) {
        None => Err(Fault { reason: Reason::ProfileNotFound, detail: s[0] }),
        Some(p) => Ok(PlaceView::Inside { profile: p, path: s.drop_first() }),
    }
}

/// What `list` is asked for.
pub open spec fn planned_list(
    config: Config,
    virtual_path: Seq<char>,
    segments: Option<Seq<Seq<char>>>,
) -> Result<PlaceView, Fault> {
    match segments {
        None => Err(Fault { reason: Reason::UnreadablePath, detail: virtual_path }),
        Some(s) => if s.len() == 0 {
            Ok(PlaceView::Browsers)
        } else {
            place_inside(config, s)
        },
    }
}

/// What `get` is asked for.
pub open spec fn planned_get(
    config: Config,
    virtual_path: Seq<char>,
    segments: Option<Seq<Seq<char>>>,
) -> Result<PlaceView, Fault> {
    match segments {
        None => Err(Fault { reason: Reason::UnreadablePath, detail: virtual_path }),
        Some(s) => if s.len() < 2 {
            Err(Fault { reason: Reason::GetRoot, detail: virtual_path })
        } else {
            place_inside(config, s)
        },
    }
}

/// The place inside the browser that the first segment names.
fn find_place(config: &Config, s: &Vec<String>) -> (r: Result<Place, CommandError>)
    requires
        s@.len() > 0,
    ensures
        settles(r, place_inside(*config, text::texts(s@))),
{
    match profile_position(config, s[0].as_str()) {
        None => Err(CommandError::new(Reason::ProfileNotFound, s[0].as_str())),
        Some(profile) => {
            let path: Vec<String> = copy_part(s.as_slice(), 1, s.len());
            assert(text::texts(path@) =~= text::texts(s@).drop_first());
            Ok(Place::Inside { profile, path })
        },
    }
}

/// What `list` is asked for, given the segments of the path.
pub fn plan_list(config: &Config, virtual_path: &str, segments: Option<Vec<String>>) -> (r: Result<
    Place,
    CommandError,
>)
    ensures
        settles(
            r,
            planned_list(*config, virtual_path@, command::segments_view(segments)),
        ),
{
    match segments {
        None => Err(CommandError::new(Reason::UnreadablePath, virtual_path)),
        Some(s) => if s.len() == 0 {
            Ok(Place::Browsers)
        } else {
            find_place(config, &s)
        },
    }
}

/// What `list` is asked for.
pub fn cmd_list(config: &Config, virtual_path: &str) -> (r: Result<Place, CommandError>)
    ensures
        settles(r, planned_list(*config, virtual_path@, path::segments_of(virtual_path@))),
{
    plan_list(config, virtual_path, checked_segments(virtual_path))
}

/// What `get` is asked for, given the segments of the path.
pub fn plan_get(config: &Config, virtual_path: &str, segments: Option<Vec<String>>) -> (r: Result<
    Place,
    CommandError,
>)
    ensures
        settles(
            r,
            planned_get(*config, virtual_path@, command::segments_view(segments)),
        ),
{
    match segments {
        None => Err(CommandError::new(Reason::UnreadablePath, virtual_path)),
        Some(s) => if s.len() < 2 {
            Err(CommandError::new(Reason::GetRoot, virtual_path))
        } else {
            find_place(config, &s)
        },
    }
}

/// What `get` is asked for.
pub fn cmd_get(config: &Config, virtual_path: &str) -> (r: Result<Place, CommandError>)
    ensures
        settles(r, planned_get(*config, virtual_path@, path::segments_of(virtual_path@))),
{
    plan_get(config, virtual_path, checked_segments(virtual_path))
}

/// What a command on a whole browser is asked for. The browser is the first segment of the path;
/// where there is none, it is the text itself, or the first browser where the text is blank.
pub open spec fn planned_target(
    config: Config,
    target: Seq<char>,
    segments: Option<Seq<Seq<char>>>,
    nobody: Reason,
) -> Result<PlaceView, Fault> {
    match segments {
        None => Err(Fault { reason: Reason::UnreadablePath, detail: target }),
        Some(s) => if s.len() > 0 {
            place_inside(config, s)
        } else if text::trimmed(target).len() > 0 {
            place_inside(config, seq![text::trimmed(target)])
        } else if config.profiles@.len() > 0 {
            place_inside(config, seq![config.profiles@[0].name@])
        } else {
            Err(Fault { reason: nobody, detail: ""@ })
        },
    }
}

/// What a command on a whole browser is asked for, given the segments of the path.
pub fn plan_target(
    config: &Config,
    target: &str,
    segments: Option<Vec<String>>,
    nobody: Reason,
) -> (r: Result<Place, CommandError>)
    ensures
        settles(
            r,
            planned_target(*config, target@, command::segments_view(segments), nobody),
        ),
{
    let s: Vec<String> = match segments {
        None => return Err(CommandError::new(Reason::UnreadablePath, target)),
        Some(s) => s,
    };
    if s.len() > 0 {
        return find_place(config, &s);
    }
    let mut named: Vec<String> = Vec::new();
    if !trim(target).is_empty() {
        named.push(trim(target).to_owned());
        assert(text::texts(named@) =~= seq![text::trimmed(target@)]);
    } else if config.profiles.len() > 0 {
        named.push(config.profiles[0].name.clone());
        assert(text::texts(named@) =~= seq![config.profiles@[0].name@]);
    } else {
        return Err(CommandError::new(nobody, ""));
    }
    find_place(config, &named)
}

/// What `export` is asked for.
pub fn cmd_export(config: &Config, target: &str) -> (r: Result<Place, CommandError>)
    ensures
        settles(
            r,
            planned_target(
                *config,
                target@,
                path::segments_of(target@),
                Reason::ExportNoProfile,
            ),
        ),
{
    plan_target(config, target, checked_segments(target), Reason::ExportNoProfile)
}

/// What `check` is asked for.
pub fn cmd_check(config: &Config, target: &str) -> (r: Result<Place, CommandError>)
    ensures
        settles(
            r,
            planned_target(
                *config,
                target@,
                path::segments_of(target@),
                Reason::CheckNoProfile,
            ),
        ),
{
    plan_target(config, target, checked_segments(target), Reason::CheckNoProfile)
}

/// The browsers that `dump` is asked for: the named one, or all.
pub open spec fn planned_dump(config: Config, target: Option<Seq<char>>) -> Result<Seq<int>, Fault> {
    match target {
        Some(name) => match config::profile_index(config, name) {
            Some(p) => Ok(seq![p]),
            None => Err(Fault { reason: Reason::ProfileNotFound, detail: name }),
        },
        None => Ok(Seq::new(config.profiles@.len(), |i: int| i)),
    }
}

/// The positions of a list.
pub open spec fn positions_of(s: Seq<usize>) -> Seq<int> {
    s.map_values(|i: usize| i as int)
}

/// The browsers that `dump` is asked for.
pub fn cmd_dump(config: &Config, target: Option<&str>) -> (r: Result<Vec<usize>, CommandError>)
    ensures
        ({
            let plan = planned_dump(
                *config,
                text::maybe(target),
            );
            match r {
                Ok(s) => plan == Ok::<Seq<int>, Fault>(positions_of(s@)),
                Err(e) => plan == Err::<Seq<int>, Fault>(e@),
            }
        }),
{
    let mut out: Vec<usize> = Vec::new();
    match target {
        Some(name) => match profile_position(config, name) {
            Some(p) => {
                out.push(p);
                assert(positions_of(out@) =~= seq![p as int]);
                Ok(out)
            },
            None => Err(CommandError::new(Reason::ProfileNotFound, name)),
        },
        None => {
            let mut i: usize = 0;
            while i < config.profiles.len()
                invariant
                    i <= config.profiles@.len(),
                    out@.len() == i,
                    forall|j: int| 0 <= j < i ==> #[trigger] out@[j] == j,
                decreases config.profiles.len() - i,
            {
                out.push(i);
                i += 1;
            }
            assert(positions_of(out@) =~= Seq::new(config.profiles@.len(), |i: int| i));
            Ok(out)
        },
    }
}

/// The shortcut file of an address.
pub open spec fn shortcut_text(url: Seq<char>) -> Seq<char> {
    "[InternetShortcut]\r\nURL="@ + url + "\r\n"@
}

/// The shortcut file of the link that a path leads to.
pub open spec fn shortcut_at(doc: Json, path: Seq<Seq<char>>, written: Seq<char>) -> Result<
    Seq<char>,
    Fault,
> {
    match tree::navigated(doc, path) {
        None => Err(Fault { reason: Reason::BookmarkNotFound, detail: written }),
        Some(n) => match n.text_member("url"@) {
            None => Err(Fault { reason: Reason::NotALink, detail: written }),
            Some(url) => Ok(shortcut_text(url)),
        },
    }
}

/// The shortcut file of the link that a path leads to; `written` is the path as it was written.
pub fn shortcut(val: &Doc, path: &Vec<String>, written: &str) -> (r: Result<String, CommandError>)
    ensures
        match r {
            Ok(s) => shortcut_at(val@, text::texts(path@), written@) == Ok::<Seq<char>, Fault>(s@),
            Err(e) => shortcut_at(val@, text::texts(path@), written@) == Err::<Seq<char>, Fault>(
                e@,
            ),
        },
{
    match navigate_node_ref(val, path.as_slice()) {
        None => Err(CommandError::new(Reason::BookmarkNotFound, written)),
        Some(n) => match n.get_str("url") {
            None => Err(CommandError::new(Reason::NotALink, written)),
            Some(url) => {
                let mut out: String = "[InternetShortcut]\r\nURL=".to_owned();
                out.append(url);
                out.append("\r\n");
                Ok(out)
            },
        },
    }
}

// ---------------------------------------------------------------------------
// Laws
// ---------------------------------------------------------------------------

/// A path goes on from where its beginning leads.
pub proof fn lemma_descendant_push(j: Json, path: Seq<Seq<char>>, name: Seq<char>)
    requires
        tree::descendant(j, path) is Some,
    ensures
        tree::descendant(j, path.push(name)) == tree::descendant(
            tree::descendant(j, path)->0,
            seq![name],
        ),
    decreases path.len(),
{
    if path.len() == 0 {
        assert(path.push(name) =~= seq![name]);
    } else {
        let c = node::children_of(j)->0;
        let i = tree::child_index(c, path[0])->0;
        assert(path.push(name).drop_first() =~= path.drop_first().push(name));
        lemma_descendant_push(c[i], path.drop_first(), name);
    }
}

/// What is listed can be reached: the path of a folder with the name of an entry behind it leads
/// to a node that is shown under that name, and to the very node of the entry where no node
/// before it is shown under the same name.
pub proof fn law_listed_names_lead_back(doc: Json, path: Seq<Seq<char>>, i: int)
    requires
        path.len() > 0,
        tree::navigated(doc, path) is Some,
        node::children_of(tree::navigated(doc, path)->0) is Some,
        0 <= i < node::children_of(tree::navigated(doc, path)->0)->0.len(),
        node_entry(node::children_of(tree::navigated(doc, path)->0)->0[i]) is Some,
    ensures
        ({
            let c = node::children_of(tree::navigated(doc, path)->0)->0;
            let name = node_entry(c[i])->0.name;
            &&& name == node::display_name(c[i])
            &&& tree::navigated(doc, path.push(name)) matches Some(n)
            &&& node::display_name(n) == name
            &&& (forall|j: int|
                0 <= j < i ==> node::display_name(#[trigger] c[j]) != name) ==> n == c[i]
        }),
{
    let folder = tree::navigated(doc, path)->0;
    let c = node::children_of(folder)->0;
    let name = node_entry(c[i])->0.name;
    lemma_entry_name(c[i]);
    let root = tree::readable_root(doc, path[0])->0;
    assert(path.push(name).drop_first() =~= path.drop_first().push(name));
    lemma_descendant_push(root, path.drop_first(), name);
    text::lemma_first_index(c, tree::shown_as(name));
    assert(tree::shown_as(name)(c[i]));
    let k = tree::child_index(c, name)->0;
    assert(seq![name].drop_first() =~= Seq::<Seq<char>>::empty());
    assert(tree::descendant(c[k], Seq::<Seq<char>>::empty()) == Some(c[k]));
    assert(tree::descendant(folder, seq![name]) == Some(c[k]));
    assert(tree::shown_as(name)(c[k]));
    if forall|j: int| 0 <= j < i ==> node::display_name(#[trigger] c[j]) != name {
        text::lemma_first_index_found(c, tree::shown_as(name), i);
    }
}

/// An entry is named as its node is shown.
proof fn lemma_entry_name(n: Json)
    requires
        node_entry(n) is Some,
    ensures
        node_entry(n)->0.name == node::display_name(n),
{
    reveal_strlit("");
    reveal_strlit("(empty)");
    reveal_strlit("folder");
    reveal_strlit("url");
    assert("folder"@.len() == 6 && "url"@.len() == 3);
    if n.text_member("name"@) is None {
        let e = "(empty)"@;
        assert(node::file_name_chars(""@) =~= ""@);
        assert(node::file_name_chars(e) =~= e);
        assert(text::strip_back(e, text::CharSet::Space) == e);
        assert(text::strip_front(e, text::CharSet::Space) == e);
        assert(node::sanitized(""@) == e);
        assert(node::sanitized(e) == e);
    }
}

/// The trash has its own place: it is listed among the roots of a browser and not among the other
/// bookmarks.
pub proof fn law_trash_is_listed_once(nodes: Seq<Json>, i: int)
    requires
        0 <= i < node_entries(nodes, true).len(),
    ensures
        exists|k: int|
            0 <= k < nodes.len() && node::name_of(#[trigger] nodes[k]) != TRASH_FOLDER_NAME@
                && node_entry(nodes[k]) == Some(node_entries(nodes, true)[i]),
    decreases nodes.len(),
{
    let rest = nodes.drop_last();
    if i < node_entries(rest, true).len() {
        law_trash_is_listed_once(rest, i);
        let k = choose|k: int|
            0 <= k < rest.len() && node::name_of(#[trigger] rest[k]) != TRASH_FOLDER_NAME@
                && node_entry(rest[k]) == Some(node_entries(rest, true)[i]);
        assert(nodes[k] == rest[k]);
    } else {
        assert(nodes[nodes.len() - 1] == nodes.last());
    }
}

/// Nodes are listed one by one: the entries of two lists in a row are those of the one, and behind
/// them those of the other.
pub proof fn law_nodes_are_listed_one_by_one(a: Seq<Json>, b: Seq<Json>, hide_trash: bool)
    ensures
        node_entries(a + b, hide_trash) == node_entries(a, hide_trash) + node_entries(b, hide_trash),
    decreases b.len(),
{
    let e = node_entries(a, hide_trash);
    if b.len() == 0 {
        assert(a + b =~= a);
        assert(e + node_entries(b, hide_trash) =~= e);
    } else {
        law_nodes_are_listed_one_by_one(a, b.drop_last(), hide_trash);
        assert((a + b).drop_last() =~= a + b.drop_last());
        assert((a + b).last() == b.last());
        assert(node_entries(a + b, hide_trash) =~= e + node_entries(b, hide_trash));
    }
}

/// The entry tells a node: its name is the one the node is shown under, its moment that of the
/// stamp of the last change, or else of the addition, and a link's size is that of its address.
pub open spec fn tells_node(e: EntryView, n: Json) -> bool {
    &&& e.name == node::display_name(n)
    &&& n.type_is("folder"@) ==> e.size is None
    &&& n.type_is("url"@) ==> e.size == Some(
        match n.text_member("url"@) {
            Some(url) => text::byte_len(url),
            None => 0,
        },
    )
    &&& n.text_member("date_modified"@) matches Some(stamp) ==> e.moment == time::moment_of(
        Some(stamp),
    )
    &&& n.member("date_modified"@) is None ==> e.moment == time::moment_of(
        n.text_member("date_added"@),
    )
}

/// Each folder and each link has its entry, and nothing else has one: the listing of a single
/// node is the entry that tells it. Only what is named like the trash is passed over where that is
/// asked for.
pub proof fn law_each_node_has_its_entry(n: Json, hide_trash: bool)
    ensures
        ({
            let entries = node_entries(seq![n], hide_trash);
            let shown = (n.type_is("folder"@) || n.type_is("url"@)) && !(hide_trash
                && n.text_member("name"@) == Some(TRASH_FOLDER_NAME@));
            &&& shown ==> entries.len() == 1 && tells_node(entries[0], n)
            &&& !shown ==> entries.len() == 0
        }),
{
    reveal_with_fuel(node_entries, 2);
    let s = seq![n];
    assert(s.drop_last() =~= Seq::<Json>::empty());
    assert(s.last() == n);
    reveal_strlit("");
    reveal_strlit("ゴミ箱");
    reveal_strlit("folder");
    reveal_strlit("url");
    assert("folder"@.len() == 6 && "url"@.len() == 3 && TRASH_FOLDER_NAME@.len() == 3);
    assert(text::byte_len(""@) == 0);
    if node_entry(n) is Some {
        lemma_entry_name(n);
    }
}

/// A folder is listed with all its children, a node without children as empty, and a path that
/// leads nowhere is refused. The trash is hidden just among the other bookmarks. The empty path
/// lists the roots of the browser.
pub proof fn law_folder_is_listed(doc: Json, path: Seq<Seq<char>>, written: Seq<char>)
    ensures
        path.len() == 0 ==> listed(doc, path, written) == Ok::<Seq<EntryView>, Fault>(
            browser_entries(doc),
        ),
        path.len() > 0 ==> (listed(doc, path, written) is Ok <==> tree::navigated(doc, path)
            is Some),
        path.len() > 0 ==> (tree::navigated(doc, path) matches Some(n) ==> match n.array_member("children"@) {
            Some(c) => listed(doc, path, written) == Ok::<Seq<EntryView>, Fault>(
                node_entries(
                    c,
                    path.len() == 1 && (path[0] == "other"@ || path[0] == OTHER_BOOKMARKS_JP@),
                ),
            ),
            None => listed(doc, path, written) == Ok::<Seq<EntryView>, Fault>(Seq::empty()),
        }),
{
}

/// What is listed of a browser can be entered: the bar, the other bookmarks, the menu and the
/// history are listed, where the document has them, under names that lead to them, and the trash
/// under a name that leads to what is named so. The menu and the history are listed only where the
/// document has them.
#[verifier::rlimit(40)]
pub proof fn law_listed_roots_lead_to_them(doc: Json)
    ensures
        ({
            let e = browser_entries(doc);
            &&& lists(e, BOOKMARK_BAR_JP@) && tree::navigated(doc, seq![BOOKMARK_BAR_JP@])
                == tree::root_folder(doc, "bookmark_bar"@)
            &&& lists(e, OTHER_BOOKMARKS_JP@) && tree::navigated(doc, seq![OTHER_BOOKMARKS_JP@])
                == tree::root_folder(doc, "other"@)
            &&& lists(e, BOOKMARK_MENU_JP@) <==> tree::root_folder(doc, "menu"@) is Some
            &&& tree::navigated(doc, seq![BOOKMARK_MENU_JP@]) == tree::root_folder(doc, "menu"@)
            &&& lists(e, HISTORY_FOLDER_NAME@) <==> tree::root_folder(doc, "history"@) is Some
            &&& tree::navigated(doc, seq![HISTORY_FOLDER_NAME@]) == tree::root_folder(
                doc,
                "history"@,
            )
            &&& lists(e, TRASH_FOLDER_NAME@)
            &&& forall|i: int| 0 <= i < e.len() ==> (#[trigger] e[i]).size is None
            &&& e.len() >= 3 && e[0].name == BOOKMARK_BAR_JP@ && e[1].name == OTHER_BOOKMARKS_JP@
            &&& forall|i: int|
                0 <= i < e.len() ==> (#[trigger] e[i]).name == BOOKMARK_BAR_JP@ || e[i].name
                    == OTHER_BOOKMARKS_JP@ || e[i].name == BOOKMARK_MENU_JP@ || e[i].name
                    == TRASH_FOLDER_NAME@ || e[i].name == HISTORY_FOLDER_NAME@
            &&& forall|i: int, j: int|
                0 <= i < j < e.len() ==> (#[trigger] e[i]).name != (#[trigger] e[j]).name
        }),
{
    reveal_strlit("history");
    reveal_strlit("履歴");
    reveal_strlit("trash");
    reveal_strlit("ゴミ箱");
    reveal_strlit("isolate");
    reveal_strlit("リンク切れ");
    reveal_strlit("bookmark_bar");
    reveal_strlit("ブックマーク バー");
    reveal_strlit("other");
    reveal_strlit("その他のブックマーク");
    reveal_strlit("menu");
    reveal_strlit("ブックマーク メニュー");
    assert(BOOKMARK_BAR_JP@.len() == 9 && OTHER_BOOKMARKS_JP@.len() == 10
        && BOOKMARK_MENU_JP@.len() == 11 && HISTORY_FOLDER_NAME@.len() == 2
        && TRASH_FOLDER_NAME@.len() == 3);
    assert("bookmark_bar"@.len() == 12 && "other"@.len() == 5 && "menu"@.len() == 4
        && "trash"@.len() == 5 && "isolate"@.len() == 7 && "history"@.len() == 7
        && "リンク切れ"@.len() == 5);
    let e = browser_entries(doc);
    assert(e[0].name == BOOKMARK_BAR_JP@);
    assert(e[1].name == OTHER_BOOKMARKS_JP@);
    let menu = tree::root_folder(doc, "menu"@) is Some;
    if menu {
        assert(e[2].name == BOOKMARK_MENU_JP@);
        assert(e[3].name == TRASH_FOLDER_NAME@);
        if tree::root_folder(doc, "history"@) is Some {
            assert(e[4].name == HISTORY_FOLDER_NAME@);
        }
    } else {
        assert(e[2].name == TRASH_FOLDER_NAME@);
        if tree::root_folder(doc, "history"@) is Some {
            assert(e[3].name == HISTORY_FOLDER_NAME@);
        }
    }
    let a = seq![BOOKMARK_BAR_JP@];
    let b = seq![OTHER_BOOKMARKS_JP@];
    let c = seq![BOOKMARK_MENU_JP@];
    let d = seq![HISTORY_FOLDER_NAME@];
    assert(a.drop_first() =~= Seq::<Seq<char>>::empty());
    assert(b.drop_first() =~= Seq::<Seq<char>>::empty());
    assert(c.drop_first() =~= Seq::<Seq<char>>::empty());
    assert(d.drop_first() =~= Seq::<Seq<char>>::empty());
}

/// An entry has a name.
pub open spec fn lists(entries: Seq<EntryView>, name: Seq<char>) -> bool {
    exists|i: int| 0 <= i < entries.len() && (#[trigger] entries[i]).name == name
}

/// Every browser is listed, in its order, under a name by which it is found, or else one of the
/// same name before it.
pub proof fn law_listed_browsers_are_found(config: Config, moments: Seq<Moment>, i: int)
    requires
        0 <= i < config.profiles@.len(),
    ensures
        ({
            let entries = profile_entries(config::profiles_of(config.profiles@), moments);
            &&& entries.len() == config.profiles@.len()
            &&& entries[i].name == config.profiles@[i].name@
            &&& entries[i].size is None
            &&& i < moments.len() ==> entries[i].moment == moments[i]
            &&& planned_list(config, entries[i].name, Some(seq![entries[i].name])) matches Ok(
                PlaceView::Inside { profile, path },
            )
            &&& path.len() == 0
            &&& 0 <= profile <= i
            &&& text::same_ignoring_case(config.profiles@[profile].name@, entries[i].name)
        }),
{
    let all = config::profiles_of(config.profiles@);
    let name = config.profiles@[i].name@;
    assert(all[i].name == name);
    text::lemma_first_index(all, config::has_name(name));
    assert(config::has_name(name)(all[i]));
    let p = config::profile_index(config, name)->0;
    assert(config::has_name(name)(all[p]));
    assert(all[p].name == config.profiles@[p].name@);
    assert(seq![name].drop_first() =~= Seq::<Seq<char>>::empty());
}

/// A path is looked for in the first browser of the name that it begins with; what follows the
/// name is the path in that browser. Only the empty path lists the browsers, and a single link is
/// got only from below a browser.
pub proof fn law_first_segment_is_the_browser(
    config: Config,
    written: Seq<char>,
    browser: Seq<char>,
    path: Seq<Seq<char>>,
)
    ensures
        ({
            let segments = seq![browser] + path;
            let got = planned_list(config, written, Some(segments));
            &&& got matches Ok(place) ==> (place matches PlaceView::Inside { profile, path: below }
                && below == path && config::is_first_of_name(config, profile, browser))
            &&& got is Ok <==> exists|p: int| #[trigger] config::is_first_of_name(config, p, browser)
            &&& path.len() > 0 ==> planned_get(config, written, Some(segments)) == got
            &&& path.len() == 0 ==> planned_get(config, written, Some(segments)) is Err
        }),
        planned_list(config, written, Some(Seq::empty())) == Ok::<PlaceView, Fault>(
            PlaceView::Browsers,
        ),
{
    let segments = seq![browser] + path;
    assert(segments[0] == browser);
    assert(segments.drop_first() =~= path);
    let all = config::profiles_of(config.profiles@);
    text::lemma_first_index(all, config::has_name(browser));
    if let Some(p) = config::profile_index(config, browser) {
        assert(config::has_name(browser)(all[p]));
        assert(all[p].name == config.profiles@[p].name@);
        assert forall|k: int| 0 <= k < p implies !text::same_ignoring_case(
            (#[trigger] config.profiles@[k]).name@,
            browser,
        ) by {
            assert(!config::has_name(browser)(all[k]));
        }
        assert(config::is_first_of_name(config, p, browser));
    }
    if exists|p: int| #[trigger] config::is_first_of_name(config, p, browser) {
        let p = choose|p: int| #[trigger] config::is_first_of_name(config, p, browser);
        assert(config::has_name(browser)(all[p]));
    }
}

/// The line of an entry holds its name between quotation marks, tells folders from links, gives
/// the size of a link, and ends with the date.
#[verifier::rlimit(40)]
pub proof fn law_line_tells_its_entry(e: EntryView, date: Seq<char>)
    ensures
        text::begins_with(entry_line(e, date), seq!['"'] + e.name + seq!['"', ',', 'A', ':', 'H']),
        text::finishes_with(entry_line(e, date), ",W:"@ + date + "\r\n"@),
        e.size is None ==> entry_line(e, date)[e.name.len() as int + 6] == '1',
        e.size matches Some(n) ==> entry_line(e, date)[e.name.len() as int + 6] == '2'
            && entry_line(e, date).subrange(
            e.name.len() as int + 8,
            e.name.len() as int + 11 + number::decimal(n).len(),
        ) == ",S:"@ + number::decimal(n),
{
    reveal_strlit("\"");
    reveal_strlit("\",A:H10,W:");
    reveal_strlit("\",A:H20,S:");
    reveal_strlit(",W:");
    reveal_strlit(",S:");
    reveal_strlit("\r\n");
    let line = entry_line(e, date);
    let head = seq!['"'] + e.name + seq!['"', ',', 'A', ':', 'H'];
    let tail = ",W:"@ + date + "\r\n"@;
    assert("\""@.len() == 1 && "\",A:H10,W:"@.len() == 10 && "\",A:H20,S:"@.len() == 10
        && ",W:"@.len() == 3 && "\r\n"@.len() == 2 && ",S:"@.len() == 3);
    assert(line.take(head.len() as int) =~= head);
    assert(line.skip(line.len() - tail.len()) =~= tail);
    if let Some(n) = e.size {
        let k = e.name.len() as int;
        assert(line.subrange(k + 8, k + 11 + number::decimal(n).len()) =~= ",S:"@ + number::decimal(
            n,
        ));
    }
}

/// A listing is its head and the lines of its entries: a list with one more entry has the line of
/// that entry behind it.
pub proof fn law_listing_has_a_line_for_each_entry(
    entries: Seq<EntryView>,
    dates: Seq<Seq<char>>,
    e: EntryView,
    date: Seq<char>,
)
    ensures
        list_text(entries.push(e), dates.push(date)) == list_text(entries, dates) + entry_line(
            e,
            date,
        ),
        list_text(Seq::empty(), Seq::empty()) == ";ListFile\r\n"@,
{
    assert(entries.push(e).drop_last() =~= entries);
    assert(dates.push(date).drop_last() =~= dates);
}

/// A shortcut is made just of what has an address, and holds that address on a line of its own,
/// unaltered.
pub proof fn law_shortcut_leads_to_the_address(
    doc: Json,
    path: Seq<Seq<char>>,
    written: Seq<char>,
)
    ensures
        shortcut_at(doc, path, written) is Ok <==> (tree::navigated(doc, path) matches Some(n)
            && n.text_member("url"@) is Some),
        shortcut_at(doc, path, written) matches Ok(t) ==> ({
            let url = tree::navigated(doc, path)->0.text_member("url"@)->0;
            &&& t.len() == 26 + url.len()
            &&& t.take(24) == "[InternetShortcut]\r\nURL="@
            &&& t.subrange(24, 24 + url.len() as int) == url
            &&& t.skip(24 + url.len() as int) == "\r\n"@
        }),
{
    reveal_strlit("[InternetShortcut]\r\nURL=");
    reveal_strlit("\r\n");
    if let Ok(t) = shortcut_at(doc, path, written) {
        let url = tree::navigated(doc, path)->0.text_member("url"@)->0;
        assert(t.take(24) =~= "[InternetShortcut]\r\nURL="@);
        assert(t.subrange(24, 24 + url.len() as int) =~= url);
        assert(t.skip(24 + url.len() as int) =~= "\r\n"@);
    }
}

/// A command on a whole browser means the browser that its target begins with; a blank target
/// means the first browser.
pub proof fn law_target_is_a_browser(
    config: Config,
    target: Seq<char>,
    browser: Seq<char>,
    path: Seq<Seq<char>>,
    nobody: Reason,
)
    ensures
        planned_target(config, target, Some(seq![browser] + path), nobody) == planned_list(
            config,
            target,
            Some(seq![browser] + path),
        ),
        text::trimmed(target).len() == 0 && config.profiles@.len() > 0 ==> planned_target(
            config,
            target,
            Some(Seq::empty()),
            nobody,
        ) == Ok::<PlaceView, Fault>(PlaceView::Inside { profile: 0, path: Seq::empty() }),
        planned_target(config, target, Some(Seq::empty()), nobody) is Err ==> text::trimmed(
            target,
        ).len() > 0 || config.profiles@.len() == 0,
{
    let s = seq![browser] + path;
    assert(s.len() > 0);
    if config.profiles@.len() > 0 {
        let all = config::profiles_of(config.profiles@);
        let name = config.profiles@[0].name@;
        assert(all[0].name == name);
        assert(config::has_name(name)(all[0]));
        text::lemma_first_index_found(all, config::has_name(name), 0);
        assert(seq![name].drop_first() =~= Seq::<Seq<char>>::empty());
    }
}

/// A dump of a named browser is that of the first browser of its name, and a dump without a name
/// is that of all browsers, each once.
pub proof fn law_dump_is_of_the_named_or_all(config: Config, name: Seq<char>)
    ensures
        planned_dump(config, Some(name)) matches Ok(s) ==> s.len() == 1 && config::is_first_of_name(
            config,
            s[0],
            name,
        ),
        planned_dump(config, Some(name)) is Err ==> forall|k: int|
            0 <= k < config.profiles@.len() ==> !text::same_ignoring_case(
                (#[trigger] config.profiles@[k]).name@,
                name,
            ),
        planned_dump(config, None) matches Ok(s) && s.len() == config.profiles@.len() && forall|
            k: int,
        |
            0 <= k < s.len() ==> #[trigger] s[k] == k,
{
    let all = config::profiles_of(config.profiles@);
    text::lemma_first_index(all, config::has_name(name));
    if let Some(p) = config::profile_index(config, name) {
        assert(config::has_name(name)(all[p]));
        assert(all[p].name == config.profiles@[p].name@);
        assert forall|k: int| 0 <= k < p implies !text::same_ignoring_case(
            (#[trigger] config.profiles@[k]).name@,
            name,
        ) by {
            assert(!config::has_name(name)(all[k]));
        }
    } else {
        assert forall|k: int| 0 <= k < config.profiles@.len() implies !text::same_ignoring_case(
            (#[trigger] config.profiles@[k]).name@,
            name,
        ) by {
            assert(!config::has_name(name)(all[k]));
        }
    }
}

/// The roots of a browser are listed with the moments of their last changes, the history with that
/// of the last visit.
#[verifier::rlimit(40)]
pub proof fn law_listed_roots_are_dated(doc: Json, i: int)
    requires
        0 <= i < browser_entries(doc).len(),
    ensures
        ({
            let e = browser_entries(doc)[i];
            &&& e.name == BOOKMARK_BAR_JP@ ==> (tree::root_folder(
                doc,
                "bookmark_bar"@,
            ) matches Some(r) ==> e.moment == time::moment_of(r.text_member("date_modified"@)))
            &&& e.name == OTHER_BOOKMARKS_JP@ ==> (tree::root_folder(doc, "other"@) matches Some(r)
                ==> e.moment == time::moment_of(r.text_member("date_modified"@)))
            &&& e.name == BOOKMARK_MENU_JP@ ==> (tree::root_folder(doc, "menu"@) matches Some(r)
                ==> e.moment == time::moment_of(r.text_member("date_modified"@)))
            &&& e.name == TRASH_FOLDER_NAME@ ==> (trash_by_name(doc) matches Some(r) ==> e.moment
                == time::moment_of(r.text_member("date_modified"@)))
            &&& e.name == HISTORY_FOLDER_NAME@ ==> (tree::root_folder(
                doc,
                "history"@,
            ) matches Some(r) ==> (r.array_member("children"@) matches Some(c) ==> (c.len() > 0 ==> (
            c[0].text_member("date_modified"@) is Some ==> e.moment == time::moment_of(
                c[0].text_member("date_modified"@),
            )))))
        }),
{
    reveal_strlit("ゴミ箱");
    reveal_strlit("履歴");
    reveal_strlit("ブックマーク バー");
    reveal_strlit("その他のブックマーク");
    reveal_strlit("ブックマーク メニュー");
    assert(BOOKMARK_BAR_JP@.len() == 9 && OTHER_BOOKMARKS_JP@.len() == 10
        && BOOKMARK_MENU_JP@.len() == 11 && HISTORY_FOLDER_NAME@.len() == 2
        && TRASH_FOLDER_NAME@.len() == 3);
}

} // verus!
