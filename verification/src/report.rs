//! The report of a link check, and what becomes of dead links.
use vstd::prelude::*;
use vstd::slice::slice_subrange;
use vstd::string::*;
use crate::check;
use crate::check::{CheckResult, LinkItem, LinkView, ResultView};
use crate::export;
use crate::guid::{Mint, MintState};
use crate::node;
use crate::node::{node_is_link, node_name, ISOLATE_FOLDER_NAME, TRASH_FOLDER_NAME};
use crate::number;
use crate::number::decimal_text;
use crate::place;
use crate::place::{find_node, find_place, holds_place, prune_doc, Place, PlaceView};
use crate::text;
use crate::text::{text_eq, text_less, trim};
use crate::tree;
use crate::tree::{ensure_folder_as, ensure_isolate_folder, next_id, special_mut};
use crate::value;
use crate::value::{Doc, Json};

verus! {

/// A checked link.
#[derive(Debug)]
pub struct Checked {
    pub item: LinkItem,
    pub result: CheckResult,
}

/// The model of a checked link.
pub struct CheckedView {
    pub item: LinkView,
    pub result: ResultView,
}

impl View for Checked {
    type V = CheckedView;

    open spec fn view(&self) -> CheckedView {
        CheckedView { item: self.item@, result: self.result@ }
    }
}

/// The models of a list of checked links.
pub open spec fn checked_of(s: Seq<Checked>) -> Seq<CheckedView> {
    s.map_values(|c: Checked| c@)
}

// ---------------------------------------------------------------------------
// The order of the report
// ---------------------------------------------------------------------------

/// An ordered list with a link put in behind all whose names do not stand after its own.
pub open spec fn filed(s: Seq<CheckedView>, x: CheckedView) -> Seq<CheckedView>
    decreases s.len(),
{
    if s.len() > 0 && text::less(x.item.name, s.last().item.name) {
        filed(s.drop_last(), x).push(s.last())
    } else {
        s.push(x)
    }
}

/// Links in the order of their names; links of one name keep their order.
pub open spec fn by_name(s: Seq<CheckedView>) -> Seq<CheckedView>
    decreases s.len(),
{
    if s.len() == 0 {
        s
    } else {
        filed(by_name(s.drop_last()), s.last())
    }
}

/// Puts a link into an ordered list.
fn file_in(list: &mut Vec<Checked>, x: Checked)
    ensures
        checked_of(final(list)@) == filed(checked_of(old(list)@), x@),
{
    let ghost all = checked_of(list@);
    let ghost xv = x@;
    let mut i: usize = list.len();
    proof {
        assert(all.take(i as int) =~= all);
        assert(filed(all, xv) + all.skip(i as int) =~= filed(all, xv));
    }
    while i > 0 && text_less(x.item.name.as_str(), list[i - 1].item.name.as_str())
        invariant
            i <= list@.len(),
            *list == *old(list),
            xv == x@,
            all == checked_of(list@),
            filed(all, xv) == filed(all.take(i as int), xv) + all.skip(i as int),
        decreases i,
    {
        proof {
            let upto = all.take(i as int);
            assert(upto.last() == list@[i - 1]@);
            assert(upto.drop_last() =~= all.take(i - 1));
            assert(filed(upto, xv) + all.skip(i as int) =~= filed(all.take(i - 1), xv) + all.skip(
                i - 1,
            ));
        }
        i -= 1;
    }
    proof {
        let upto = all.take(i as int);
        if i > 0 {
            assert(upto.last() == list@[i - 1]@);
        }
        assert(filed(upto, xv) =~= upto.push(xv));
        assert(all.insert(i as int, xv) =~= upto.push(xv) + all.skip(i as int));
    }
    list.insert(i, x);
    assert(checked_of(list@) =~= all.insert(i as int, xv));
}

/// Puts links in the order of their names.
pub fn sort_by_name(results: Vec<Checked>) -> (r: Vec<Checked>)
    ensures
        checked_of(r@) == by_name(checked_of(results@)),
{
    let ghost all = checked_of(results@);
    let mut waiting: Vec<Checked> = results;
    let mut out: Vec<Checked> = Vec::new();
    assert(checked_of(out@) =~= by_name(all.take(0)));
    assert(all.skip(0) =~= all);
    while waiting.len() > 0
        invariant
            waiting@.len() <= all.len(),
            checked_of(waiting@) == all.skip(all.len() - waiting@.len()),
            checked_of(out@) == by_name(all.take(all.len() - waiting@.len())),
        decreases waiting.len(),
    {
        let ghost w = waiting@;
        let x: Checked = waiting.remove(0);
        proof {
            let k = all.len() - w.len();
            assert(checked_of(w)[0] == w[0]@);
            assert(x@ == all[k]);
            assert(checked_of(waiting@) =~= checked_of(w).skip(1));
            assert(all.skip(k).skip(1) =~= all.skip(k + 1));
            assert(all.take(k + 1).drop_last() =~= all.take(k));
        }
        file_in(&mut out, x);
    }
    assert(all.take(all.len() as int) =~= all);
    out
}

// ---------------------------------------------------------------------------
// The text of the report
// ---------------------------------------------------------------------------

/// Blanks.
pub open spec fn blanks(n: int) -> Seq<char>
    decreases n,
{
    if n <= 0 {
        ""@
    } else {
        blanks(n - 1) + " "@
    }
}

/// The code of a dead link, as it is shown.
pub open spec fn shown_code(code: u16) -> Seq<char> {
    if code > 0 {
        number::decimal(code as nat)
    } else {
        "---"@
    }
}

/// The line of a checked link. A code takes up at least three places; it stands on the right of
/// them, that of a dead link on the left.
pub open spec fn report_line(c: CheckedView) -> Seq<char> {
    match c.result {
        ResultView::Alive(code) => {
            let d = number::decimal(code as nat);
            "[ OK ] "@ + blanks(3 - d.len()) + d + " | "@ + c.item.name + " ("@ + c.item.url
                + ")\n"@
        },
        ResultView::Warn(code, why) => {
            let d = number::decimal(code as nat);
            "[WARN] "@ + blanks(3 - d.len()) + d + " | "@ + c.item.name + " ("@ + c.item.url
                + " - "@ + why + ")\n"@
        },
        ResultView::Dead(code, why) => {
            let d = shown_code(code);
            "[DEAD] "@ + d + blanks(3 - d.len()) + " | "@ + c.item.name + " ("@ + c.item.url
                + " - "@ + why + ")\n"@
        },
    }
}

/// The lines of checked links.
pub open spec fn report_lines(s: Seq<CheckedView>) -> Seq<char>
    decreases s.len(),
{
    if s.len() == 0 {
        ""@
    } else {
        report_lines(s.drop_last()) + report_line(s.last())
    }
}

/// A line across the report.
pub const RULE: &'static str = "===================================================\n";

/// What becomes of dead links.
#[derive(Debug, Clone, Copy, PartialEq, Eq, Structural)]
pub enum Disposal {
    Report,
    Trash,
    Isolate,
}

/// What the options ask to do with dead links; the trash goes first.
pub open spec fn asked_disposal(to_trash: bool, to_isolate: bool) -> Disposal {
    if to_trash {
        Disposal::Trash
    } else if to_isolate {
        Disposal::Isolate
    } else {
        Disposal::Report
    }
}

/// What the options ask to do with dead links.
pub fn disposal_of(to_trash: bool, to_isolate: bool) -> (r: Disposal)
    ensures
        r == asked_disposal(to_trash, to_isolate),
{
    if to_trash {
        Disposal::Trash
    } else if to_isolate {
        Disposal::Isolate
    } else {
        Disposal::Report
    }
}

/// The name of what becomes of dead links.
pub open spec fn disposal_text(d: Disposal) -> Seq<char> {
    match d {
        Disposal::Report => "Report only (dry-run)"@,
        Disposal::Trash => "Move broken links to Trash"@,
        Disposal::Isolate => "Move broken links to 'リンク切れ' folder"@,
    }
}

/// The head of the report.
pub open spec fn report_head(
    profile_name: Seq<char>,
    total: nat,
    timeout_secs: nat,
    threads: nat,
    disposal: Disposal,
) -> Seq<char> {
    RULE@ + "  auxbookmark Link Check: ["@ + profile_name + "] ("@ + number::decimal(total)
        + " items)\n"@ + "  Timeout: "@ + number::decimal(timeout_secs) + "s | Concurrency: "@
        + number::decimal(threads) + " threads\n"@ + "  Mode   : "@ + disposal_text(disposal)
        + "\n"@ + RULE@
}

/// The number of links in the order of their states: alive, restricted, dead.
pub open spec fn tally(s: Seq<CheckedView>) -> (nat, nat, nat)
    decreases s.len(),
{
    if s.len() == 0 {
        (0, 0, 0)
    } else {
        let (a, w, d) = tally(s.drop_last());
        match s.last().result {
            ResultView::Alive(_) => (a + 1, w, d),
            ResultView::Warn(..) => (a, w + 1, d),
            ResultView::Dead(..) => (a, w, d + 1),
        }
    }
}

/// The foot of the report.
pub open spec fn report_foot(total: nat, counts: (nat, nat, nat)) -> Seq<char> {
    RULE@ + "Link Check Summary: "@ + number::decimal(total) + " checked\n"@ + "  - OK   : "@
        + number::decimal(counts.0) + "\n"@ + "  - WARN : "@ + number::decimal(counts.1)
        + " (Maintained)\n"@ + "  - DEAD : "@ + number::decimal(counts.2) + "\n"@ + RULE@
}

/// Adds blanks up to a length of three.
fn pad(out: &mut String, len: usize)
    ensures
        final(out)@ == old(out)@ + blanks(3 - len),
{
    let mut n: usize = len;
    let ghost start = out@;
    let ghost k: int = 0;
    proof {
        reveal_strlit("");
        assert(start + blanks(0) =~= start);
    }
    while n < 3
        invariant
            len <= n,
            n <= 3 || n == len,
            k == n - len,
            out@ == start + blanks(k),
        decreases 3 - n,
    {
        let ghost before = out@;
        out.append(" ");
        proof {
            assert(before + " "@ =~= start + (blanks(k) + " "@));
            k = k + 1;
        }
        n += 1;
    }
    proof {
        if len >= 3 {
            assert(k == 0);
            assert(start + blanks(3 - len) =~= start + blanks(0));
        }
    }
}

/// The line of a checked link.
pub fn check_line(c: &Checked) -> (r: String)
    ensures
        r@ == report_line(c@),
{
    match &c.result {
        CheckResult::Alive(code) => {
            let d: String = decimal_text(*code as u128);
            let mut out: String = "[ OK ] ".to_owned();
            pad(&mut out, d.as_str().unicode_len());
            out.append(d.as_str());
            out.append(" | ");
            out.append(c.item.name.as_str());
            out.append(" (");
            out.append(c.item.url.as_str());
            out.append(")\n");
            out
        },
        CheckResult::Warn(code, why) => {
            let d: String = decimal_text(*code as u128);
            let mut out: String = "[WARN] ".to_owned();
            pad(&mut out, d.as_str().unicode_len());
            out.append(d.as_str());
            out.append(" | ");
            out.append(c.item.name.as_str());
            out.append(" (");
            out.append(c.item.url.as_str());
            out.append(" - ");
            out.append(why.as_str());
            out.append(")\n");
            out
        },
        CheckResult::Dead(code, why) => {
            let d: String = if *code > 0 {
                decimal_text(*code as u128)
            } else {
                "---".to_owned()
            };
            let mut out: String = "[DEAD] ".to_owned();
            out.append(d.as_str());
            pad(&mut out, d.as_str().unicode_len());
            out.append(" | ");
            out.append(c.item.name.as_str());
            out.append(" (");
            out.append(c.item.url.as_str());
            out.append(" - ");
            out.append(why.as_str());
            out.append(")\n");
            out
        },
    }
}

/// The lines of checked links.
pub fn check_lines(results: &[Checked]) -> (r: String)
    ensures
        r@ == report_lines(checked_of(results@)),
{
    let ghost all = checked_of(results@);
    let mut out: String = "".to_owned();
    let mut i: usize = 0;
    assert(all.take(0) =~= Seq::empty());
    while i < results.len()
        invariant
            i <= results@.len(),
            all == checked_of(results@),
            out@ == report_lines(all.take(i as int)),
        decreases results.len() - i,
    {
        proof {
            assert(all.take(i + 1).drop_last() =~= all.take(i as int));
            assert(all.take(i + 1).last() == results@[i as int]@);
        }
        out.append(check_line(&results[i]).as_str());
        i += 1;
    }
    assert(all.take(i as int) =~= all);
    out
}

/// The head of the report.
pub fn check_head(
    profile_name: &str,
    total: usize,
    timeout_secs: u64,
    threads: usize,
    disposal: Disposal,
) -> (r: String)
    ensures
        r@ == report_head(
            profile_name@,
            total as nat,
            timeout_secs as nat,
            threads as nat,
            disposal,
        ),
{
    let mut out: String = RULE.to_owned();
    out.append("  auxbookmark Link Check: [");
    out.append(profile_name);
    out.append("] (");
    out.append(decimal_text(total as u128).as_str());
    out.append(" items)\n");
    out.append("  Timeout: ");
    out.append(decimal_text(timeout_secs as u128).as_str());
    out.append("s | Concurrency: ");
    out.append(decimal_text(threads as u128).as_str());
    out.append(" threads\n");
    out.append("  Mode   : ");
    out.append(
        match disposal {
            Disposal::Report => "Report only (dry-run)",
            Disposal::Trash => "Move broken links to Trash",
            Disposal::Isolate => "Move broken links to 'リンク切れ' folder",
        },
    );
    out.append("\n");
    out.append(RULE);
    out
}

/// The foot of the report on `total` links.
pub fn check_foot(total: usize, results: &[Checked]) -> (r: String)
    ensures
        r@ == report_foot(total as nat, tally(checked_of(results@))),
{
    let ghost all = checked_of(results@);
    let mut alive: usize = 0;
    let mut restricted: usize = 0;
    let mut dead: usize = 0;
    let mut i: usize = 0;
    assert(all.take(0) =~= Seq::empty());
    while i < results.len()
        invariant
            i <= results@.len(),
            all == checked_of(results@),
            alive <= i,
            restricted <= i,
            dead <= i,
            (alive as nat, restricted as nat, dead as nat) == tally(all.take(i as int)),
        decreases results.len() - i,
    {
        proof {
            assert(all.take(i + 1).drop_last() =~= all.take(i as int));
            assert(all.take(i + 1).last() == results@[i as int]@);
        }
        match &results[i].result {
            CheckResult::Alive(_) => {
                alive += 1;
            },
            CheckResult::Warn(_, _) => {
                restricted += 1;
            },
            CheckResult::Dead(_, _) => {
                dead += 1;
            },
        }
        i += 1;
    }
    assert(all.take(i as int) =~= all);
    let mut out: String = RULE.to_owned();
    out.append("Link Check Summary: ");
    out.append(decimal_text(total as u128).as_str());
    out.append(" checked\n");
    out.append("  - OK   : ");
    out.append(decimal_text(alive as u128).as_str());
    out.append("\n");
    out.append("  - WARN : ");
    out.append(decimal_text(restricted as u128).as_str());
    out.append(" (Maintained)\n");
    out.append("  - DEAD : ");
    out.append(decimal_text(dead as u128).as_str());
    out.append("\n");
    out.append(RULE);
    out
}

// ---------------------------------------------------------------------------
// Dead links
// ---------------------------------------------------------------------------

/// The dead links, in their order.
pub open spec fn dead_among(s: Seq<CheckedView>) -> Seq<LinkView>
    decreases s.len(),
{
    if s.len() == 0 {
        Seq::empty()
    } else if s.last().result is Dead {
        dead_among(s.drop_last()).push(s.last().item)
    } else {
        dead_among(s.drop_last())
    }
}

/// The dead links.
pub fn dead_links(results: &[Checked]) -> (r: Vec<LinkItem>)
    ensures
        check::links_of(r@) == dead_among(checked_of(results@)),
{
    let ghost all = checked_of(results@);
    let mut out: Vec<LinkItem> = Vec::new();
    let mut i: usize = 0;
    assert(check::links_of(out@) =~= Seq::empty());
    assert(all.take(0) =~= Seq::empty());
    while i < results.len()
        invariant
            i <= results@.len(),
            all == checked_of(results@),
            check::links_of(out@) == dead_among(all.take(i as int)),
        decreases results.len() - i,
    {
        proof {
            assert(all.take(i + 1).drop_last() =~= all.take(i as int));
            assert(all.take(i + 1).last() == results@[i as int]@);
        }
        if let CheckResult::Dead(_, _) = &results[i].result {
            let copy: LinkItem = results[i].item.copy();
            let ghost before = check::links_of(out@);
            let ghost l = copy@;
            out.push(copy);
            assert(check::links_of(out@) =~= before.push(l));
        }
        i += 1;
    }
    assert(all.take(i as int) =~= all);
    out
}

/// The place is one below a root folder whose contents can be changed.
pub open spec fn is_movable(p: PlaceView) -> bool {
    (p.root == "bookmark_bar"@ || p.root == "other"@ || p.root == "menu"@) && p.at.len() > 0
}

/// The node is the link node of a link.
pub open spec fn is_node_of(n: Json, l: LinkView) -> bool {
    &&& node::is_link(n)
    &&& node::name_of(n) == l.name
    &&& n.text_member("url"@) matches Some(url)
    &&& text::trimmed(url) == l.url
}

/// The link node of a link is at a place, and can be moved from there.
pub open spec fn is_at(doc: Json, l: LinkView, p: PlaceView) -> bool {
    is_movable(p) && (place::node_at(doc, p) matches Some(n) && is_node_of(n, l))
}

/// The place of the folder that the path of a link leads through last, if its contents can be
/// changed.
pub open spec fn folder_of(doc: Json, l: LinkView) -> Option<PlaceView> {
    if l.path_segments.len() == 0 {
        None
    } else {
        match place::navigated_place(doc, l.path_segments.drop_last()) {
            Some(p) => if is_movable(p.child(0)) {
                Some(p)
            } else {
                None
            },
            None => None,
        }
    }
}

/// The first child, from number `i` on, that is the link node of a link and at none of the given
/// places.
pub open spec fn free_child(
    children: Seq<Json>,
    i: int,
    folder: PlaceView,
    l: LinkView,
    taken: Seq<PlaceView>,
) -> Option<int>
    decreases children.len() - i,
{
    if i < 0 || i >= children.len() {
        None
    } else if is_node_of(children[i], l) && !taken.contains(folder.child(i)) {
        Some(i)
    } else {
        free_child(children, i + 1, folder, l, taken)
    }
}

/// The place of a link in a document that may have changed since the link was collected: its own
/// one if it is there, else that of the first link of its name and address in its folder. Places
/// that are taken do not count.
pub open spec fn place_now(doc: Json, l: LinkView, taken: Seq<PlaceView>) -> Option<PlaceView> {
    if is_at(doc, l, l.place) && !taken.contains(l.place) {
        Some(l.place)
    } else {
        match folder_of(doc, l) {
            Some(folder) => match node::children_of(place::node_at(doc, folder)->0) {
                Some(c) => match free_child(c, 0, folder, l, taken) {
                    Some(i) => Some(folder.child(i)),
                    None => None,
                },
                None => None,
            },
            None => None,
        }
    }
}

/// The places of those links that are found, in their order, each place once.
pub open spec fn found_places(doc: Json, links: Seq<LinkView>) -> Seq<PlaceView>
    decreases links.len(),
{
    if links.len() == 0 {
        Seq::empty()
    } else {
        let before = found_places(doc, links.drop_last());
        match place_now(doc, links.last(), before) {
            Some(p) => before.push(p),
            None => before,
        }
    }
}

/// The places that links were collected from.
pub open spec fn link_places(links: Seq<LinkView>) -> Seq<PlaceView> {
    links.map_values(|l: LinkView| l.place)
}

/// The nodes at places.
pub open spec fn nodes_at(doc: Json, places: Seq<PlaceView>) -> Seq<Json> {
    places.map_values(|p: PlaceView| place::node_at(doc, p)->0)
}

/// The contents of the folder of a name among the other bookmarks.
pub open spec fn contents(doc: Json, folder: Seq<char>) -> Option<Seq<Json>> {
    match tree::special_route(doc, folder) {
        Some(route) => node::children_of(tree::fetch(doc, route)->0),
        None => None,
    }
}

/// The document with other contents of the folder of a name among the other bookmarks.
pub open spec fn with_contents(doc: Json, folder: Seq<char>, list: Seq<Json>) -> Json {
    let route = tree::special_route(doc, folder)->0;
    tree::put(doc, route, tree::with_children(tree::fetch(doc, route)->0, list))
}

/// The identifier of the folder that dead links go to, where it has to be made: one that no node
/// has, but for the first link that moves to the trash, which has left its place by then.
pub open spec fn folder_id(doc: Json, places: Seq<PlaceView>, disposal: Disposal) -> Seq<char> {
    if disposal == Disposal::Trash && places.len() > 0 {
        tree::fresh_id(place::pruned_doc(doc, seq![places[0]]))
    } else {
        tree::fresh_id(doc)
    }
}

/// The document with the folder that dead links go to, which is made where it is missing.
pub open spec fn made_folder(
    doc: Json,
    places: Seq<PlaceView>,
    disposal: Disposal,
    mint: MintState,
) -> (Json, MintState) {
    tree::with_folder_as(
        doc,
        disposal_folder(disposal),
        folder_id(doc, places, disposal),
        mint,
    )
}

/// The document with the nodes at places moved to the end of a folder among the other bookmarks,
/// which is made where it is missing, and how many moved. Where that folder cannot take them,
/// none leaves its place.
pub open spec fn moved_to(
    doc: Json,
    places: Seq<PlaceView>,
    disposal: Disposal,
    mint: MintState,
) -> (Json, MintState, nat) {
    let folder = disposal_folder(disposal);
    let (d, m) = made_folder(doc, places, disposal, mint);
    if contents(d, folder) is None {
        (d, m, 0)
    } else {
        let e = place::pruned_doc(d, places);
        let list = contents(e, folder)->0 + nodes_at(doc, places);
        (with_contents(e, folder, list), m, places.len())
    }
}

/// What becomes of dead links, and how many moved. The folder of dead links is made even where
/// none of them is found any more, the trash folder is not.
pub open spec fn disposed(doc: Json, dead: Seq<LinkView>, disposal: Disposal, mint: MintState) -> (
    Json,
    MintState,
    nat,
) {
    let places = found_places(doc, dead);
    if disposal == Disposal::Report || dead.len() == 0 || (disposal == Disposal::Trash
        && places.len() == 0) {
        (doc, mint, 0)
    } else {
        moved_to(doc, places, disposal, mint)
    }
}

/// Tells whether a node is the link node of a link.
fn check_node(n: &Doc, l: &LinkItem) -> (r: bool)
    ensures
        r == is_node_of(n@, l@),
{
    if !node_is_link(n) || !text_eq(node_name(n), l.name.as_str()) {
        return false;
    }
    match n.get_str("url") {
        Some(url) => text_eq(trim(url), l.url.as_str()),
        None => false,
    }
}

/// Tells whether a root folder is one whose contents can be changed.
fn is_changeable(root: &str) -> (r: bool)
    ensures
        r == (root@ == "bookmark_bar"@ || root@ == "other"@ || root@ == "menu"@),
{
    text_eq(root, "bookmark_bar") || text_eq(root, "other") || text_eq(root, "menu")
}

/// Tells whether the link node of a link is still at the place that the link was collected from.
fn check_there(val: &Doc, l: &LinkItem) -> (r: bool)
    ensures
        r == is_at(val@, l@, l@.place),
{
    assert(l.place@.at.len() == l.place.at@.len());
    if !is_changeable(l.place.root.as_str()) || l.place.at.len() == 0 {
        return false;
    }
    match find_node(val, &l.place) {
        None => false,
        Some(n) => check_node(n, l),
    }
}

/// Finds a link in its folder, at none of the given places.
fn find_in_folder(val: &Doc, l: &LinkItem, taken: &Vec<Place>) -> (r: Option<Place>)
    ensures
        (match r {
            Some(p) => Some(p@),
            None => None,
        }) == (match folder_of(val@, l@) {
            Some(folder) => match node::children_of(place::node_at(val@, folder)->0) {
                Some(c) => match free_child(c, 0, folder, l@, place::places_of(taken@)) {
                    Some(i) => Some(folder.child(i)),
                    None => None,
                },
                None => None,
            },
            None => None,
        }),
{
    let n: usize = l.path_segments.len();
    if n == 0 {
        return None;
    }
    let ghost t = place::places_of(taken@);
    let up: &[String] = slice_subrange(l.path_segments.as_slice(), 0, n - 1);
    proof {
        assert(text::texts(up@) =~= l@.path_segments.drop_last());
        place::law_path_leads_to_its_place(val@, l@.path_segments.drop_last());
    }
    let folder: Place = match find_place(val, up) {
        Some(p) => p,
        None => return None,
    };
    if !is_changeable(folder.root.as_str()) {
        return None;
    }
    let children: &Vec<Doc> = match find_node(val, &folder) {
        Some(node) => match node.get_array("children") {
            Some(children) => children,
            None => return None,
        },
        None => return None,
    };
    let ghost c = value::items_of(children@);
    let mut i: usize = 0;
    while i < children.len()
        invariant
            i <= children@.len(),
            c == value::items_of(children@),
            t == place::places_of(taken@),
            folder_of(val@, l@) == Some(folder@),
            node::children_of(place::node_at(val@, folder@)->0) == Some(c),
            free_child(c, 0, folder@, l@, t) == free_child(c, i as int, folder@, l@, t),
        decreases children.len() - i,
    {
        assert(c[i as int] == children@[i as int]@);
        let here: Place = folder.child(i);
        if check_node(&children[i], l) && !holds_place(taken, &here) {
            return Some(here);
        }
        i += 1;
    }
    None
}

/// Finds the place of a link, at none of the given places.
fn find_now(val: &Doc, l: &LinkItem, taken: &Vec<Place>) -> (r: Option<Place>)
    ensures
        (match r {
            Some(p) => Some(p@),
            None => None,
        }) == place_now(val@, l@, place::places_of(taken@)),
{
    if check_there(val, l) && !holds_place(taken, &l.place) {
        Some(l.place.copy())
    } else {
        find_in_folder(val, l, taken)
    }
}

/// Finds links, and gives their places and copies of their nodes.
fn gather(val: &Doc, dead: &[LinkItem]) -> (r: (Vec<Place>, Vec<Doc>))
    ensures
        place::places_of(r.0@) == found_places(val@, check::links_of(dead@)),
        value::items_of(r.1@) == nodes_at(val@, found_places(val@, check::links_of(dead@))),
{
    let ghost all = check::links_of(dead@);
    let mut places: Vec<Place> = Vec::new();
    let mut nodes: Vec<Doc> = Vec::new();
    let mut i: usize = 0;
    proof {
        assert(all.take(0) =~= Seq::empty());
        assert(place::places_of(places@) =~= Seq::empty());
        assert(value::items_of(nodes@) =~= nodes_at(val@, Seq::empty()));
    }
    while i < dead.len()
        invariant
            i <= dead@.len(),
            all == check::links_of(dead@),
            place::places_of(places@) == found_places(val@, all.take(i as int)),
            value::items_of(nodes@) == nodes_at(val@, found_places(val@, all.take(i as int))),
        decreases dead.len() - i,
    {
        let l: &LinkItem = &dead[i];
        let ghost before = found_places(val@, all.take(i as int));
        proof {
            assert(all.take(i + 1).drop_last() =~= all.take(i as int));
            assert(all.take(i + 1).last() == l@);
            lemma_place_now(val@, l@, before);
        }
        if let Some(p) = find_now(val, l, &places) {
            if let Some(n) = find_node(val, &p) {
                let ghost was = places@;
                let ghost had = nodes@;
                let ghost here = p@;
                places.push(p);
                nodes.push(n.clone());
                proof {
                    assert(place::places_of(places@) =~= place::places_of(was).push(here));
                    assert(value::items_of(nodes@) =~= value::items_of(had).push(n@));
                    assert(nodes_at(val@, before.push(here)) =~= nodes_at(val@, before).push(n@));
                }
            }
        }
        i += 1;
    }
    assert(all.take(i as int) =~= all);
    (places, nodes)
}

/// Tells whether the folder of a name among the other bookmarks can take nodes.
fn takes_nodes(val: &mut Doc, folder: &str) -> (r: bool)
    ensures
        final(val)@ == old(val)@,
        r == contents(old(val)@, folder@) is Some,
{
    let ghost doc = val@;
    match special_mut(val, folder) {
        Some(f) => {
            proof {
                tree::lemma_put_same(doc, tree::special_route(doc, folder@)->0);
            }
            f.get_array("children").is_some()
        },
        None => false,
    }
}

/// Adds nodes to the end of the folder of a name among the other bookmarks.
fn add_nodes(val: &mut Doc, folder: &str, nodes: Vec<Doc>)
    requires
        contents(old(val)@, folder@) is Some,
    ensures
        final(val)@ == with_contents(
            old(val)@,
            folder@,
            contents(old(val)@, folder@)->0 + value::items_of(nodes@),
        ),
{
    let mut more: Vec<Doc> = nodes;
    if let Some(f) = special_mut(val, folder) {
        if let Some(children) = f.get_array_mut("children") {
            let ghost before = children@;
            let ghost added = more@;
            children.append(&mut more);
            assert(value::items_of(children@) =~= value::items_of(before) + value::items_of(added));
        }
    }
}

/// An identifier that no node has, but for the node at a place.
fn id_without(val: &Doc, p: &Place) -> (r: String)
    ensures
        r@ == tree::fresh_id(place::pruned_doc(val@, seq![p@])),
{
    let mut rest: Doc = val.clone();
    let mut gone: Vec<Place> = Vec::new();
    gone.push(p.copy());
    assert(place::places_of(gone@) =~= seq![p@]);
    prune_doc(&mut rest, &gone);
    next_id(&rest)
}

/// Moves dead links to where they are to go, and counts those that moved.
pub fn dispose(val: &mut Doc, dead: &[LinkItem], disposal: Disposal, mint: &mut Mint) -> (r: usize)
    ensures
        (final(val)@, final(mint)@, r as nat) == disposed(
            old(val)@,
            check::links_of(dead@),
            disposal,
            old(mint)@,
        ),
{
    let ghost doc = val@;
    let ghost found = found_places(doc, check::links_of(dead@));
    assert(check::links_of(dead@).len() == dead@.len());
    if disposal == Disposal::Report || dead.len() == 0 {
        return 0;
    }
    let (places, nodes): (Vec<Place>, Vec<Doc>) = gather(val, dead);
    let count: usize = places.len();
    assert(place::places_of(places@).len() == count);
    let folder: &str = if disposal == Disposal::Trash {
        if count == 0 {
            return 0;
        }
        let id: String = id_without(val, &places[0]);
        ensure_folder_as(val, TRASH_FOLDER_NAME, id.as_str(), mint);
        TRASH_FOLDER_NAME
    } else {
        ensure_isolate_folder(val, mint);
        ISOLATE_FOLDER_NAME
    };
    if !takes_nodes(val, folder) {
        return 0;
    }
    proof {
        lemma_found_places(doc, check::links_of(dead@));
        lemma_folder_stays(doc, found, disposal, old(mint)@);
    }
    prune_doc(val, &places);
    add_nodes(val, folder, nodes);
    count
}

/// A child that is found is a link node of the link, and none is passed over.
proof fn lemma_free_child(
    c: Seq<Json>,
    i: int,
    folder: PlaceView,
    l: LinkView,
    taken: Seq<PlaceView>,
)
    requires
        0 <= i,
    ensures
        match free_child(c, i, folder, l, taken) {
            Some(k) => i <= k < c.len() && is_node_of(c[k], l) && !taken.contains(folder.child(k)),
            None => forall|k: int|
                i <= k < c.len() ==> !is_node_of(#[trigger] c[k], l) || taken.contains(
                    folder.child(k),
                ),
        },
    decreases c.len() - i,
{
    if i < c.len() {
        lemma_free_child(c, i + 1, folder, l, taken);
    }
}

/// A place that is found for a link holds a link node of the link, and is not taken.
proof fn lemma_place_now(doc: Json, l: LinkView, taken: Seq<PlaceView>)
    ensures
        place_now(doc, l, taken) matches Some(p) ==> is_at(doc, l, p) && !taken.contains(p),
{
    if let Some(p) = place_now(doc, l, taken) {
        if !(is_at(doc, l, l.place) && !taken.contains(l.place)) {
            let folder = folder_of(doc, l)->0;
            place::law_path_leads_to_its_place(doc, l.path_segments.drop_last());
            let c = node::children_of(place::node_at(doc, folder)->0)->0;
            lemma_free_child(c, 0, folder, l, taken);
            let i = free_child(c, 0, folder, l, taken)->0;
            place::lemma_child_place(doc, folder, i);
        }
    }
}

/// There is a link node at every place that is found, and it can be moved from there.
proof fn lemma_found_places(doc: Json, dead: Seq<LinkView>)
    ensures
        are_links_at(doc, found_places(doc, dead)),
    decreases dead.len(),
{
    if dead.len() > 0 {
        lemma_found_places(doc, dead.drop_last());
        let before = found_places(doc, dead.drop_last());
        let all = found_places(doc, dead);
        lemma_place_now(doc, dead.last(), before);
        assert forall|i: int| 0 <= i < all.len() implies is_link_at(doc, #[trigger] all[i]) by {
            if i < before.len() {
                assert(all[i] == before[i]);
            }
        }
    }
}

/// A link node is at a place, and can be moved from there.
pub open spec fn is_link_at(doc: Json, p: PlaceView) -> bool {
    is_movable(p) && (place::node_at(doc, p) matches Some(n) && node::is_link(n))
}

/// Link nodes are at places, and can be moved from there.
pub open spec fn are_links_at(doc: Json, places: Seq<PlaceView>) -> bool {
    forall|i: int| 0 <= i < places.len() ==> is_link_at(doc, #[trigger] places[i])
}

/// The folder that links move to takes them after they have left their places.
proof fn lemma_folder_stays(
    doc: Json,
    gone: Seq<PlaceView>,
    disposal: Disposal,
    mint: MintState,
)
    requires
        are_links_at(doc, gone),
        contents(made_folder(doc, gone, disposal, mint).0, disposal_folder(disposal)) is Some,
    ensures
        ({
            let folder = disposal_folder(disposal);
            let d = made_folder(doc, gone, disposal, mint).0;
            let p = folder_place(d, folder);
            let e = place::pruned_doc(d, gone);
            &&& place::node_at(d, p) is Some
            &&& node::children_of(place::node_at(d, p)->0) == contents(d, folder)
            &&& contents(e, folder) == node::children_of(
                place::pruned(place::node_at(d, p)->0, p, gone),
            )
            &&& contents(e, folder) is Some
        }),
{
    reveal_strlit("url");
    reveal_strlit("folder");
    let folder = disposal_folder(disposal);
    let id = folder_id(doc, gone, disposal);
    let d = made_folder(doc, gone, disposal, mint).0;
    assert forall|g: PlaceView| #[trigger] gone.contains(g) implies (place::node_at(d, g) matches Some(
        n,
    ) && !tree::folder_named(folder)(n)) by {
        let i = choose|i: int| 0 <= i < gone.len() && gone[i] == g;
        assert(is_link_at(doc, gone[i]));
        place::law_made_folder_moves_nothing(doc, folder, id, mint, g);
        assert("url"@.len() == 3 && "folder"@.len() == 6);
    }
    place::law_folder_outlives_pruning(d, gone, folder);
    let p = folder_place(d, folder);
    place::law_only_the_given_leave(place::node_at(d, p)->0, p, gone);
}

/// The place of the first folder of a name among the other bookmarks.
pub open spec fn folder_place(doc: Json, folder: Seq<char>) -> PlaceView {
    PlaceView {
        root: "other"@,
        at: seq![text::first_index(tree::other_children(doc)->0, tree::folder_named(folder))->0],
    }
}

/// Tells whether the bookmarks are to be written: dead links are to move, and there are some.
pub fn writes_back(disposal: Disposal, dead: usize) -> (r: bool)
    ensures
        r == (disposal != Disposal::Report && dead > 0),
{
    disposal != Disposal::Report && dead > 0
}

/// The name of the folder that dead links go to.
pub open spec fn disposal_folder(disposal: Disposal) -> Seq<char> {
    if disposal == Disposal::Trash {
        TRASH_FOLDER_NAME@
    } else {
        ISOLATE_FOLDER_NAME@
    }
}

/// The message on how many dead links moved.
pub fn disposal_message(moved: usize, disposal: Disposal) -> (r: String)
    ensures
        r@ == "Successfully moved "@ + number::decimal(moved as nat) + " dead bookmark(s) to '"@
            + disposal_folder(disposal) + "'.\n"@,
{
    let mut out: String = "Successfully moved ".to_owned();
    out.append(decimal_text(moved as u128).as_str());
    out.append(" dead bookmark(s) to '");
    out.append(
        if disposal == Disposal::Trash {
            TRASH_FOLDER_NAME
        } else {
            ISOLATE_FOLDER_NAME
        },
    );
    out.append("'.\n");
    out
}

// ---------------------------------------------------------------------------
// Laws
// ---------------------------------------------------------------------------

/// No name stands before one on its left.
pub open spec fn in_name_order(s: Seq<CheckedView>) -> bool {
    forall|i: int, j: int|
        0 <= i < j < s.len() ==> !text::less(
            #[trigger] s[j].item.name,
            #[trigger] s[i].item.name,
        )
}

/// Filing keeps the order, and adds just the link that is filed.
proof fn lemma_filed(s: Seq<CheckedView>, x: CheckedView)
    requires
        in_name_order(s),
    ensures
        in_name_order(filed(s, x)),
        filed(s, x).to_multiset() == s.to_multiset().insert(x),
        forall|i: int| 0 <= i < filed(s, x).len() ==> #[trigger] filed(s, x)[i] == x || s.contains(
            filed(s, x)[i],
        ),
    decreases s.len(),
{
    let t = filed(s, x);
    s.to_multiset_ensures();
    if s.len() > 0 && text::less(x.item.name, s.last().item.name) {
        let rest = s.drop_last();
        let placed = filed(rest, x);
        assert(in_name_order(rest)) by {
            assert forall|i: int, j: int| 0 <= i < j < rest.len() implies !text::less(
                #[trigger] rest[j].item.name,
                #[trigger] rest[i].item.name,
            ) by {
                assert(s[i] == rest[i] && s[j] == rest[j]);
                assert(!text::less(s[j].item.name, s[i].item.name));
            }
        }
        lemma_filed(rest, x);
        rest.to_multiset_ensures();
        placed.to_multiset_ensures();
        assert(s =~= rest.push(s.last()));
        assert(t.to_multiset() =~= s.to_multiset().insert(x));
        assert forall|i: int| 0 <= i < t.len() implies #[trigger] t[i] == x || s.contains(t[i]) by {
            if i < t.len() - 1 {
                assert(t[i] == placed[i]);
                if placed[i] != x {
                    let k = choose|k: int| 0 <= k < rest.len() && rest[k] == placed[i];
                    assert(s[k] == t[i]);
                }
            } else {
                assert(s[s.len() - 1] == t[i]);
            }
        }
        assert forall|i: int, j: int| 0 <= i < j < t.len() implies !text::less(
            #[trigger] t[j].item.name,
            #[trigger] t[i].item.name,
        ) by {
            assert(t[i] == placed[i]);
            if j < t.len() - 1 {
                assert(t[j] == placed[j]);
                assert(!text::less(placed[j].item.name, placed[i].item.name));
            } else if placed[i] == x {
                text::lemma_less_one_way(x.item.name, s.last().item.name);
            } else {
                let k = choose|k: int| 0 <= k < rest.len() && rest[k] == placed[i];
                assert(s[k] == placed[i]);
                assert(!text::less(s[s.len() - 1].item.name, s[k].item.name));
            }
        }
    } else {
        assert forall|i: int| 0 <= i < t.len() implies #[trigger] t[i] == x || s.contains(t[i]) by {
            if i < s.len() {
                assert(s[i] == t[i]);
            }
        }
        assert forall|i: int, j: int| 0 <= i < j < t.len() implies !text::less(
            #[trigger] t[j].item.name,
            #[trigger] t[i].item.name,
        ) by {
            assert(t[i] == s[i]);
            if j < s.len() {
                assert(t[j] == s[j]);
                assert(!text::less(s[j].item.name, s[i].item.name));
            } else {
                if i < s.len() - 1 {
                    assert(!text::less(s[s.len() - 1].item.name, s[i].item.name));
                } else {
                    text::lemma_less_one_way(s[i].item.name, s[i].item.name);
                }
                text::lemma_less_goes_over(s[i].item.name, s.last().item.name, x.item.name);
            }
        }
    }
}

/// The report is in the order of the names, and lists every checked link exactly as often as it
/// was checked.
pub proof fn law_report_is_in_order(s: Seq<CheckedView>)
    ensures
        in_name_order(by_name(s)),
        by_name(s).to_multiset() == s.to_multiset(),
    decreases s.len(),
{
    if s.len() > 0 {
        let rest = s.drop_last();
        law_report_is_in_order(rest);
        lemma_filed(by_name(rest), s.last());
        rest.to_multiset_ensures();
        assert(s =~= rest.push(s.last()));
    }
}

/// A report changes nothing, whatever was found.
pub proof fn law_report_only_changes_nothing(doc: Json, dead: Seq<LinkView>, mint: MintState)
    ensures
        disposed(doc, dead, Disposal::Report, mint) == (doc, mint, 0nat),
{
}

/// Every link is counted once, and the dead ones are those that are handed on.
pub proof fn law_tally_is_complete(s: Seq<CheckedView>)
    ensures
        tally(s).0 + tally(s).1 + tally(s).2 == s.len(),
        dead_among(s).len() == tally(s).2,
    decreases s.len(),
{
    if s.len() > 0 {
        law_tally_is_complete(s.drop_last());
    }
}

/// Just the dead links are handed on: a link whose server only restricts access stays where it
/// is.
pub proof fn law_only_the_dead_are_handed_on(s: Seq<CheckedView>, l: LinkView)
    ensures
        dead_among(s).contains(l) <==> exists|i: int|
            0 <= i < s.len() && (#[trigger] s[i]).item == l && s[i].result is Dead,
    decreases s.len(),
{
    if s.len() > 0 {
        let head = s.drop_last();
        let a = dead_among(head);
        let b = dead_among(s);
        law_only_the_dead_are_handed_on(head, l);
        if b.contains(l) {
            let j = choose|j: int| 0 <= j < b.len() && b[j] == l;
            if j < a.len() {
                assert(a[j] == l);
                let i = choose|i: int|
                    0 <= i < head.len() && (#[trigger] head[i]).item == l && head[i].result is Dead;
                assert(s[i] == head[i]);
            } else {
                assert(s[s.len() - 1].item == l);
            }
        }
        if exists|i: int| 0 <= i < s.len() && (#[trigger] s[i]).item == l && s[i].result is Dead {
            let i = choose|i: int|
                0 <= i < s.len() && (#[trigger] s[i]).item == l && s[i].result is Dead;
            if i < head.len() {
                assert(head[i] == s[i]);
                let j = choose|j: int| 0 <= j < a.len() && a[j] == l;
                assert(b[j] == l);
            } else {
                assert(b[b.len() - 1] == l);
            }
        }
    }
}

/// The folder that dead links go to can take them: it is there and has a list of children, or it
/// can be made since there is a list of other bookmarks.
pub open spec fn can_take(doc: Json, disposal: Disposal) -> bool {
    &&& tree::other_children(doc) is Some
    &&& tree::special_route(doc, disposal_folder(disposal)) is Some ==> contents(
        doc,
        disposal_folder(disposal),
    ) is Some
}

/// The folder can take links if and only if it has contents once it has been looked for.
proof fn lemma_can_take(doc: Json, places: Seq<PlaceView>, disposal: Disposal, mint: MintState)
    ensures
        ({
            let made = made_folder(doc, places, disposal, mint).0;
            &&& can_take(doc, disposal) <==> contents(made, disposal_folder(disposal)) is Some
            &&& !can_take(doc, disposal) ==> made == doc
        }),
{
    if tree::other_children(doc) is Some {
        tree::law_missing_folder_is_made(
            doc,
            disposal_folder(disposal),
            folder_id(doc, places, disposal),
            mint,
        );
    }
}

/// Where the folder that dead links are to go to cannot take any, none moves and none is lost.
pub proof fn law_no_folder_loses_nothing(
    doc: Json,
    dead: Seq<LinkView>,
    disposal: Disposal,
    mint: MintState,
)
    requires
        !can_take(doc, disposal),
    ensures
        disposed(doc, dead, disposal, mint).0 == doc,
        disposed(doc, dead, disposal, mint).2 == 0,
{
    lemma_can_take(doc, found_places(doc, dead), disposal, mint);
}

/// A dead link moves although the document has changed since it was checked: it is found at its
/// place, or else in the folder that its path leads to, if a link of its name and address is there
/// that no other dead link is found at. What is found is always such a link.
pub proof fn law_dead_link_is_found_again(doc: Json, l: LinkView, taken: Seq<PlaceView>)
    ensures
        place_now(doc, l, taken) matches Some(p) ==> is_at(doc, l, p) && !taken.contains(p),
        is_at(doc, l, l.place) && !taken.contains(l.place) ==> place_now(doc, l, taken) == Some(
            l.place,
        ),
        forall|folder: PlaceView, k: int|
            folder_of(doc, l) == Some(folder) && is_at(doc, l, #[trigger] folder.child(k))
                && !taken.contains(folder.child(k)) ==> place_now(doc, l, taken) is Some,
{
    lemma_place_now(doc, l, taken);
    assert forall|folder: PlaceView, k: int|
        folder_of(doc, l) == Some(folder) && is_at(doc, l, #[trigger] folder.child(k))
            && !taken.contains(folder.child(k)) implies place_now(doc, l, taken) is Some by {
        place::law_path_leads_to_its_place(doc, l.path_segments.drop_last());
        place::lemma_parent_place(doc, folder.child(k));
        assert(folder.child(k).parent().at =~= folder.at);
        assert(folder.child(k).parent() == folder);
        let c = node::children_of(place::node_at(doc, folder)->0)->0;
        lemma_free_child(c, 0, folder, l, taken);
        assert(is_node_of(c[k], l));
    }
}

/// Every dead link that is found moves, if the folder that dead links go to can take them.
pub proof fn law_found_links_move(
    doc: Json,
    dead: Seq<LinkView>,
    disposal: Disposal,
    mint: MintState,
)
    requires
        disposal != Disposal::Report,
        found_places(doc, dead).len() > 0,
        can_take(doc, disposal),
    ensures
        ({
            let folder = disposal_folder(disposal);
            let gone = found_places(doc, dead);
            let left = place::pruned_doc(made_folder(doc, gone, disposal, mint).0, gone);
            let (after, _, count) = disposed(doc, dead, disposal, mint);
            &&& count == gone.len()
            &&& contents(left, folder) is Some
            &&& contents(after, folder) == Some(contents(left, folder)->0 + nodes_at(doc, gone))
        }),
{
    let folder = disposal_folder(disposal);
    let gone = found_places(doc, dead);
    let left = place::pruned_doc(made_folder(doc, gone, disposal, mint).0, gone);
    lemma_can_take(doc, gone, disposal, mint);
    lemma_found_places(doc, dead);
    lemma_folder_stays(doc, gone, disposal, mint);
    tree::lemma_special_filled(left, folder, contents(left, folder)->0 + nodes_at(doc, gone));
}

/// The results are those of links that are checked at a path, each of them once.
pub open spec fn are_results(
    s: Seq<CheckedView>,
    doc: Json,
    path: Seq<Seq<char>>,
    written: Seq<char>,
) -> bool {
    &&& check::checked_links(doc, path, written) matches Ok(links)
    &&& forall|i: int| 0 <= i < s.len() ==> links.contains((#[trigger] s[i]).item)
    &&& forall|i: int, j: int|
        0 <= i < j < s.len() ==> (#[trigger] s[i]).item != (#[trigger] s[j]).item
}

/// Results of checked links are those of link nodes at places that are all different.
proof fn lemma_results(
    s: Seq<CheckedView>,
    doc: Json,
    path: Seq<Seq<char>>,
    written: Seq<char>,
)
    requires
        are_results(s, doc, path, written),
    ensures
        forall|i: int| 0 <= i < s.len() ==> check::is_link_of((#[trigger] s[i]).item, doc),
        forall|i: int, j: int|
            0 <= i < j < s.len() ==> check::are_apart(
                (#[trigger] s[i]).item.place,
                (#[trigger] s[j]).item.place,
            ),
{
    let links = check::checked_links(doc, path, written)->Ok_0;
    check::law_checked_link_is_found_again(doc, path, written);
    assert forall|i: int| 0 <= i < s.len() implies check::is_link_of((#[trigger] s[i]).item, doc) by {
        let k = choose|k: int| 0 <= k < links.len() && links[k] == s[i].item;
        assert(check::is_link_of(links[k], doc));
    }
    assert forall|i: int, j: int| 0 <= i < j < s.len() implies check::are_apart(
        (#[trigger] s[i]).item.place,
        (#[trigger] s[j]).item.place,
    ) by {
        let k = choose|k: int| 0 <= k < links.len() && links[k] == s[i].item;
        let m = choose|m: int| 0 <= m < links.len() && links[m] == s[j].item;
        assert(links.contains(s[i].item) && links.contains(s[j].item));
        if k < m {
            assert(check::are_apart(links[k].place, links[m].place));
        } else {
            assert(k != m);
            assert(check::are_apart(links[m].place, links[k].place));
        }
    }
}

/// The dead among the first results are all there, with places that none of the later ones has.
proof fn lemma_dead_are_there(s: Seq<CheckedView>, doc: Json)
    requires
        forall|i: int| 0 <= i < s.len() ==> check::is_link_of((#[trigger] s[i]).item, doc),
        forall|i: int, j: int|
            0 <= i < j < s.len() ==> check::are_apart(
                (#[trigger] s[i]).item.place,
                (#[trigger] s[j]).item.place,
            ),
        forall|i: int|
            0 <= i < s.len() && s[i].result is Dead ==> is_movable((#[trigger] s[i]).item.place),
    ensures
        found_places(doc, dead_among(s)) == link_places(dead_among(s)),
        forall|p: PlaceView| #[trigger]
            link_places(dead_among(s)).contains(p) <==> exists|i: int|
                0 <= i < s.len() && (#[trigger] s[i]).item.place == p && s[i].result is Dead,
    decreases s.len(),
{
    let b = dead_among(s);
    if s.len() > 0 {
        let head = s.drop_last();
        let a = dead_among(head);
        let x = s.last();
        assert forall|i: int| 0 <= i < head.len() implies check::is_link_of(
            (#[trigger] head[i]).item,
            doc,
        ) && (head[i].result is Dead ==> is_movable(head[i].item.place)) by {
            assert(head[i] == s[i]);
        }
        assert forall|i: int, j: int| 0 <= i < j < head.len() implies check::are_apart(
            (#[trigger] head[i]).item.place,
            (#[trigger] head[j]).item.place,
        ) by {
            assert(head[i] == s[i] && head[j] == s[j]);
        }
        lemma_dead_are_there(head, doc);
        if x.result is Dead {
            let p = x.item.place;
            if link_places(a).contains(p) {
                let i = choose|i: int|
                    0 <= i < head.len() && (#[trigger] head[i]).item.place == p
                        && head[i].result is Dead;
                assert(check::are_apart(s[i].item.place, s[s.len() - 1].item.place));
            }
            let n = place::node_at(doc, p)->0;
            assert(check::is_link_of(s[s.len() - 1].item, doc));
            let own = check::own_link(n, x.item.path_segments, p);
            assert(own.len() == 1 && own[0] == x.item);
            assert(is_movable(s[s.len() - 1].item.place));
            assert(is_at(doc, x.item, p));
            assert(b.drop_last() =~= a);
            assert(link_places(b) =~= link_places(a).push(p));
        }
        assert forall|p: PlaceView| #[trigger] link_places(b).contains(p) implies exists|i: int|
            0 <= i < s.len() && (#[trigger] s[i]).item.place == p && s[i].result is Dead by {
            let j = choose|j: int| 0 <= j < b.len() && link_places(b)[j] == p;
            if j < a.len() {
                assert(link_places(a)[j] == p);
                assert(link_places(a).contains(p));
                let i = choose|i: int|
                    0 <= i < head.len() && (#[trigger] head[i]).item.place == p
                        && head[i].result is Dead;
                assert(s[i] == head[i]);
            } else {
                assert(s[s.len() - 1].item.place == p);
            }
        }
        assert forall|p: PlaceView|
            exists|i: int|
                0 <= i < s.len() && (#[trigger] s[i]).item.place == p && s[i].result is Dead
            implies #[trigger] link_places(b).contains(p) by {
            let i = choose|i: int|
                0 <= i < s.len() && (#[trigger] s[i]).item.place == p && s[i].result is Dead;
            if i < head.len() {
                assert(head[i] == s[i]);
                assert(link_places(a).contains(p));
                let j = choose|j: int| 0 <= j < link_places(a).len() && link_places(a)[j] == p;
                assert(b[j] == a[j]);
                assert(link_places(b)[j] == p);
            } else {
                assert(link_places(b)[b.len() - 1] == p);
            }
        }
    } else {
        assert(found_places(doc, b) =~= link_places(b));
    }
}

/// The dead links leave their folders, and only they: of the links that were checked, those judged
/// dead stand at the end of the folder that they are to go to, each with all its members and in
/// the order of the results, behind what that folder held; whatever else stands below a root
/// folder stays there. The folder is made where it is missing.
pub proof fn law_dead_links_move(
    doc: Json,
    path: Seq<Seq<char>>,
    written: Seq<char>,
    s: Seq<CheckedView>,
    disposal: Disposal,
    mint: MintState,
)
    requires
        are_results(s, doc, path, written),
        disposal != Disposal::Report,
        dead_among(s).len() > 0,
        forall|i: int|
            0 <= i < s.len() && s[i].result is Dead ==> is_movable((#[trigger] s[i]).item.place),
        can_take(doc, disposal),
    ensures
        ({
            let folder = disposal_folder(disposal);
            let dead = dead_among(s);
            let gone = link_places(dead);
            let made = made_folder(doc, gone, disposal, mint).0;
            let left = place::pruned_doc(made, gone);
            let (after, _, count) = disposed(doc, dead, disposal, mint);
            &&& count == tally(s).2
            &&& forall|p: PlaceView| #[trigger]
                gone.contains(p) <==> exists|i: int|
                    0 <= i < s.len() && (#[trigger] s[i]).item.place == p && s[i].result is Dead
            &&& forall|i: int|
                0 <= i < dead.len() ==> place::node_at(made, (#[trigger] dead[i]).place)
                    == place::node_at(doc, dead[i].place)
            &&& after == with_contents(
                left,
                folder,
                contents(left, folder)->0 + nodes_at(doc, gone),
            )
            &&& contents(left, folder) == node::children_of(
                place::pruned(
                    place::node_at(made, folder_place(made, folder))->0,
                    folder_place(made, folder),
                    gone,
                ),
            )
            &&& contents(after, folder) == Some(
                contents(left, folder)->0 + nodes_at(doc, gone),
            )
        }),
{
    let folder = disposal_folder(disposal);
    let dead = dead_among(s);
    let gone = link_places(dead);
    let made = made_folder(doc, gone, disposal, mint).0;
    let id = folder_id(doc, gone, disposal);
    lemma_can_take(doc, gone, disposal, mint);
    lemma_results(s, doc, path, written);
    lemma_dead_are_there(s, doc);
    law_tally_is_complete(s);
    lemma_found_places(doc, dead);
    lemma_folder_stays(doc, gone, disposal, mint);
    assert forall|i: int| 0 <= i < dead.len() implies place::node_at(
        made,
        (#[trigger] dead[i]).place,
    ) == place::node_at(doc, dead[i].place) by {
        assert(is_link_at(doc, gone[i]));
        place::law_made_folder_moves_nothing(doc, folder, id, mint, dead[i].place);
    }
    let left = place::pruned_doc(made, gone);
    tree::lemma_special_filled(
        left,
        folder,
        contents(left, folder)->0 + nodes_at(doc, gone),
    );
}

/// Adding to a folder among the other bookmarks leaves every node that is no folder where it is,
/// as it is.
proof fn lemma_added_moves_nothing(doc: Json, folder: Seq<char>, more: Seq<Json>, q: PlaceView)
    requires
        contents(doc, folder) is Some,
        place::node_at(doc, q) is Some,
        q.at.len() > 0,
        !node::is_folder(place::node_at(doc, q)->0),
    ensures
        place::node_at(with_contents(doc, folder, contents(doc, folder)->0 + more), q)
            == place::node_at(doc, q),
{
    let list = contents(doc, folder)->0 + more;
    let c = tree::other_children(doc)->0;
    let f = tree::folder_named(folder);
    let j = text::first_index(c, f)->0;
    text::lemma_first_index(c, f);
    let x = tree::with_children(c[j], list);
    let other = tree::root_folder(doc, "other"@)->0;
    let after = with_contents(doc, folder, list);
    tree::lemma_special_item(doc, c, j, x);
    tree::lemma_other_list(doc, Json::Array(c.update(j, x)));
    let top = tree::with_children(other, c.update(j, x));
    assert(after == tree::put(doc, tree::root_route("other"@), top));
    if q.root == "other"@ {
        tree::lemma_put_fetch(doc, tree::root_route("other"@), top);
        assert(node::children_of(top) == Some(c.update(j, x)));
        let rest = q.at.drop_first();
        assert(place::node_at(doc, q) == place::below(c[q.at[0]], rest));
        assert(place::node_at(after, q) == place::below(c.update(j, x)[q.at[0]], rest));
        if q.at[0] == j {
            assert(rest.len() > 0);
            assert(node::children_of(x) == Some(list));
            assert(node::children_of(c[j]) == contents(doc, folder));
            assert(list[rest[0]] == contents(doc, folder)->0[rest[0]]);
        }
    } else {
        place::lemma_other_root(doc, "other"@, top, q.root);
    }
}

/// A link that was not judged dead stays in its folder as it is, whatever links of the same name
/// leave: the folder still holds it, and it is found as many steps below the same root folder.
pub proof fn law_live_link_stays(
    doc: Json,
    path: Seq<Seq<char>>,
    written: Seq<char>,
    s: Seq<CheckedView>,
    disposal: Disposal,
    mint: MintState,
    k: int,
)
    requires
        are_results(s, doc, path, written),
        forall|i: int|
            0 <= i < s.len() && s[i].result is Dead ==> is_movable((#[trigger] s[i]).item.place),
        0 <= k < s.len(),
        !(s[k].result is Dead),
        is_movable(s[k].item.place),
    ensures
        ({
            let p = s[k].item.place;
            let gone = link_places(dead_among(s));
            let made = made_folder(doc, gone, disposal, mint).0;
            let after = disposed(doc, dead_among(s), disposal, mint).0;
            &&& place::node_at(doc, p) matches Some(link)
            &&& place::node_at(made, p.parent()) matches Some(folder)
            &&& node::children_of(place::pruned(folder, p.parent(), gone)) matches Some(left)
            &&& left.contains(link)
            &&& exists|q: PlaceView|
                q.root == p.root && q.at.len() == p.at.len() && #[trigger] place::node_at(after, q)
                    == Some(link)
        }),
{
    let p = s[k].item.place;
    let up = p.parent();
    let i = p.at.last();
    let dead = dead_among(s);
    let gone = link_places(dead);
    let folder = disposal_folder(disposal);
    let made = made_folder(doc, gone, disposal, mint).0;
    let id = folder_id(doc, gone, disposal);
    let after = disposed(doc, dead, disposal, mint).0;
    lemma_results(s, doc, path, written);
    lemma_dead_are_there(s, doc);
    assert(check::is_link_of(s[k].item, doc));
    let link = place::node_at(doc, p)->0;
    place::law_made_folder_moves_nothing(doc, folder, id, mint, p);
    place::lemma_parent_place(made, p);
    let above = place::node_at(made, up)->0;
    let c = node::children_of(above)->0;
    assert(up.child(i).at =~= p.at);
    assert(up.child(i) == p);
    assert forall|g: PlaceView| #[trigger] gone.contains(g) implies check::are_apart(g, p) by {
        let j = choose|j: int|
            0 <= j < s.len() && (#[trigger] s[j]).item.place == g && s[j].result is Dead;
        if j < k {
            assert(check::are_apart(s[j].item.place, s[k].item.place));
        } else {
            assert(check::are_apart(s[k].item.place, s[j].item.place));
        }
    }
    place::law_nothing_else_changes(link, p, gone);
    place::law_only_the_given_leave(above, up, gone);
    assert(!gone.contains(up.child(i)));
    assert(place::pruned(c[i], up.child(i), gone) == c[i]);
    if after == doc {
        assert(place::node_at(after, p) == Some(link));
    } else if after == made {
        assert(place::node_at(after, p) == Some(link));
    } else {
        let top = PlaceView { root: p.root, at: Seq::empty() };
        let root = tree::root_folder(made, p.root)->0;
        let left = place::pruned_doc(made, gone);
        assert(top.at + p.at =~= p.at);
        assert forall|m: int| 0 < m <= p.at.len() implies !gone.contains(
            PlaceView { root: top.root, at: top.at + #[trigger] p.at.take(m) },
        ) by {
            let g = PlaceView { root: top.root, at: top.at + p.at.take(m) };
            assert(g.at =~= p.at.take(m));
            if m == p.at.len() {
                assert(g.at =~= p.at);
            }
            assert(check::is_within(p, g));
        }
        let at = place::lemma_stays_below(root, top, p.at, gone);
        let q = PlaceView { root: p.root, at };
        place::law_each_root_is_pruned(made, gone, p.root);
        assert(place::node_at(left, q) == Some(link));
        lemma_found_places(doc, dead);
        lemma_folder_stays(doc, gone, disposal, mint);
        lemma_link_is_no_folder(link);
        lemma_added_moves_nothing(left, folder, nodes_at(doc, gone), q);
        assert(place::node_at(after, q) == Some(link));
    }
}

/// A link is no folder.
proof fn lemma_link_is_no_folder(n: Json)
    requires
        node::is_link(n),
    ensures
        !node::is_folder(n),
{
    reveal_strlit("url");
    reveal_strlit("folder");
    assert("url"@.len() == 3 && "folder"@.len() == 6);
}

/// Every link has its line in the report, one behind the other.
pub proof fn law_each_link_has_its_line(s: Seq<CheckedView>, c: CheckedView)
    ensures
        report_lines(Seq::empty()).len() == 0,
        report_lines(s.push(c)) == report_lines(s) + report_line(c),
{
    reveal_strlit("");
    assert(s.push(c).drop_last() =~= s);
}

/// The mark of the state of a link.
pub open spec fn state_mark(r: ResultView) -> Seq<char> {
    match r {
        ResultView::Alive(_) => "[ OK ] "@,
        ResultView::Warn(..) => "[WARN] "@,
        ResultView::Dead(..) => "[DEAD] "@,
    }
}

/// The line of a link begins with its state, and goes on with its code, its name and its address;
/// a link that is not alive has the reason behind its address.
#[verifier::rlimit(40)]
pub proof fn law_line_tells_its_link(c: CheckedView)
    ensures
        text::begins_with(report_line(c), state_mark(c.result)),
        match c.result {
            ResultView::Alive(code) => {
                &&& has_end(report_line(c), " | "@ + c.item.name + " ("@ + c.item.url + ")\n"@)
                &&& code >= 100 ==> report_line(c) == "[ OK ] "@ + number::decimal(code as nat)
                    + " | "@ + c.item.name + " ("@ + c.item.url + ")\n"@
            },
            ResultView::Warn(code, why) => {
                &&& has_end(
                    report_line(c),
                    " | "@ + c.item.name + " ("@ + c.item.url + " - "@ + why + ")\n"@,
                )
                &&& code >= 100 ==> report_line(c) == "[WARN] "@ + number::decimal(code as nat)
                    + " | "@ + c.item.name + " ("@ + c.item.url + " - "@ + why + ")\n"@
            },
            ResultView::Dead(code, why) => {
                &&& has_end(
                    report_line(c),
                    " | "@ + c.item.name + " ("@ + c.item.url + " - "@ + why + ")\n"@,
                )
                &&& code >= 100 ==> report_line(c) == "[DEAD] "@ + number::decimal(code as nat)
                    + " | "@ + c.item.name + " ("@ + c.item.url + " - "@ + why + ")\n"@
                &&& code == 0 ==> report_line(c) == "[DEAD] ---"@ + " | "@ + c.item.name + " ("@
                    + c.item.url + " - "@ + why + ")\n"@
            },
        },
{
    reveal_strlit("");
    reveal_strlit("---");
    reveal_strlit("[DEAD] ");
    reveal_strlit("[DEAD] ---");
    let line = report_line(c);
    let mark = state_mark(c.result);
    assert(line.take(mark.len() as int) =~= mark);
    match c.result {
        ResultView::Alive(code) => {
            let d = number::decimal(code as nat);
            let tail = " | "@ + c.item.name + " ("@ + c.item.url + ")\n"@;
            assert(line =~= mark + blanks(3 - d.len()) + d + tail);
            assert(line.skip(line.len() - tail.len()) =~= tail);
            if code >= 100 {
                lemma_three_digits(code as nat);
                assert(line =~= mark + d + tail);
            }
        },
        ResultView::Warn(code, why) => {
            let d = number::decimal(code as nat);
            let tail = " | "@ + c.item.name + " ("@ + c.item.url + " - "@ + why + ")\n"@;
            assert(line =~= mark + blanks(3 - d.len()) + d + tail);
            assert(line.skip(line.len() - tail.len()) =~= tail);
            if code >= 100 {
                lemma_three_digits(code as nat);
                assert(line =~= mark + d + tail);
            }
        },
        ResultView::Dead(code, why) => {
            let d = shown_code(code);
            let tail = " | "@ + c.item.name + " ("@ + c.item.url + " - "@ + why + ")\n"@;
            assert(line =~= mark + d + blanks(3 - d.len()) + tail);
            assert(line.skip(line.len() - tail.len()) =~= tail);
            if code >= 100 {
                lemma_three_digits(code as nat);
                assert(line =~= mark + d + tail);
            }
            if code == 0 {
                assert("[DEAD] ---"@ =~= "[DEAD] "@ + "---"@);
                assert(blanks(0) =~= ""@);
                assert(line =~= "[DEAD] ---"@ + tail);
            }
        },
    }
}

/// A text ends with another one.
pub open spec fn has_end(s: Seq<char>, p: Seq<char>) -> bool {
    p.len() <= s.len() && s.skip(s.len() - p.len()) == p
}

/// A number of three digits or more needs no blanks.
proof fn lemma_three_digits(n: nat)
    requires
        n >= 100,
    ensures
        number::decimal(n).len() >= 3,
        blanks(3 - number::decimal(n).len()).len() == 0,
{
    reveal_strlit("");
    reveal_with_fuel(number::decimal, 3);
    number::lemma_decimal_digits(n / 100);
    assert(n / 10 >= 10);
    assert(n / 10 / 10 == n / 100);
    number::lemma_decimal_digits(n / 10 / 10);
}

/// The links are counted one by one: each counts once, by its state.
pub proof fn law_links_are_counted_one_by_one(s: Seq<CheckedView>, c: CheckedView)
    ensures
        tally(Seq::empty()) == (0nat, 0nat, 0nat),
        c.result is Alive ==> tally(s.push(c)) == (tally(s).0 + 1, tally(s).1, tally(s).2),
        c.result is Warn ==> tally(s.push(c)) == (tally(s).0, tally(s).1 + 1, tally(s).2),
        c.result is Dead ==> tally(s.push(c)) == (tally(s).0, tally(s).1, tally(s).2 + 1),
{
    assert(s.push(c).drop_last() =~= s);
}

/// The foot of the report tells how many links were checked, and how many of them are alive,
/// restricted and dead.
#[verifier::rlimit(40)]
pub proof fn law_foot_tells_the_counts(total: nat, counts: (nat, nat, nat))
    ensures
        export::has_part(
            report_foot(total, counts),
            "Link Check Summary: "@ + number::decimal(total) + " checked\n"@,
        ),
        export::has_part(
            report_foot(total, counts),
            "  - OK   : "@ + number::decimal(counts.0) + "\n"@,
        ),
        export::has_part(
            report_foot(total, counts),
            "  - WARN : "@ + number::decimal(counts.1) + " (Maintained)\n"@,
        ),
        export::has_part(
            report_foot(total, counts),
            "  - DEAD : "@ + number::decimal(counts.2) + "\n"@,
        ),
{
    let f = report_foot(total, counts);
    let a = "Link Check Summary: "@ + number::decimal(total) + " checked\n"@;
    let b = "  - OK   : "@ + number::decimal(counts.0) + "\n"@;
    let c = "  - WARN : "@ + number::decimal(counts.1) + " (Maintained)\n"@;
    let d = "  - DEAD : "@ + number::decimal(counts.2) + "\n"@;
    export::lemma_is_part(f, RULE@, a, b + c + d + RULE@);
    export::lemma_is_part(f, RULE@ + a, b, c + d + RULE@);
    export::lemma_is_part(f, RULE@ + a + b, c, d + RULE@);
    export::lemma_is_part(f, RULE@ + a + b + c, d, RULE@);
}

/// Dead links move only where an option asks for it; where both options are given they go to the
/// trash.
pub proof fn law_options_say_where_dead_links_go(to_trash: bool, to_isolate: bool)
    ensures
        asked_disposal(to_trash, to_isolate) == Disposal::Trash <==> to_trash,
        asked_disposal(to_trash, to_isolate) == Disposal::Report <==> !to_trash && !to_isolate,
        disposal_folder(Disposal::Trash) == "ゴミ箱"@,
        disposal_folder(Disposal::Isolate) == "リンク切れ"@,
{
}

/// A dead link that is no longer at its place is found in the folder that its path leads to: the
/// first link there, of its name and address, that no other dead link is found at.
pub proof fn law_shifted_link_is_found_in_its_folder(
    doc: Json,
    l: LinkView,
    taken: Seq<PlaceView>,
    folder: PlaceView,
    k: int,
)
    requires
        l.path_segments.len() > 0,
        place::navigated_place(doc, l.path_segments.drop_last()) == Some(folder),
        folder.root == "bookmark_bar"@ || folder.root == "other"@ || folder.root == "menu"@,
        !(is_movable(l.place) && (place::node_at(doc, l.place) matches Some(n) && is_node_of(n, l))),
        node::children_of(place::node_at(doc, folder)->0) matches Some(c) && 0 <= k < c.len()
            && is_node_of(c[k], l),
        !taken.contains(folder.child(k)),
        forall|j: int|
            0 <= j < k ==> !is_node_of(
                #[trigger] node::children_of(place::node_at(doc, folder)->0)->0[j],
                l,
            ) || taken.contains(folder.child(j)),
    ensures
        place_now(doc, l, taken) == Some(folder.child(k)),
{
    let c = node::children_of(place::node_at(doc, folder)->0)->0;
    lemma_first_free_child(c, 0, k, folder, l, taken);
}

/// The first free child is found.
proof fn lemma_first_free_child(
    c: Seq<Json>,
    i: int,
    k: int,
    folder: PlaceView,
    l: LinkView,
    taken: Seq<PlaceView>,
)
    requires
        0 <= i <= k < c.len(),
        is_node_of(c[k], l),
        !taken.contains(folder.child(k)),
        forall|j: int|
            i <= j < k ==> !is_node_of(#[trigger] c[j], l) || taken.contains(folder.child(j)),
    ensures
        free_child(c, i, folder, l, taken) == Some(k),
    decreases k - i,
{
    if i < k {
        lemma_first_free_child(c, i + 1, k, folder, l, taken);
    }
}

/// The head of the report tells the browser, the number of links, the timeout, the number of
/// requests at a time and what becomes of dead links.
#[verifier::rlimit(40)]
pub proof fn law_head_tells_what_is_done(
    profile_name: Seq<char>,
    total: nat,
    timeout_secs: nat,
    threads: nat,
    disposal: Disposal,
)
    ensures
        ({
            let h = report_head(profile_name, total, timeout_secs, threads, disposal);
            &&& export::has_part(
                h,
                "Link Check: ["@ + profile_name + "] ("@ + number::decimal(total) + " items)\n"@,
            )
            &&& export::has_part(h, "Timeout: "@ + number::decimal(timeout_secs) + "s"@)
            &&& export::has_part(h, "Concurrency: "@ + number::decimal(threads) + " threads\n"@)
            &&& export::has_part(h, disposal_text(disposal) + "\n"@)
        }),
{
    reveal_strlit("  auxbookmark Link Check: [");
    reveal_strlit("  auxbookmark ");
    reveal_strlit("Link Check: [");
    reveal_strlit("  Timeout: ");
    reveal_strlit("  ");
    reveal_strlit("Timeout: ");
    reveal_strlit("s | Concurrency: ");
    reveal_strlit("s");
    reveal_strlit(" | ");
    reveal_strlit("Concurrency: ");
    let h = report_head(profile_name, total, timeout_secs, threads, disposal);
    let n = number::decimal(total);
    let t = number::decimal(timeout_secs);
    let k = number::decimal(threads);
    let mode = disposal_text(disposal) + "\n"@;
    assert("  auxbookmark Link Check: ["@ =~= "  auxbookmark "@ + "Link Check: ["@);
    assert("  Timeout: "@ =~= "  "@ + "Timeout: "@);
    assert("s | Concurrency: "@ =~= "s"@ + " | "@ + "Concurrency: "@);
    let one = "Link Check: ["@ + profile_name + "] ("@ + n + " items)\n"@;
    let two = "Timeout: "@ + t + "s"@;
    let three = "Concurrency: "@ + k + " threads\n"@;
    let a = RULE@ + "  auxbookmark "@;
    let b = " | "@;
    let c = "  Mode   : "@;
    assert(h =~= a + one + "  "@ + two + b + three + c + mode + RULE@);
    lemma_head_parts(h, a, one, "  "@, two, b, three, c, mode, RULE@);
}

/// The parts of texts in a row.
proof fn lemma_head_parts(
    h: Seq<char>,
    a: Seq<char>,
    one: Seq<char>,
    x: Seq<char>,
    two: Seq<char>,
    b: Seq<char>,
    three: Seq<char>,
    c: Seq<char>,
    four: Seq<char>,
    end: Seq<char>,
)
    requires
        h == a + one + x + two + b + three + c + four + end,
    ensures
        export::has_part(h, one),
        export::has_part(h, two),
        export::has_part(h, three),
        export::has_part(h, four),
{
    export::lemma_is_part(h, a, one, x + two + b + three + c + four + end);
    export::lemma_is_part(h, a + one + x, two, b + three + c + four + end);
    export::lemma_is_part(h, a + one + x + two + b, three, c + four + end);
    export::lemma_is_part(h, a + one + x + two + b + three + c, four, end);
}

} // verus!
