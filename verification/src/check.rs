//! Checking links: which links are checked, and what an answer means.
use vstd::prelude::*;
use vstd::string::*;
use crate::fault::{CommandError, Fault, Reason};
use crate::node;
use crate::node::{
    get_node_display_name, node_is_folder, node_is_link, node_name, BOOKMARK_BAR_JP,
    BOOKMARK_MENU_JP, ISOLATE_FOLDER_NAME, OTHER_BOOKMARKS_JP, TRASH_FOLDER_NAME,
};
use crate::number;
use crate::number::{decimal_text, parse_u16};
use crate::place;
use crate::place::{find_node, find_place, Place, PlaceView};
use crate::text;
use crate::text::{copy_part, starts_with, text_eq, trim};
use crate::tree;
use crate::tree::root_folder_ref;
use crate::value;
use crate::value::{Doc, Json};

verus! {

// ---------------------------------------------------------------------------
// The links to check
// ---------------------------------------------------------------------------

/// A link to check: the path it is shown under, its place, its name and its address. Links of one
/// folder may be shown under the same path; their places differ.
#[derive(Debug)]
pub struct LinkItem {
    pub path_segments: Vec<String>,
    pub place: Place,
    pub name: String,
    pub url: String,
}

/// The model of a link to check.
pub struct LinkView {
    pub path_segments: Seq<Seq<char>>,
    pub place: PlaceView,
    pub name: Seq<char>,
    pub url: Seq<char>,
}

impl View for LinkItem {
    type V = LinkView;

    open spec fn view(&self) -> LinkView {
        LinkView {
            path_segments: text::texts(self.path_segments@),
            place: self.place@,
            name: self.name@,
            url: self.url@,
        }
    }
}

impl LinkItem {
    /// A copy of the link.
    pub fn copy(&self) -> (r: LinkItem)
        ensures
            r@ == self@,
    {
        let path_segments: Vec<String> = copy_part(
            self.path_segments.as_slice(),
            0,
            self.path_segments.len(),
        );
        assert(text::texts(path_segments@) =~= text::texts(self.path_segments@));
        LinkItem {
            path_segments,
            place: self.place.copy(),
            name: self.name.clone(),
            url: self.url.clone(),
        }
    }
}

/// The models of a list of links.
pub open spec fn links_of(s: Seq<LinkItem>) -> Seq<LinkView> {
    s.map_values(|l: LinkItem| l@)
}

/// The folder holds what was thrown away or found dead before.
pub open spec fn is_set_aside(n: Json) -> bool {
    node::is_folder(n) && (node::name_of(n) == TRASH_FOLDER_NAME@ || node::name_of(n)
        == ISOLATE_FOLDER_NAME@)
}

/// The address is one on the web.
pub open spec fn is_web_address(url: Seq<char>) -> bool {
    text::begins_with(url, "http://"@) || text::begins_with(url, "https://"@)
}

/// The link of a link node with a web address.
pub open spec fn own_link(n: Json, path: Seq<Seq<char>>, p: PlaceView) -> Seq<LinkView> {
    match n.text_member("url"@) {
        Some(url) => if is_web_address(text::trimmed(url)) {
            seq![
                LinkView {
                    path_segments: path,
                    place: p,
                    name: node::name_of(n),
                    url: text::trimmed(url),
                },
            ]
        } else {
            Seq::empty()
        },
        None => Seq::empty(),
    }
}

/// The links at and below the node at a place, in their order; folders of dead or discarded links are passed
/// over.
pub open spec fn links_at(n: Json, path: Seq<Seq<char>>, p: PlaceView) -> Seq<LinkView>
    decreases n, 0int,
{
    if is_set_aside(n) {
        Seq::empty()
    } else if node::is_link(n) {
        own_link(n, path, p)
    } else if node::is_folder(n) {
        match n {
            Json::Object(o) => if o.dom().contains("children"@) {
                match o["children"@] {
                    Json::Array(c) => links_in(c, c.len() as int, path, p),
                    _ => Seq::empty(),
                }
            } else {
                Seq::empty()
            },
            _ => Seq::empty(),
        }
    } else {
        Seq::empty()
    }
}

/// The links at and below the first `k` children of the folder at a place.
pub open spec fn links_in(
    children: Seq<Json>,
    k: int,
    path: Seq<Seq<char>>,
    p: PlaceView,
) -> Seq<LinkView>
    decreases children, k,
{
    if k <= 0 || k > children.len() {
        Seq::empty()
    } else {
        links_in(children, k - 1, path, p) + links_at(
            children[k - 1],
            path.push(node::display_name(children[k - 1])),
            p.child(k - 1),
        )
    }
}

/// Collects the links at and below the node at a place.
pub fn collect_link_items(
    n: &Doc,
    current_path: &Vec<String>,
    place: &Place,
    out: &mut Vec<LinkItem>,
)
    ensures
        links_of(final(out)@) == links_of(old(out)@) + links_at(
            n@,
            text::texts(current_path@),
            place@,
        ),
    decreases n@,
{
    let ghost before = links_of(out@);
    let ghost path = text::texts(current_path@);
    assert(before + Seq::empty() =~= before);
    let folder: bool = node_is_folder(n);
    if folder && (text_eq(node_name(n), TRASH_FOLDER_NAME) || text_eq(
        node_name(n),
        ISOLATE_FOLDER_NAME,
    )) {
        return;
    }
    if node_is_link(n) {
        if let Some(url) = n.get_str("url") {
            let trimmed: &str = trim(url);
            if starts_with(trimmed, "http://") || starts_with(trimmed, "https://") {
                let path_segments: Vec<String> = copy_part(
                    current_path.as_slice(),
                    0,
                    current_path.len(),
                );
                assert(text::texts(path_segments@) =~= path);
                let item: LinkItem = LinkItem {
                    path_segments,
                    place: place.copy(),
                    name: node_name(n).to_owned(),
                    url: trimmed.to_owned(),
                };
                let ghost l = item@;
                out.push(item);
                assert(links_of(out@) =~= before + seq![l]);
            }
        }
    } else if folder {
        if let Some(children) = n.get_array("children") {
            let ghost c = value::items_of(children@);
            let mut i: usize = 0;
            assert(links_of(out@) =~= before + links_in(c, 0, path, place@));
            while i < children.len()
                invariant
                    i <= children@.len(),
                    c == value::items_of(children@),
                    node::children_of(n@) == Some(c),
                    path == text::texts(current_path@),
                    links_of(out@) == before + links_in(c, i as int, path, place@),
                decreases children.len() - i,
            {
                let child: &Doc = &children[i];
                assert(c[i as int] == child@);
                let mut next_path: Vec<String> = copy_part(
                    current_path.as_slice(),
                    0,
                    current_path.len(),
                );
                assert(text::texts(next_path@) =~= path);
                next_path.push(get_node_display_name(child));
                proof {
                    assert(text::texts(next_path@) =~= path.push(node::display_name(child@)));
                    node::lemma_child_below(*n, i as int);
                }
                collect_link_items(child, &next_path, &place.child(i), out);
                assert(links_of(out@) =~= before + links_in(c, i + 1, path, place@));
                i += 1;
            }
        }
    }
}

/// The links below a root folder, shown under a name.
pub open spec fn root_links(doc: Json, key: Seq<char>, name: Seq<char>) -> Seq<LinkView> {
    match tree::root_folder(doc, key) {
        Some(root) => links_at(
            root,
            seq![name],
            PlaceView { root: key, at: Seq::empty() },
        ),
        None => Seq::empty(),
    }
}

/// The links that a path stands for: those below it, or those of all bookmarks where it names
/// only the browser.
pub open spec fn checked_links(doc: Json, path: Seq<Seq<char>>, written: Seq<char>) -> Result<
    Seq<LinkView>,
    Fault,
> {
    if path.len() == 0 {
        Ok(
            root_links(doc, "bookmark_bar"@, BOOKMARK_BAR_JP@) + root_links(
                doc,
                "other"@,
                OTHER_BOOKMARKS_JP@,
            ) + root_links(doc, "menu"@, BOOKMARK_MENU_JP@),
        )
    } else {
        match place::navigated_place(doc, path) {
            Some(p) => Ok(links_at(place::node_at(doc, p)->0, path, p)),
            None => Err(Fault { reason: Reason::CheckTargetNotFound, detail: written }),
        }
    }
}

/// Collects the links below a root folder.
fn collect_root_links(val: &Doc, key: &str, name: &str, out: &mut Vec<LinkItem>)
    ensures
        links_of(final(out)@) == links_of(old(out)@) + root_links(val@, key@, name@),
{
    assert(links_of(out@) + Seq::empty() =~= links_of(out@));
    if let Some(root) = root_folder_ref(val, key) {
        let mut path: Vec<String> = Vec::new();
        path.push(name.to_owned());
        assert(text::texts(path@) =~= seq![name@]);
        collect_link_items(root, &path, &Place::of_root(key), out);
    }
}

/// Collects the links that a path stands for; `written` is the path as it was written.
pub fn links_to_check(val: &Doc, path: &Vec<String>, written: &str) -> (r: Result<
    Vec<LinkItem>,
    CommandError,
>)
    ensures
        match r {
            Ok(links) => checked_links(val@, text::texts(path@), written@) == Ok::<
                Seq<LinkView>,
                Fault,
            >(links_of(links@)),
            Err(e) => checked_links(val@, text::texts(path@), written@) == Err::<
                Seq<LinkView>,
                Fault,
            >(e@),
        },
{
    let mut out: Vec<LinkItem> = Vec::new();
    assert(links_of(out@) =~= Seq::empty());
    if path.len() == 0 {
        collect_root_links(val, "bookmark_bar", BOOKMARK_BAR_JP, &mut out);
        collect_root_links(val, "other", OTHER_BOOKMARKS_JP, &mut out);
        collect_root_links(val, "menu", BOOKMARK_MENU_JP, &mut out);
        proof {
            let a = root_links(val@, "bookmark_bar"@, BOOKMARK_BAR_JP@);
            assert(Seq::<LinkView>::empty() + a =~= a);
        }
        Ok(out)
    } else {
        proof {
            place::law_path_leads_to_its_place(val@, text::texts(path@));
        }
        if let Some(p) = find_place(val, path.as_slice()) {
            if let Some(n) = find_node(val, &p) {
                collect_link_items(n, path, &p, &mut out);
                proof {
                    let found = links_at(n@, text::texts(path@), p@);
                    assert(Seq::empty() + found =~= found);
                }
                return Ok(out);
            }
        }
        Err(CommandError::new(Reason::CheckTargetNotFound, written))
    }
}

// ---------------------------------------------------------------------------
// What an answer means
// ---------------------------------------------------------------------------

/// The state of a link.
#[derive(Debug)]
pub enum CheckResult {
    Alive(u16),
    Warn(u16, String),
    Dead(u16, String),
}

/// The model of the state of a link.
pub enum ResultView {
    Alive(u16),
    Warn(u16, Seq<char>),
    Dead(u16, Seq<char>),
}

impl View for CheckResult {
    type V = ResultView;

    open spec fn view(&self) -> ResultView {
        match *self {
            CheckResult::Alive(code) => ResultView::Alive(code),
            CheckResult::Warn(code, why) => ResultView::Warn(code, why@),
            CheckResult::Dead(code, why) => ResultView::Dead(code, why@),
        }
    }
}

/// The status code that a request printed; zero where it printed none.
pub open spec fn printed_code(out: Seq<char>) -> u16 {
    match number::parse_unsigned(text::trimmed(out), u16::MAX as nat) {
        Some(code) => code as u16,
        None => 0,
    }
}

/// The status code of a request for the head of a page; zero where the request failed.
pub open spec fn head_code(succeeded: bool, out: Seq<char>) -> u16 {
    if succeeded {
        printed_code(out)
    } else {
        0
    }
}

/// A server that does not answer a request for the head is asked for the page itself.
pub open spec fn asks_again(code: u16) -> bool {
    code == 405 || code == 403 || code == 0
}

/// The status code after the page itself was asked for: the new one, if there is one.
pub open spec fn code_after_get(code: u16, out: Option<Seq<char>>) -> u16 {
    match out {
        Some(o) => if printed_code(o) > 0 {
            printed_code(o)
        } else {
            code
        },
        None => code,
    }
}

/// What a status code says of a link.
pub open spec fn verdict(code: u16) -> ResultView {
    if code == 0 {
        ResultView::Dead(0, "Connection Failed / Timeout"@)
    } else if 200 <= code <= 399 {
        ResultView::Alive(code)
    } else if code == 401 || code == 403 || code == 429 {
        ResultView::Warn(code, "Access Restricted / Bot Blocked"@)
    } else if code == 404 {
        ResultView::Dead(404, "Not Found"@)
    } else if code == 410 {
        ResultView::Dead(410, "Gone"@)
    } else if 500 <= code <= 599 {
        ResultView::Dead(code, "Server Error"@)
    } else {
        ResultView::Dead(code, "HTTP "@ + number::decimal(code as nat))
    }
}

/// What the answers to both requests say of a link; the second answer counts only where the
/// second request is made.
pub open spec fn judged(head_ok: bool, head_out: Seq<char>, get_out: Option<Seq<char>>) -> ResultView {
    let code = head_code(head_ok, head_out);
    if asks_again(code) {
        verdict(code_after_get(code, get_out))
    } else {
        verdict(code)
    }
}

/// The status code that a request printed.
fn read_code(out: &str) -> (r: u16)
    ensures
        r == printed_code(out@),
{
    match parse_u16(trim(out)) {
        Some(code) => code,
        None => 0,
    }
}

/// The status code of a request for the head of a page.
pub fn code_of_head(succeeded: bool, out: &str) -> (r: u16)
    ensures
        r == head_code(succeeded, out@),
{
    if succeeded {
        read_code(out)
    } else {
        0
    }
}

/// Tells whether the page itself is to be asked for.
pub fn wants_get(code: u16) -> (r: bool)
    ensures
        r == asks_again(code),
{
    code == 405 || code == 403 || code == 0
}

/// What a status code says of a link.
pub fn classify(code: u16) -> (r: CheckResult)
    ensures
        r@ == verdict(code),
{
    if code == 0 {
        CheckResult::Dead(0, "Connection Failed / Timeout".to_owned())
    } else if 200 <= code && code <= 399 {
        CheckResult::Alive(code)
    } else if code == 401 || code == 403 || code == 429 {
        CheckResult::Warn(code, "Access Restricted / Bot Blocked".to_owned())
    } else if code == 404 {
        CheckResult::Dead(404, "Not Found".to_owned())
    } else if code == 410 {
        CheckResult::Dead(410, "Gone".to_owned())
    } else if 500 <= code && code <= 599 {
        CheckResult::Dead(code, "Server Error".to_owned())
    } else {
        let mut why: String = "HTTP ".to_owned();
        why.append(decimal_text(code as u128).as_str());
        CheckResult::Dead(code, why)
    }
}

/// What the answers to both requests say of a link. The second answer is `None` where the request
/// was not made or could not be made.
pub fn judge(head_ok: bool, head_out: &str, get_out: Option<&str>) -> (r: CheckResult)
    ensures
        r@ == judged(
            head_ok,
            head_out@,
            text::maybe(get_out),
        ),
{
    let code: u16 = code_of_head(head_ok, head_out);
    if wants_get(code) {
        match get_out {
            Some(o) => {
                let second: u16 = read_code(o);
                if second > 0 {
                    classify(second)
                } else {
                    classify(code)
                }
            },
            None => classify(code),
        }
    } else {
        classify(code)
    }
}

/// How the program calls itself to servers.
pub const USER_AGENT: &'static str = "Mozilla/5.0 (Windows NT 10.0; Win64; x64) AppleWebKit/537.36 (KHTML, like Gecko) Chrome/122.0.0.0 Safari/537.36";

/// The arguments of the request for the head of a page.
pub open spec fn head_arguments(url: Seq<char>, timeout_secs: nat) -> Seq<Seq<char>> {
    seq![
        "-I"@,
        "-s"@,
        "-L"@,
        "-k"@,
        "--max-time"@,
        number::decimal(timeout_secs),
        "-A"@,
        USER_AGENT@,
        "-o"@,
        "NUL"@,
        "-w"@,
        "%{http_code}"@,
        url,
    ]
}

/// The arguments of the request for the beginning of a page.
pub open spec fn get_arguments(url: Seq<char>, timeout_secs: nat) -> Seq<Seq<char>> {
    seq![
        "-s"@,
        "-L"@,
        "-k"@,
        "-r"@,
        "0-1024"@,
        "--max-time"@,
        number::decimal(timeout_secs),
        "-A"@,
        USER_AGENT@,
        "-o"@,
        "NUL"@,
        "-w"@,
        "%{http_code}"@,
        url,
    ]
}

/// Adds the arguments that both requests share.
fn push_shared_args(out: &mut Vec<String>, url: &str, timeout_secs: u64)
    ensures
        text::texts(final(out)@) == text::texts(old(out)@) + seq![
            "--max-time"@,
            number::decimal(timeout_secs as nat),
            "-A"@,
            USER_AGENT@,
            "-o"@,
            "NUL"@,
            "-w"@,
            "%{http_code}"@,
            url@,
        ],
{
    let ghost before = text::texts(out@);
    out.push("--max-time".to_owned());
    out.push(decimal_text(timeout_secs as u128));
    out.push("-A".to_owned());
    out.push(USER_AGENT.to_owned());
    out.push("-o".to_owned());
    out.push("NUL".to_owned());
    out.push("-w".to_owned());
    out.push("%{http_code}".to_owned());
    out.push(url.to_owned());
    assert(text::texts(out@) =~= before + seq![
        "--max-time"@,
        number::decimal(timeout_secs as nat),
        "-A"@,
        USER_AGENT@,
        "-o"@,
        "NUL"@,
        "-w"@,
        "%{http_code}"@,
        url@,
    ]);
}

/// The arguments of the request for the head of a page.
pub fn head_args(url: &str, timeout_secs: u64) -> (r: Vec<String>)
    ensures
        text::texts(r@) == head_arguments(url@, timeout_secs as nat),
{
    let mut out: Vec<String> = Vec::new();
    out.push("-I".to_owned());
    out.push("-s".to_owned());
    out.push("-L".to_owned());
    out.push("-k".to_owned());
    push_shared_args(&mut out, url, timeout_secs);
    assert(text::texts(out@) =~= head_arguments(url@, timeout_secs as nat));
    out
}

/// The arguments of the request for the beginning of a page.
pub fn get_args(url: &str, timeout_secs: u64) -> (r: Vec<String>)
    ensures
        text::texts(r@) == get_arguments(url@, timeout_secs as nat),
{
    let mut out: Vec<String> = Vec::new();
    out.push("-s".to_owned());
    out.push("-L".to_owned());
    out.push("-k".to_owned());
    out.push("-r".to_owned());
    out.push("0-1024".to_owned());
    push_shared_args(&mut out, url, timeout_secs);
    assert(text::texts(out@) =~= get_arguments(url@, timeout_secs as nat));
    out
}

/// The number of requests at a time: as many as asked for, but no more than links and at least
/// one.
pub open spec fn workers(threads: nat, links: nat) -> nat {
    let n = if threads < links {
        threads
    } else {
        links
    };
    if n == 0 {
        1
    } else {
        n
    }
}

/// The number of requests at a time.
pub fn worker_count(threads: usize, links: usize) -> (r: usize)
    ensures
        r as nat == workers(threads as nat, links as nat),
{
    let n: usize = if threads < links {
        threads
    } else {
        links
    };
    if n == 0 {
        1
    } else {
        n
    }
}

// ---------------------------------------------------------------------------
// Laws
// ---------------------------------------------------------------------------

/// A link is that of the link node at its place.
pub open spec fn is_link_of(l: LinkView, doc: Json) -> bool {
    &&& place::node_at(doc, l.place) matches Some(n)
    &&& node::is_link(n)
    &&& own_link(n, l.path_segments, l.place) == seq![l]
}

/// The place is another one or lies below it.
pub open spec fn is_within(q: PlaceView, p: PlaceView) -> bool {
    q == p || q.lies_below(p)
}

/// Two places, neither of which lies below the other.
pub open spec fn are_apart(p: PlaceView, q: PlaceView) -> bool {
    !is_within(p, q) && !is_within(q, p)
}

/// The links below a place are those of the nodes at their places, which are all different.
proof fn lemma_links_at(doc: Json, n: Json, path: Seq<Seq<char>>, p: PlaceView)
    requires
        place::node_at(doc, p) == Some(n),
    ensures
        forall|i: int|
            0 <= i < links_at(n, path, p).len() ==> is_link_of(
                #[trigger] links_at(n, path, p)[i],
                doc,
            ) && is_within(links_at(n, path, p)[i].place, p),
        forall|i: int, j: int|
            0 <= i < j < links_at(n, path, p).len() ==> are_apart(
                (#[trigger] links_at(n, path, p)[i]).place,
                (#[trigger] links_at(n, path, p)[j]).place,
            ),
    decreases n, 0int,
{
    if !is_set_aside(n) {
        if node::is_link(n) {
            let s = links_at(n, path, p);
            if s.len() > 0 {
                assert(own_link(n, path, p) =~= seq![s[0]]);
            }
        } else if links_at(n, path, p).len() > 0 {
            let c = n->Object_0["children"@]->Array_0;
            lemma_links_in(doc, n, c, c.len() as int, path, p);
            assert(links_at(n, path, p) == links_in(c, c.len() as int, path, p));
            assert forall|i: int| 0 <= i < links_at(n, path, p).len() implies is_within(
                (#[trigger] links_at(n, path, p)[i]).place,
                p,
            ) by {
                let q = links_in(c, c.len() as int, path, p)[i].place;
                let k = child_before(q, p, c.len() as int);
                lemma_within_child(q, p, k);
            }
        }
    }
}

/// A place within a child of another one lies below that one.
proof fn lemma_within_child(q: PlaceView, p: PlaceView, k: int)
    requires
        is_within(q, p.child(k)),
    ensures
        q.lies_below(p),
        q.at[p.at.len() as int] == k,
{
    let c = p.child(k);
    let n = p.at.len() as int;
    assert(c.at.take(n) =~= p.at);
    if q != c {
        assert(q.at.take(n) =~= q.at.take(n + 1).take(n));
        assert(q.at.take(n + 1)[n] == k);
    }
}

/// The child of a place, among the first `k`, that another place lies within.
spec fn child_before(q: PlaceView, p: PlaceView, k: int) -> int {
    choose|i: int| 0 <= i < k && #[trigger] is_within(q, p.child(i))
}

/// The links below the children of a folder are those of the nodes at their places, which are all
/// different.
proof fn lemma_links_in(
    doc: Json,
    n: Json,
    c: Seq<Json>,
    k: int,
    path: Seq<Seq<char>>,
    p: PlaceView,
)
    requires
        place::node_at(doc, p) == Some(n),
        node::children_of(n) == Some(c),
        0 <= k <= c.len(),
    ensures
        forall|i: int|
            0 <= i < links_in(c, k, path, p).len() ==> is_link_of(
                #[trigger] links_in(c, k, path, p)[i],
                doc,
            ) && exists|m: int|
                0 <= m < k && #[trigger] is_within(links_in(c, k, path, p)[i].place, p.child(m)),
        forall|i: int, j: int|
            0 <= i < j < links_in(c, k, path, p).len() ==> are_apart(
                (#[trigger] links_in(c, k, path, p)[i]).place,
                (#[trigger] links_in(c, k, path, p)[j]).place,
            ),
    decreases c, k,
{
    if k > 0 {
        let x = c[k - 1];
        let q = p.child(k - 1);
        let a = links_in(c, k - 1, path, p);
        let b = links_at(x, path.push(node::display_name(x)), q);
        let s = links_in(c, k, path, p);
        place::lemma_child_place(doc, p, k - 1);
        lemma_links_in(doc, n, c, k - 1, path, p);
        lemma_links_at(doc, x, path.push(node::display_name(x)), q);
        assert forall|i: int| 0 <= i < s.len() implies is_link_of(#[trigger] s[i], doc) && exists|
            m: int,
        |
            0 <= m < k && #[trigger] is_within(s[i].place, p.child(m)) by {
            if i < a.len() {
                assert(s[i] == a[i]);
                let m = choose|m: int| 0 <= m < k - 1 && #[trigger] is_within(
                    a[i].place,
                    p.child(m),
                );
                assert(is_within(s[i].place, p.child(m)));
            } else {
                assert(s[i] == b[i - a.len()]);
                assert(is_within(s[i].place, p.child(k - 1)));
            }
        }
        assert forall|i: int, j: int| 0 <= i < j < s.len() implies are_apart(
            (#[trigger] s[i]).place,
            (#[trigger] s[j]).place,
        ) by {
            if j < a.len() {
                assert(s[i] == a[i] && s[j] == a[j]);
            } else if i >= a.len() {
                assert(s[i] == b[i - a.len()] && s[j] == b[j - a.len()]);
            } else {
                assert(s[i] == a[i] && s[j] == b[j - a.len()]);
                let m = choose|m: int| 0 <= m < k - 1 && #[trigger] is_within(
                    a[i].place,
                    p.child(m),
                );
                lemma_within_child(s[i].place, p, m);
                lemma_within_child(s[j].place, p, k - 1);
                lemma_parted(s[i].place, s[j].place, p.at.len() as int);
            }
        }
    }
}

/// Places that part at a step are apart.
proof fn lemma_parted(p: PlaceView, q: PlaceView, k: int)
    requires
        0 <= k < p.at.len(),
        k < q.at.len(),
        p.at[k] != q.at[k],
    ensures
        are_apart(p, q),
{
    if is_within(p, q) && p != q {
        assert(p.at.take(q.at.len() as int)[k] == p.at[k]);
    }
    if is_within(q, p) && p != q {
        assert(q.at.take(p.at.len() as int)[k] == q.at[k]);
    }
}

/// The links of a root folder are those of the nodes at their places, which are all different.
proof fn lemma_root_links(doc: Json, key: Seq<char>, name: Seq<char>)
    ensures
        forall|i: int|
            0 <= i < root_links(doc, key, name).len() ==> is_link_of(
                #[trigger] root_links(doc, key, name)[i],
                doc,
            ) && root_links(doc, key, name)[i].place.root == key,
        forall|i: int, j: int|
            0 <= i < j < root_links(doc, key, name).len() ==> are_apart(
                (#[trigger] root_links(doc, key, name)[i]).place,
                (#[trigger] root_links(doc, key, name)[j]).place,
            ),
{
    if let Some(root) = tree::root_folder(doc, key) {
        let p = PlaceView { root: key, at: Seq::empty() };
        assert(place::node_at(doc, p) == Some(root));
        lemma_links_at(doc, root, seq![name], p);
        assert forall|i: int| 0 <= i < root_links(doc, key, name).len() implies (
        #[trigger] root_links(doc, key, name)[i]).place.root == key by {
            assert(is_within(links_at(root, seq![name], p)[i].place, p));
        }
    }
}

/// Every link that is checked is that of a link node, and its place leads back to that node; no
/// two of them have the same place, nor does one lie below another.
pub proof fn law_checked_link_is_found_again(doc: Json, path: Seq<Seq<char>>, written: Seq<char>)
    ensures
        checked_links(doc, path, written) matches Ok(links) ==> {
            &&& forall|i: int| 0 <= i < links.len() ==> is_link_of(#[trigger] links[i], doc)
            &&& forall|i: int, j: int|
                0 <= i < j < links.len() ==> are_apart(
                    (#[trigger] links[i]).place,
                    (#[trigger] links[j]).place,
                )
        },
{
    if path.len() == 0 {
        let a = root_links(doc, "bookmark_bar"@, BOOKMARK_BAR_JP@);
        let b = root_links(doc, "other"@, OTHER_BOOKMARKS_JP@);
        let c = root_links(doc, "menu"@, BOOKMARK_MENU_JP@);
        lemma_root_links(doc, "bookmark_bar"@, BOOKMARK_BAR_JP@);
        lemma_root_links(doc, "other"@, OTHER_BOOKMARKS_JP@);
        lemma_root_links(doc, "menu"@, BOOKMARK_MENU_JP@);
        place::lemma_root_keys();
        lemma_links_joined(doc, a, b);
        assert forall|i: int, j: int| 0 <= i < (a + b).len() && 0 <= j < c.len() implies (
        #[trigger] (a + b)[i]).place.root != (#[trigger] c[j]).place.root by {
            if i < a.len() {
                assert((a + b)[i] == a[i]);
            } else {
                assert((a + b)[i] == b[i - a.len()]);
            }
        }
        lemma_links_joined(doc, a + b, c);
    } else {
        place::law_path_leads_to_its_place(doc, path);
        if let Some(p) = place::navigated_place(doc, path) {
            lemma_links_at(doc, place::node_at(doc, p)->0, path, p);
        }
    }
}

/// Links of different root folders have different places.
proof fn lemma_links_joined(doc: Json, a: Seq<LinkView>, b: Seq<LinkView>)
    requires
        forall|i: int| 0 <= i < a.len() ==> is_link_of(#[trigger] a[i], doc),
        forall|i: int| 0 <= i < b.len() ==> is_link_of(#[trigger] b[i], doc),
        forall|i: int, j: int|
            0 <= i < j < a.len() ==> are_apart((#[trigger] a[i]).place, (#[trigger] a[j]).place),
        forall|i: int, j: int|
            0 <= i < j < b.len() ==> are_apart((#[trigger] b[i]).place, (#[trigger] b[j]).place),
        forall|i: int, j: int|
            0 <= i < a.len() && 0 <= j < b.len() ==> (#[trigger] a[i]).place.root != (
            #[trigger] b[j]).place.root,
    ensures
        forall|i: int| 0 <= i < (a + b).len() ==> is_link_of(#[trigger] (a + b)[i], doc),
        forall|i: int, j: int|
            0 <= i < j < (a + b).len() ==> are_apart(
                (#[trigger] (a + b)[i]).place,
                (#[trigger] (a + b)[j]).place,
            ),
{
    let s = a + b;
    assert forall|i: int| 0 <= i < s.len() implies is_link_of(#[trigger] s[i], doc) by {
        if i < a.len() {
            assert(s[i] == a[i]);
        } else {
            assert(s[i] == b[i - a.len()]);
        }
    }
    assert forall|i: int, j: int| 0 <= i < j < s.len() implies are_apart(
        (#[trigger] s[i]).place,
        (#[trigger] s[j]).place,
    ) by {
        if j < a.len() {
            assert(s[i] == a[i] && s[j] == a[j]);
        } else if i >= a.len() {
            assert(s[i] == b[i - a.len()] && s[j] == b[j - a.len()]);
        } else {
            assert(s[i] == a[i] && s[j] == b[j - a.len()]);
        }
    }
}

/// No node from a node down along some steps is a folder of dead or discarded links.
pub open spec fn passes_no_discard(n: Json, at: Seq<int>) -> bool
    decreases at.len(),
{
    &&& !(node::is_folder(n) && (node::name_of(n) == TRASH_FOLDER_NAME@ || node::name_of(n)
        == ISOLATE_FOLDER_NAME@))
    &&& at.len() > 0 ==> (node::children_of(n) matches Some(c) && 0 <= at[0] < c.len()
        && passes_no_discard(c[at[0]], at.drop_first()))
}

/// Every node from a node down along some steps, but for the last, is a folder.
pub open spec fn passes_folders(n: Json, at: Seq<int>) -> bool
    decreases at.len(),
{
    at.len() > 0 ==> node::is_folder(n) && (node::children_of(n) matches Some(c) && 0 <= at[0]
        < c.len() && passes_folders(c[at[0]], at.drop_first()))
}

/// The node has an address on the web: it is a link whose address, without white space around it,
/// begins with `http://` or `https://`.
pub open spec fn is_web_link(n: Json) -> bool {
    &&& node::is_link(n)
    &&& n.text_member("url"@) matches Some(url)
    &&& text::begins_with(text::trimmed(url), "http://"@) || text::begins_with(
        text::trimmed(url),
        "https://"@,
    )
}

/// The names that nodes are shown under from a node down along some steps.
pub open spec fn names_along(n: Json, at: Seq<int>) -> Seq<Seq<char>>
    decreases at.len(),
{
    if at.len() == 0 {
        Seq::empty()
    } else {
        let child = node::children_of(n)->0[at[0]];
        seq![node::display_name(child)] + names_along(child, at.drop_first())
    }
}

/// A link is that of the node at its place: it has its name and its address, and the names on the
/// way to it are its path.
pub open spec fn tells_node(l: LinkView, p: PlaceView, n: Json, path: Seq<Seq<char>>) -> bool {
    &&& l.place == p
    &&& l.path_segments == path
    &&& l.name == node::name_of(n)
    &&& Some(l.url) == (match n.text_member("url"@) {
        Some(url) => Some(text::trimmed(url)),
        None => None,
    })
}

/// The link of the node at a place is among links.
pub open spec fn has_link_of(
    links: Seq<LinkView>,
    p: PlaceView,
    n: Json,
    path: Seq<Seq<char>>,
) -> bool {
    exists|i: int| 0 <= i < links.len() && tells_node(#[trigger] links[i], p, n, path)
}

/// A link below a node is among the links of the node.
proof fn lemma_link_is_collected(n: Json, path: Seq<Seq<char>>, p: PlaceView, at: Seq<int>)
    requires
        place::below(n, at) is Some,
        is_web_link(place::below(n, at)->0),
        passes_no_discard(n, at),
        passes_folders(n, at),
    ensures
        has_link_of(
            links_at(n, path, p),
            PlaceView { root: p.root, at: p.at + at },
            place::below(n, at)->0,
            path + names_along(n, at),
        ),
    decreases at.len(),
{
    let x = place::below(n, at)->0;
    let q = PlaceView { root: p.root, at: p.at + at };
    let whole = path + names_along(n, at);
    if at.len() == 0 {
        assert(p.at + at =~= p.at);
        assert(whole =~= path);
        assert(tells_node(links_at(n, path, p)[0], q, x, whole));
    } else {
        reveal_strlit("folder");
        reveal_strlit("url");
        assert("folder"@.len() == 6 && "url"@.len() == 3);
        let c = node::children_of(n)->0;
        let k = at[0];
        let rest = at.drop_first();
        let deeper = path.push(node::display_name(c[k]));
        lemma_link_is_collected(c[k], deeper, p.child(k), rest);
        assert(p.child(k).at + rest =~= q.at);
        assert(deeper + names_along(c[k], rest) =~= whole);
        let i = choose|i: int|
            0 <= i < links_at(c[k], deeper, p.child(k)).len() && tells_node(
                #[trigger] links_at(c[k], deeper, p.child(k))[i],
                q,
                x,
                whole,
            );
        lemma_links_in_some(c, c.len() as int, path, p, k, i);
        let j = choose|j: int|
            0 <= j < links_in(c, c.len() as int, path, p).len() && #[trigger] links_in(
                c,
                c.len() as int,
                path,
                p,
            )[j] == links_at(c[k], deeper, p.child(k))[i];
        assert(links_at(n, path, p) == links_in(c, c.len() as int, path, p));
        assert(tells_node(links_at(n, path, p)[j], q, x, whole));
    }
}

/// The links of a child are among those of its folder.
proof fn lemma_links_in_some(
    c: Seq<Json>,
    n: int,
    path: Seq<Seq<char>>,
    p: PlaceView,
    k: int,
    i: int,
)
    requires
        0 <= k < n <= c.len(),
        0 <= i < links_at(c[k], path.push(node::display_name(c[k])), p.child(k)).len(),
    ensures
        exists|j: int|
            0 <= j < links_in(c, n, path, p).len() && #[trigger] links_in(c, n, path, p)[j]
                == links_at(c[k], path.push(node::display_name(c[k])), p.child(k))[i],
    decreases n,
{
    let l = links_at(c[k], path.push(node::display_name(c[k])), p.child(k))[i];
    let before = links_in(c, n - 1, path, p);
    let all = links_in(c, n, path, p);
    if k < n - 1 {
        lemma_links_in_some(c, n - 1, path, p, k, i);
        let j = choose|j: int| 0 <= j < before.len() && #[trigger] before[j] == l;
        assert(all[j] == l);
    } else {
        assert(all[before.len() + i] == l);
    }
}

/// Every link of a browser is checked: with no path, the link of each link node with a web address
/// below the bookmark bar, the other bookmarks or the menu, that lies in no folder of dead or
/// discarded links, is among the links to check.
#[verifier::rlimit(40)]
pub proof fn law_every_link_is_checked(doc: Json, written: Seq<char>, p: PlaceView)
    requires
        p.root == "bookmark_bar"@ || p.root == "other"@ || p.root == "menu"@,
        place::node_at(doc, p) is Some,
        is_web_link(place::node_at(doc, p)->0),
        passes_no_discard(tree::root_folder(doc, p.root)->0, p.at),
        passes_folders(tree::root_folder(doc, p.root)->0, p.at),
    ensures
        checked_links(doc, Seq::empty(), written) matches Ok(links) && has_link_of(
            links,
            p,
            place::node_at(doc, p)->0,
            seq![
                if p.root == "bookmark_bar"@ {
                    BOOKMARK_BAR_JP@
                } else if p.root == "other"@ {
                    OTHER_BOOKMARKS_JP@
                } else {
                    BOOKMARK_MENU_JP@
                },
            ] + names_along(tree::root_folder(doc, p.root)->0, p.at),
        ),
{
    let root = tree::root_folder(doc, p.root)->0;
    let top = PlaceView { root: p.root, at: Seq::empty() };
    let name = if p.root == "bookmark_bar"@ {
        BOOKMARK_BAR_JP@
    } else if p.root == "other"@ {
        OTHER_BOOKMARKS_JP@
    } else {
        BOOKMARK_MENU_JP@
    };
    place::lemma_root_keys();
    lemma_link_is_collected(root, seq![name], top, p.at);
    assert(top.at + p.at =~= p.at);
    let some = links_at(root, seq![name], top);
    let whole = seq![name] + names_along(root, p.at);
    let i = choose|i: int|
        0 <= i < some.len() && tells_node(#[trigger] some[i], p, place::node_at(doc, p)->0, whole);
    let a = root_links(doc, "bookmark_bar"@, BOOKMARK_BAR_JP@);
    let b = root_links(doc, "other"@, OTHER_BOOKMARKS_JP@);
    let c = root_links(doc, "menu"@, BOOKMARK_MENU_JP@);
    let all = a + b + c;
    assert(checked_links(doc, Seq::empty(), written) == Ok::<Seq<LinkView>, Fault>(all));
    if p.root == "bookmark_bar"@ {
        assert(all[i] == a[i]);
    } else if p.root == "other"@ {
        assert(all[a.len() + i] == b[i]);
    } else {
        assert(all[a.len() + b.len() + i] == c[i]);
    }
}

/// Every link below the path is checked: where a path leads to a node, the link of each link node
/// with a web address at or below it, that lies in no folder of dead or discarded links from there
/// on, is among the links to check. A path that leads nowhere is refused.
pub proof fn law_every_link_below_is_checked(
    doc: Json,
    path: Seq<Seq<char>>,
    written: Seq<char>,
    at: Seq<int>,
)
    requires
        path.len() > 0,
    ensures
        checked_links(doc, path, written) is Ok <==> tree::navigated(doc, path) is Some,
        tree::navigated(doc, path) matches Some(n) ==> (place::below(n, at) matches Some(x) ==> (
        is_web_link(x) && passes_no_discard(n, at) && passes_folders(n, at) ==> has_link_of(
            checked_links(doc, path, written)->Ok_0,
            PlaceView {
                root: place::navigated_place(doc, path)->0.root,
                at: place::navigated_place(doc, path)->0.at + at,
            },
            x,
            path + names_along(n, at),
        ))),
{
    place::law_path_leads_to_its_place(doc, path);
    if let Some(n) = tree::navigated(doc, path) {
        let p = place::navigated_place(doc, path)->0;
        if place::below(n, at) matches Some(x) && is_web_link(x) && passes_no_discard(n, at)
            && passes_folders(n, at) {
            lemma_link_is_collected(n, path, p, at);
        }
    }
}

/// A printed status code is read back, with white space around it or without.
pub proof fn law_printed_code_is_read(code: u16, out: Seq<char>)
    requires
        text::trimmed(out) == number::decimal(code as nat),
    ensures
        printed_code(out) == code,
        head_code(true, out) == code,
        head_code(false, out) == 0,
{
    number::law_unsigned_read_back(code as u64);
    number::lemma_decimal_digits(code as nat);
    let d = number::decimal(code as nat);
    assert(number::parse_unsigned(d, u64::MAX as nat) == Some(code as nat));
}

/// The first answer decides, unless it is that of a server that does not answer such requests:
/// then the second one decides, if it has a code.
pub proof fn law_second_answer_counts_where_the_first_says_nothing(
    head_ok: bool,
    head_out: Seq<char>,
    first: u16,
    get_out: Seq<char>,
    second: u16,
)
    requires
        text::trimmed(head_out) == number::decimal(first as nat),
        text::trimmed(get_out) == number::decimal(second as nat),
    ensures
        ({
            let told = if head_ok {
                first
            } else {
                0
            };
            let unsaid = told == 0 || told == 403 || told == 405;
            &&& !unsaid ==> judged(head_ok, head_out, Some(get_out)) == verdict(told)
            &&& !unsaid ==> judged(head_ok, head_out, None) == verdict(told)
            &&& unsaid && second > 0 ==> judged(head_ok, head_out, Some(get_out)) == verdict(second)
            &&& unsaid && second == 0 ==> judged(head_ok, head_out, Some(get_out)) == verdict(told)
            &&& judged(head_ok, head_out, None) == verdict(told)
        }),
{
    law_printed_code_is_read(first, head_out);
    law_printed_code_is_read(second, get_out);
}

/// The verdict on a code names the code.
pub proof fn law_verdict_names_its_code(code: u16)
    ensures
        match verdict(code) {
            ResultView::Alive(c) => c == code,
            ResultView::Warn(c, _) => c == code,
            ResultView::Dead(c, _) => c == code,
        },
{
}

/// Both requests ask for the address, with the timeout that was given and the name of the program.
pub proof fn law_requests_ask_for_the_address(url: Seq<char>, timeout_secs: nat)
    ensures
        asks_for(head_arguments(url, timeout_secs), url, timeout_secs),
        asks_for(get_arguments(url, timeout_secs), url, timeout_secs),
        head_arguments(url, timeout_secs).contains("-I"@),
{
    let h = head_arguments(url, timeout_secs);
    let g = get_arguments(url, timeout_secs);
    assert(h[0] == "-I"@);
    assert(follows(h, 4, "--max-time"@, number::decimal(timeout_secs)));
    assert(follows(g, 5, "--max-time"@, number::decimal(timeout_secs)));
    assert(follows(h, 6, "-A"@, USER_AGENT@));
    assert(follows(g, 7, "-A"@, USER_AGENT@));
    assert(follows(h, 10, "-w"@, "%{http_code}"@));
    assert(follows(g, 11, "-w"@, "%{http_code}"@));
}

/// An argument follows another one.
pub open spec fn follows(args: Seq<Seq<char>>, i: int, a: Seq<char>, b: Seq<char>) -> bool {
    0 <= i < args.len() - 1 && args[i] == a && args[i + 1] == b
}

/// The arguments ask for an address, and for its status code alone.
pub open spec fn asks_for(args: Seq<Seq<char>>, url: Seq<char>, timeout_secs: nat) -> bool {
    &&& args.last() == url
    &&& exists|i: int| #[trigger]
        follows(args, i, "--max-time"@, number::decimal(timeout_secs))
    &&& exists|i: int| #[trigger] follows(args, i, "-A"@, USER_AGENT@)
    &&& exists|i: int| #[trigger] follows(args, i, "-w"@, "%{http_code}"@)
}

/// There are at most as many requests at a time as asked for and as links, and at least one; as
/// many as that allows.
pub proof fn law_workers_are_as_many_as_allowed(threads: nat, links: nat)
    requires
        threads > 0,
        links > 0,
    ensures
        1 <= workers(threads, links),
        workers(threads, links) <= threads,
        workers(threads, links) <= links,
        workers(threads, links) == threads || workers(threads, links) == links,
        workers(0, links) == 1 && workers(threads, 0) == 1,
{
}

/// Only links with a web address are checked.
pub proof fn law_only_web_links_are_checked(
    doc: Json,
    path: Seq<Seq<char>>,
    written: Seq<char>,
    i: int,
)
    requires
        checked_links(doc, path, written) is Ok,
        0 <= i < checked_links(doc, path, written)->Ok_0.len(),
    ensures
        is_web_address(checked_links(doc, path, written)->Ok_0[i].url),
{
    law_checked_link_is_found_again(doc, path, written);
    let l = checked_links(doc, path, written)->Ok_0[i];
    let n = place::node_at(doc, l.place)->0;
    assert(is_link_of(l, doc));
    assert(own_link(n, l.path_segments, l.place)[0] == l);
}

/// Nothing in the trash or among the dead links is checked again.
pub proof fn law_set_aside_is_not_checked(n: Json, path: Seq<Seq<char>>, p: PlaceView)
    requires
        is_set_aside(n),
    ensures
        links_at(n, path, p) == Seq::<LinkView>::empty(),
{
}

/// A link is dead, restricted or alive by its status code alone: an answer below 400 and from 200
/// on is alive, and a restricted link is never dead.
pub proof fn law_restricted_is_not_dead(code: u16)
    ensures
        verdict(code) is Alive <==> 200 <= code <= 399,
        verdict(code) is Warn <==> (code == 401 || code == 403 || code == 429),
        verdict(code) is Dead <==> !(200 <= code <= 399 || code == 401 || code == 403 || code
            == 429),
{
}

/// What is collected is a link node on the web below the node, on a way through folders that are
/// none of dead or discarded links.
pub open spec fn is_collected_from(l: LinkView, n: Json, p: PlaceView, at: Seq<int>) -> bool {
    &&& l.place == (PlaceView { root: p.root, at: p.at + at })
    &&& place::below(n, at) matches Some(x)
    &&& is_web_link(x)
    &&& passes_no_discard(n, at)
    &&& passes_folders(n, at)
}

/// The links of a node are those of link nodes on the web below it.
proof fn lemma_only_web_links(n: Json, path: Seq<Seq<char>>, p: PlaceView, i: int) -> (at: Seq<int>)
    requires
        0 <= i < links_at(n, path, p).len(),
    ensures
        is_collected_from(links_at(n, path, p)[i], n, p, at),
    decreases n, 0int,
{
    if node::is_link(n) {
        let at = Seq::<int>::empty();
        assert(p.at + at =~= p.at);
        at
    } else {
        let c = n->Object_0["children"@]->Array_0;
        assert(node::children_of(n) == Some(c));
        lemma_only_web_links_in(n, c, c.len() as int, path, p, i)
    }
}

/// The links of the first children of a folder are those of link nodes on the web below it.
proof fn lemma_only_web_links_in(
    n: Json,
    c: Seq<Json>,
    k: int,
    path: Seq<Seq<char>>,
    p: PlaceView,
    i: int,
) -> (at: Seq<int>)
    requires
        node::children_of(n) == Some(c),
        node::is_folder(n),
        !is_set_aside(n),
        k <= c.len(),
        0 <= i < links_in(c, k, path, p).len(),
    ensures
        is_collected_from(links_in(c, k, path, p)[i], n, p, at),
    decreases c, k,
{
    let before = links_in(c, k - 1, path, p);
    if i < before.len() {
        lemma_only_web_links_in(n, c, k - 1, path, p, i)
    } else {
        let x = c[k - 1];
        let q = p.child(k - 1);
        let rest = lemma_only_web_links(
            x,
            path.push(node::display_name(x)),
            q,
            i - before.len(),
        );
        let at = seq![k - 1] + rest;
        assert(at.drop_first() =~= rest);
        assert(q.at + rest =~= p.at + at);
        at
    }
}

/// Only links on the web are checked, and none in a folder of dead or discarded links: each link
/// that is checked is that of a link node whose address begins with `http://` or `https://`, on a
/// way through folders that are none of those, from the root folder or from where the path leads.
pub proof fn law_nothing_else_is_checked(
    doc: Json,
    path: Seq<Seq<char>>,
    written: Seq<char>,
    i: int,
)
    requires
        checked_links(doc, path, written) matches Ok(links) && 0 <= i < links.len(),
    ensures
        ({
            let l = checked_links(doc, path, written)->Ok_0[i];
            &&& path.len() == 0 ==> (l.place.root == "bookmark_bar"@ || l.place.root == "other"@
                || l.place.root == "menu"@) && is_collected_from(
                l,
                tree::root_folder(doc, l.place.root)->0,
                PlaceView { root: l.place.root, at: Seq::empty() },
                l.place.at,
            )
            &&& path.len() > 0 ==> exists|at: Seq<int>| #[trigger]
                is_collected_from(
                    l,
                    tree::navigated(doc, path)->0,
                    place::navigated_place(doc, path)->0,
                    at,
                )
        }),
{
    if path.len() == 0 {
        let a = root_links(doc, "bookmark_bar"@, BOOKMARK_BAR_JP@);
        let b = root_links(doc, "other"@, OTHER_BOOKMARKS_JP@);
        let c = root_links(doc, "menu"@, BOOKMARK_MENU_JP@);
        let all = a + b + c;
        assert(checked_links(doc, path, written) == Ok::<Seq<LinkView>, Fault>(all));
        if i < a.len() {
            assert(all[i] == a[i]);
            lemma_root_link(doc, "bookmark_bar"@, BOOKMARK_BAR_JP@, i);
        } else if i < a.len() + b.len() {
            assert(all[i] == b[i - a.len()]);
            lemma_root_link(doc, "other"@, OTHER_BOOKMARKS_JP@, i - a.len());
        } else {
            assert(all[i] == c[i - a.len() - b.len()]);
            lemma_root_link(doc, "menu"@, BOOKMARK_MENU_JP@, i - a.len() - b.len());
        }
    } else {
        place::law_path_leads_to_its_place(doc, path);
        let p = place::navigated_place(doc, path)->0;
        let n = place::node_at(doc, p)->0;
        let at = lemma_only_web_links(n, path, p, i);
        assert(is_collected_from(links_at(n, path, p)[i], n, p, at));
    }
}

/// A link of a root folder is that of a link node on the web below it.
proof fn lemma_root_link(doc: Json, key: Seq<char>, name: Seq<char>, i: int)
    requires
        0 <= i < root_links(doc, key, name).len(),
    ensures
        ({
            let l = root_links(doc, key, name)[i];
            &&& l.place.root == key
            &&& is_collected_from(
                l,
                tree::root_folder(doc, key)->0,
                PlaceView { root: key, at: Seq::empty() },
                l.place.at,
            )
        }),
{
    let root = tree::root_folder(doc, key)->0;
    let p = PlaceView { root: key, at: Seq::<int>::empty() };
    let at = lemma_only_web_links(root, seq![name], p, i);
    assert(p.at + at =~= at);
}

} // verus!
