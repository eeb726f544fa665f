//! The command line: options, and what a call asks for.
use vstd::prelude::*;
use vstd::string::*;
use crate::fault::{CommandError, Fault, Reason};
use crate::number;
use crate::number::{parse_u64, parse_usize};
use crate::path;
use crate::path::to_lowercase;
use crate::text;
use crate::text::{copy_part, eq_ignore_ascii_case, strip_prefix, text_eq, trim};

verus! {

// ---------------------------------------------------------------------------
// Options
// ---------------------------------------------------------------------------

/// What follows the mark of an option: two dashes, one dash or a slash.
pub open spec fn option_body(arg: Seq<char>) -> Option<Seq<char>> {
    let s = text::trimmed(arg);
    if text::begins_with(s, "--"@) {
        Some(s.skip("--"@.len() as int))
    } else if text::begins_with(s, "-"@) {
        Some(s.skip("-"@.len() as int))
    } else if text::begins_with(s, "/"@) {
        Some(s.skip("/"@.len() as int))
    } else {
        None
    }
}

/// The argument is an option of one of the names.
pub open spec fn is_option(arg: Seq<char>, names: Seq<Seq<char>>) -> bool {
    match option_body(arg) {
        Some(body) => exists|i: int|
            0 <= i < names.len() && text::same_ignoring_case(body, #[trigger] names[i]),
        None => false,
    }
}

/// The texts of a list of literals.
pub open spec fn words(s: Seq<&str>) -> Seq<Seq<char>> {
    s.map_values(|w: &str| w@)
}

/// What follows the mark of an option.
fn body_of<'a>(arg: &'a str) -> (r: Option<&'a str>)
    ensures
        option_body(arg@) == (match r {
            Some(b) => Some(b@),
            None => None,
        }),
{
    let s: &'a str = trim(arg);
    match strip_prefix(s, "--") {
        Some(b) => Some(b),
        None => match strip_prefix(s, "-") {
            Some(b) => Some(b),
            None => strip_prefix(s, "/"),
        },
    }
}

/// Tells whether an argument is an option of one of the names.
pub fn is_opt(arg: &str, names: &[&str]) -> (r: bool)
    ensures
        r == is_option(arg@, words(names@)),
{
    let ghost all = words(names@);
    match body_of(arg) {
        None => false,
        Some(body) => {
            let mut i: usize = 0;
            while i < names.len()
                invariant
                    i <= names@.len(),
                    all == words(names@),
                    option_body(arg@) == Some(body@),
                    forall|j: int|
                        0 <= j < i ==> !text::same_ignoring_case(body@, #[trigger] all[j]),
                decreases names.len() - i,
            {
                assert(all[i as int] == names@[i as int]@);
                if eq_ignore_ascii_case(body, names[i]) {
                    return true;
                }
                i += 1;
            }
            false
        },
    }
}

/// What follows the name of an option and an equals sign or a colon.
pub open spec fn value_after(body: Seq<char>, name: Seq<char>) -> Option<Seq<char>> {
    if body.len() > name.len() && text::same_ignoring_case(body.take(name.len() as int), name) && (
    body[name.len() as int] == '=' || body[name.len() as int] == ':') {
        Some(body.skip(name.len() as int + 1))
    } else {
        None
    }
}

/// The value of an option, by the first name from number `i` on that fits.
pub open spec fn first_value(body: Seq<char>, names: Seq<Seq<char>>, i: int) -> Option<Seq<char>>
    decreases names.len() - i,
{
    if i < 0 || i >= names.len() {
        None
    } else {
        match value_after(body, names[i]) {
            Some(v) => Some(v),
            None => first_value(body, names, i + 1),
        }
    }
}

/// The value that an argument gives to an option of one of the names.
pub open spec fn option_value(arg: Seq<char>, names: Seq<Seq<char>>) -> Option<Seq<char>> {
    match option_body(arg) {
        Some(body) => first_value(body, names, 0),
        None => None,
    }
}

/// What follows the name of an option and an equals sign or a colon.
fn value_behind<'a>(body: &'a str, name: &str) -> (r: Option<&'a str>)
    ensures
        value_after(body@, name@) == (match r {
            Some(v) => Some(v@),
            None => None,
        }),
{
    let n: usize = body.unicode_len();
    let k: usize = name.unicode_len();
    if n <= k {
        return None;
    }
    assert(body@.subrange(0, k as int) =~= body@.take(k as int));
    if !eq_ignore_ascii_case(body.substring_char(0, k), name) {
        return None;
    }
    let c: char = body.get_char(k);
    if c == '=' || c == ':' {
        assert(body@.subrange(k + 1, n as int) =~= body@.skip(k + 1));
        Some(body.substring_char(k + 1, n))
    } else {
        None
    }
}

/// The value that an argument gives to an option of one of the names.
pub fn strip_opt_val<'a>(arg: &'a str, names: &[&str]) -> (r: Option<&'a str>)
    ensures
        option_value(arg@, words(names@)) == (match r {
            Some(v) => Some(v@),
            None => None,
        }),
{
    let ghost all = words(names@);
    match body_of(arg) {
        None => None,
        Some(body) => {
            let mut i: usize = 0;
            while i < names.len()
                invariant
                    i <= names@.len(),
                    all == words(names@),
                    option_body(arg@) == Some(body@),
                    first_value(body@, all, 0) == first_value(body@, all, i as int),
                decreases names.len() - i,
            {
                assert(all[i as int] == names@[i as int]@);
                match value_behind(body, names[i]) {
                    Some(v) => return Some(v),
                    None => {},
                }
                i += 1;
            }
            None
        },
    }
}

/// The arguments that are no option of the names.
pub open spec fn without_option(args: Seq<Seq<char>>, names: Seq<Seq<char>>) -> Seq<Seq<char>>
    decreases args.len(),
{
    if args.len() == 0 {
        Seq::empty()
    } else {
        let rest = without_option(args.drop_last(), names);
        if is_option(args.last(), names) {
            rest
        } else {
            rest.push(args.last())
        }
    }
}

/// Some argument is an option of the names.
pub open spec fn has_option(args: Seq<Seq<char>>, names: Seq<Seq<char>>) -> bool {
    exists|i: int| 0 <= i < args.len() && is_option(#[trigger] args[i], names)
}

/// The names of the option that switches the log on.
pub open spec fn debug_names() -> Seq<Seq<char>> {
    seq!["debug"@, "d"@]
}

/// Tells whether an argument switches the log on.
fn is_debug(arg: &str) -> (r: bool)
    ensures
        r == is_option(arg@, debug_names()),
{
    let names: [&str; 2] = ["debug", "d"];
    assert(words(names@) =~= debug_names());
    is_opt(arg, &names)
}

/// The arguments without those that switch the log on, and whether there was one.
pub fn split_debug(raw: &[String]) -> (r: (Vec<String>, bool))
    ensures
        text::texts(r.0@) == without_option(text::texts(raw@), debug_names()),
        r.1 == has_option(text::texts(raw@), debug_names()),
{
    let ghost all = text::texts(raw@);
    let mut args: Vec<String> = Vec::new();
    let mut debug: bool = false;
    let mut i: usize = 0;
    assert(text::texts(args@) =~= Seq::empty());
    assert(all.take(0) =~= Seq::empty());
    while i < raw.len()
        invariant
            i <= raw@.len(),
            all == text::texts(raw@),
            text::texts(args@) == without_option(all.take(i as int), debug_names()),
            debug <==> exists|j: int| 0 <= j < i && is_option(#[trigger] all[j], debug_names()),
        decreases raw.len() - i,
    {
        proof {
            assert(all.take(i + 1).drop_last() =~= all.take(i as int));
            assert(all.take(i + 1).last() == raw@[i as int]@);
            assert(all[i as int] == raw@[i as int]@);
        }
        if is_debug(raw[i].as_str()) {
            debug = true;
        } else {
            let ghost before = text::texts(args@);
            args.push(raw[i].clone());
            assert(text::texts(args@) =~= before.push(raw@[i as int]@));
        }
        i += 1;
    }
    assert(all.take(i as int) =~= all);
    (args, debug)
}

// ---------------------------------------------------------------------------
// Arguments of `export`
// ---------------------------------------------------------------------------

/// What the arguments of `export` say.
pub struct ExportView {
    pub target: Seq<char>,
    pub out_file: Option<Seq<char>>,
    pub with_trash: bool,
}

/// The names of the option that takes the trash along.
pub open spec fn all_names() -> Seq<Seq<char>> {
    seq!["all"@, "include-trash"@]
}

/// What the arguments of `export` say: the first is the browser, the second the file.
pub open spec fn export_args(args: Seq<Seq<char>>) -> ExportView
    decreases args.len(),
{
    if args.len() == 0 {
        ExportView { target: ""@, out_file: None, with_trash: false }
    } else {
        let st = export_args(args.drop_last());
        let arg = args.last();
        if is_option(arg, all_names()) {
            ExportView { with_trash: true, ..st }
        } else if st.target.len() == 0 {
            ExportView { target: arg, ..st }
        } else if st.out_file is None {
            ExportView { out_file: Some(arg), ..st }
        } else {
            st
        }
    }
}

/// What `export` is asked for.
#[derive(Debug)]
pub struct ExportArgs {
    pub target: String,
    pub out_file: Option<String>,
    pub include_trash: bool,
}

/// The model of a text that may be missing.
pub open spec fn text_view(s: Option<String>) -> Option<Seq<char>> {
    match s {
        Some(t) => Some(t@),
        None => None,
    }
}

impl View for ExportArgs {
    type V = ExportView;

    open spec fn view(&self) -> ExportView {
        ExportView {
            target: self.target@,
            out_file: text_view(self.out_file),
            with_trash: self.include_trash,
        }
    }
}

/// Reads the arguments of `export`.
pub fn parse_export(args: &[String]) -> (r: ExportArgs)
    ensures
        r@ == export_args(text::texts(args@)),
{
    let ghost all = text::texts(args@);
    let mut st: ExportArgs = ExportArgs {
        target: "".to_owned(),
        out_file: None,
        include_trash: false,
    };
    let mut i: usize = 0;
    assert(all.take(0) =~= Seq::empty());
    while i < args.len()
        invariant
            i <= args@.len(),
            all == text::texts(args@),
            st@ == export_args(all.take(i as int)),
        decreases args.len() - i,
    {
        proof {
            assert(all.take(i + 1).drop_last() =~= all.take(i as int));
            assert(all.take(i + 1).last() == args@[i as int]@);
        }
        let names: [&str; 2] = ["all", "include-trash"];
        assert(words(names@) =~= all_names());
        if is_opt(args[i].as_str(), &names) {
            st.include_trash = true;
        } else if st.target.as_str().unicode_len() == 0 {
            st.target = args[i].clone();
        } else if st.out_file.is_none() {
            st.out_file = Some(args[i].clone());
        }
        i += 1;
    }
    assert(all.take(i as int) =~= all);
    st
}

// ---------------------------------------------------------------------------
// Arguments of `check`
// ---------------------------------------------------------------------------

/// What the arguments of `check` say.
pub struct CheckView {
    pub target: Seq<char>,
    pub to_trash: bool,
    pub to_isolate: bool,
    pub timeout_secs: nat,
    pub threads: nat,
}

/// What `check` does without arguments.
pub open spec fn default_check() -> CheckView {
    CheckView { target: ""@, to_trash: false, to_isolate: false, timeout_secs: 5, threads: 8 }
}

/// At least one.
pub open spec fn at_least_one(n: nat) -> nat {
    if n == 0 {
        1
    } else {
        n
    }
}

/// With a new timeout, where the text is a number.
pub open spec fn with_timeout(st: CheckView, s: Seq<char>) -> CheckView {
    match number::parse_unsigned(s, u64::MAX as nat) {
        Some(n) => CheckView { timeout_secs: at_least_one(n), ..st },
        None => st,
    }
}

/// With a new number of threads, where the text is a number.
pub open spec fn with_threads(st: CheckView, s: Seq<char>) -> CheckView {
    match number::parse_unsigned(s, usize::MAX as nat) {
        Some(n) => CheckView { threads: at_least_one(n), ..st },
        None => st,
    }
}

/// What the arguments of `check` say from number `i` on, where `st` is what those before say. The
/// options `timeout` and `threads` take the next argument, or what stands behind an equals sign
/// or a colon.
pub open spec fn check_args(args: Seq<Seq<char>>, i: int, st: CheckView) -> CheckView
    decreases args.len() - i,
{
    if i < 0 || i >= args.len() {
        st
    } else {
        let arg = args[i];
        if is_option(arg, seq!["trash"@]) {
            check_args(args, i + 1, CheckView { to_trash: true, ..st })
        } else if is_option(arg, seq!["isolate"@]) {
            check_args(args, i + 1, CheckView { to_isolate: true, ..st })
        } else if is_option(arg, seq!["timeout"@]) && i + 1 < args.len() {
            check_args(args, i + 2, with_timeout(st, args[i + 1]))
        } else if option_value(arg, seq!["timeout"@]) is Some {
            check_args(args, i + 1, with_timeout(st, option_value(arg, seq!["timeout"@])->0))
        } else if is_option(arg, seq!["threads"@]) && i + 1 < args.len() {
            check_args(args, i + 2, with_threads(st, args[i + 1]))
        } else if option_value(arg, seq!["threads"@]) is Some {
            check_args(args, i + 1, with_threads(st, option_value(arg, seq!["threads"@])->0))
        } else if st.target.len() == 0 {
            check_args(args, i + 1, CheckView { target: arg, ..st })
        } else {
            check_args(args, i + 1, st)
        }
    }
}

/// What `check` is asked for.
#[derive(Debug)]
pub struct CheckArgs {
    pub target: String,
    pub to_trash: bool,
    pub to_isolate: bool,
    pub timeout_secs: u64,
    pub threads: usize,
}

impl View for CheckArgs {
    type V = CheckView;

    open spec fn view(&self) -> CheckView {
        CheckView {
            target: self.target@,
            to_trash: self.to_trash,
            to_isolate: self.to_isolate,
            timeout_secs: self.timeout_secs as nat,
            threads: self.threads as nat,
        }
    }
}

impl CheckArgs {
    /// Takes in a timeout, where the text is a number.
    fn set_timeout(&mut self, s: &str)
        ensures
            final(self)@ == with_timeout(old(self)@, s@),
    {
        if let Some(n) = parse_u64(s) {
            self.timeout_secs = if n == 0 {
                1
            } else {
                n
            };
        }
    }

    /// Takes in a number of threads, where the text is a number.
    fn set_threads(&mut self, s: &str)
        ensures
            final(self)@ == with_threads(old(self)@, s@),
    {
        if let Some(n) = parse_usize(s) {
            self.threads = if n == 0 {
                1
            } else {
                n
            };
        }
    }
}

/// Tells whether an argument is the option of a name.
fn is_named(arg: &str, name: &str) -> (r: bool)
    ensures
        r == is_option(arg@, seq![name@]),
{
    let names: [&str; 1] = [name];
    assert(words(names@) =~= seq![name@]);
    is_opt(arg, &names)
}

/// The value that an argument gives to the option of a name.
fn value_of<'a>(arg: &'a str, name: &str) -> (r: Option<&'a str>)
    ensures
        option_value(arg@, seq![name@]) == (match r {
            Some(v) => Some(v@),
            None => None,
        }),
{
    let names: [&str; 1] = [name];
    assert(words(names@) =~= seq![name@]);
    strip_opt_val(arg, &names)
}

/// Reads the arguments of `check`.
pub fn parse_check(args: &[String]) -> (r: CheckArgs)
    ensures
        r@ == check_args(text::texts(args@), 0, default_check()),
{
    let ghost all = text::texts(args@);
    let mut st: CheckArgs = CheckArgs {
        target: "".to_owned(),
        to_trash: false,
        to_isolate: false,
        timeout_secs: 5,
        threads: 8,
    };
    let mut i: usize = 0;
    while i < args.len()
        invariant
            i <= args@.len(),
            all == text::texts(args@),
            check_args(all, 0, default_check()) == check_args(all, i as int, st@),
        decreases args.len() - i,
    {
        let arg: &str = args[i].as_str();
        assert(all[i as int] == arg@);
        if is_named(arg, "trash") {
            st.to_trash = true;
        } else if is_named(arg, "isolate") {
            st.to_isolate = true;
        } else if i + 1 < args.len() && is_named(arg, "timeout") {
            i += 1;
            assert(all[i as int] == args@[i as int]@);
            st.set_timeout(args[i].as_str());
        } else if let Some(v) = value_of(arg, "timeout") {
            st.set_timeout(v);
        } else if i + 1 < args.len() && is_named(arg, "threads") {
            i += 1;
            assert(all[i as int] == args@[i as int]@);
            st.set_threads(args[i].as_str());
        } else if let Some(v) = value_of(arg, "threads") {
            st.set_threads(v);
        } else if st.target.as_str().unicode_len() == 0 {
            st.target = args[i].clone();
        }
        i += 1;
    }
    st
}

// ---------------------------------------------------------------------------
// Requests
// ---------------------------------------------------------------------------

/// What a call asks for.
#[derive(Debug)]
pub enum Request {
    List { path: String, out_file: Option<String> },
    Get { path: String, file: String },
    MakeDir { path: String, name: Option<String> },
    DelDir { path: String, name: Option<String> },
    Delete { path: String, items: Vec<String> },
    Move { src: String, dest: String },
    Copy { src: String, dest: String },
    Rename { src: String, dest: String },
    Export { args: ExportArgs },
    Check { options: CheckArgs },
    Dump { target: Option<String> },
}

/// The model of a request.
pub enum RequestView {
    List { path: Seq<char>, out_file: Option<Seq<char>> },
    Get { path: Seq<char>, file: Seq<char> },
    MakeDir { path: Seq<char>, name: Option<Seq<char>> },
    DelDir { path: Seq<char>, name: Option<Seq<char>> },
    Delete { path: Seq<char>, items: Seq<Seq<char>> },
    Move { src: Seq<char>, dest: Seq<char> },
    Copy { src: Seq<char>, dest: Seq<char> },
    Rename { src: Seq<char>, dest: Seq<char> },
    Export { args: ExportView },
    Check { options: CheckView },
    Dump { target: Option<Seq<char>> },
}

impl View for Request {
    type V = RequestView;

    open spec fn view(&self) -> RequestView {
        match *self {
            Request::List { path, out_file } => RequestView::List {
                path: path@,
                out_file: text_view(out_file),
            },
            Request::Get { path, file } => RequestView::Get { path: path@, file: file@ },
            Request::MakeDir { path, name } => RequestView::MakeDir {
                path: path@,
                name: text_view(name),
            },
            Request::DelDir { path, name } => RequestView::DelDir {
                path: path@,
                name: text_view(name),
            },
            Request::Delete { path, items } => RequestView::Delete {
                path: path@,
                items: text::texts(items@),
            },
            Request::Move { src, dest } => RequestView::Move { src: src@, dest: dest@ },
            Request::Copy { src, dest } => RequestView::Copy { src: src@, dest: dest@ },
            Request::Rename { src, dest } => RequestView::Rename { src: src@, dest: dest@ },
            Request::Export { args } => RequestView::Export { args: args@ },
            Request::Check { options } => RequestView::Check { options: options@ },
            Request::Dump { target } => RequestView::Dump { target: text_view(target) },
        }
    }
}

/// An argument, where it is given.
pub open spec fn arg_at(args: Seq<Seq<char>>, i: int) -> Option<Seq<char>> {
    if 0 <= i < args.len() {
        Some(args[i])
    } else {
        None
    }
}

/// An argument, or nothing where it is not given.
pub open spec fn arg_or_empty(args: Seq<Seq<char>>, i: int) -> Seq<char> {
    if 0 <= i < args.len() {
        args[i]
    } else {
        ""@
    }
}

/// A call with too few arguments.
pub open spec fn misused(usage: Seq<char>) -> Result<RequestView, Fault> {
    Err(Fault { reason: Reason::Usage, detail: usage })
}

/// What a call asks for, where `cmd` is its command in lower case. The program and the command
/// are the first two arguments.
pub open spec fn requested(args: Seq<Seq<char>>, cmd: Seq<char>) -> Result<RequestView, Fault> {
    if cmd == "list"@ {
        Ok(RequestView::List { path: arg_or_empty(args, 2), out_file: arg_at(args, 3) })
    } else if cmd == "get"@ {
        if args.len() < 4 {
            misused("get <virtual_path> <dest_local_file>"@)
        } else {
            Ok(RequestView::Get { path: args[2], file: args[3] })
        }
    } else if cmd == "makedir"@ {
        Ok(RequestView::MakeDir { path: arg_or_empty(args, 2), name: arg_at(args, 3) })
    } else if cmd == "deldir"@ {
        Ok(RequestView::DelDir { path: arg_or_empty(args, 2), name: arg_at(args, 3) })
    } else if cmd == "delete"@ {
        if args.len() < 3 {
            misused("delete <parent_path> [item1 item2...]"@)
        } else {
            Ok(RequestView::Delete { path: args[2], items: args.skip(3) })
        }
    } else if cmd == "move"@ {
        if args.len() < 4 {
            misused("move <src_path> <dest_path>"@)
        } else {
            Ok(RequestView::Move { src: args[2], dest: args[3] })
        }
    } else if cmd == "copy"@ {
        if args.len() < 4 {
            misused("copy <src_path> <dest_path>"@)
        } else {
            Ok(RequestView::Copy { src: args[2], dest: args[3] })
        }
    } else if cmd == "rename"@ {
        if args.len() < 4 {
            misused("rename <src_path> <dest_path>"@)
        } else {
            Ok(RequestView::Rename { src: args[2], dest: args[3] })
        }
    } else if cmd == "export"@ {
        Ok(RequestView::Export { args: export_args(args.skip(2)) })
    } else if cmd == "check"@ {
        Ok(RequestView::Check { options: check_args(args.skip(2), 0, default_check()) })
    } else if cmd == "dump"@ {
        Ok(RequestView::Dump { target: arg_at(args, 2) })
    } else {
        Err(Fault { reason: Reason::UnknownCommand, detail: cmd })
    }
}

/// A copy of an argument, where it is given.
fn arg_copy(args: &[String], i: usize) -> (r: Option<String>)
    ensures
        text_view(r) == arg_at(text::texts(args@), i as int),
{
    if i < args.len() {
        Some(args[i].clone())
    } else {
        None
    }
}

/// A copy of an argument, or nothing where it is not given.
fn arg_or_nothing(args: &[String], i: usize) -> (r: String)
    ensures
        r@ == arg_or_empty(text::texts(args@), i as int),
{
    if i < args.len() {
        args[i].clone()
    } else {
        "".to_owned()
    }
}

/// A call with too few arguments.
fn misuse(usage: &str) -> (r: Result<Request, CommandError>)
    ensures
        r matches Err(e) && misused(usage@) == Err::<RequestView, Fault>(e@),
{
    Err(CommandError::new(Reason::Usage, usage))
}

/// What a call asks for, where `cmd` is its command in lower case.
pub fn read_request(args: &[String], cmd: &str) -> (r: Result<Request, CommandError>)
    requires
        args@.len() >= 2,
    ensures
        match r {
            Ok(request) => requested(text::texts(args@), cmd@) == Ok::<RequestView, Fault>(
                request@,
            ),
            Err(e) => requested(text::texts(args@), cmd@) == Err::<RequestView, Fault>(e@),
        },
{
    let ghost all = text::texts(args@);
    let n: usize = args.len();
    if text_eq(cmd, "list") {
        Ok(Request::List { path: arg_or_nothing(args, 2), out_file: arg_copy(args, 3) })
    } else if text_eq(cmd, "get") {
        if n < 4 {
            misuse("get <virtual_path> <dest_local_file>")
        } else {
            Ok(Request::Get { path: args[2].clone(), file: args[3].clone() })
        }
    } else if text_eq(cmd, "makedir") {
        Ok(Request::MakeDir { path: arg_or_nothing(args, 2), name: arg_copy(args, 3) })
    } else if text_eq(cmd, "deldir") {
        Ok(Request::DelDir { path: arg_or_nothing(args, 2), name: arg_copy(args, 3) })
    } else if text_eq(cmd, "delete") {
        if n < 3 {
            misuse("delete <parent_path> [item1 item2...]")
        } else {
            let items: Vec<String> = copy_part(args, 3, n);
            assert(text::texts(items@) =~= all.skip(3));
            Ok(Request::Delete { path: args[2].clone(), items })
        }
    } else if text_eq(cmd, "move") {
        if n < 4 {
            misuse("move <src_path> <dest_path>")
        } else {
            Ok(Request::Move { src: args[2].clone(), dest: args[3].clone() })
        }
    } else if text_eq(cmd, "copy") {
        if n < 4 {
            misuse("copy <src_path> <dest_path>")
        } else {
            Ok(Request::Copy { src: args[2].clone(), dest: args[3].clone() })
        }
    } else if text_eq(cmd, "rename") {
        if n < 4 {
            misuse("rename <src_path> <dest_path>")
        } else {
            Ok(Request::Rename { src: args[2].clone(), dest: args[3].clone() })
        }
    } else if text_eq(cmd, "export") {
        let rest: Vec<String> = copy_part(args, 2, n);
        assert(text::texts(rest@) =~= all.skip(2));
        Ok(Request::Export { args: parse_export(rest.as_slice()) })
    } else if text_eq(cmd, "check") {
        let rest: Vec<String> = copy_part(args, 2, n);
        assert(text::texts(rest@) =~= all.skip(2));
        Ok(Request::Check { options: parse_check(rest.as_slice()) })
    } else if text_eq(cmd, "dump") {
        Ok(Request::Dump { target: arg_copy(args, 2) })
    } else {
        Err(CommandError::new(Reason::UnknownCommand, cmd))
    }
}

/// The command asks for help.
pub open spec fn asks_help(cmd: Seq<char>) -> bool {
    cmd == "help"@ || cmd == "--help"@ || cmd == "-help"@ || cmd == "-h"@ || cmd == "/h"@ || cmd
        == "/help"@ || cmd == "/?"@ || cmd == "-?"@
}

/// Tells whether a command in lower case asks for help.
pub fn is_help(cmd: &str) -> (r: bool)
    ensures
        r == asks_help(cmd@),
{
    text_eq(cmd, "help") || text_eq(cmd, "--help") || text_eq(cmd, "-help") || text_eq(cmd, "-h")
        || text_eq(cmd, "/h") || text_eq(cmd, "/help") || text_eq(cmd, "/?") || text_eq(cmd, "-?")
}

/// A call of the program.
#[derive(Debug)]
pub enum Call {
    Help,
    Run(Request),
    Refuse(CommandError),
}

/// A call is read as the command, in lower case, says.
pub open spec fn reads_call(call: Call, args: Seq<Seq<char>>, cmd: Seq<char>) -> bool {
    if args.len() < 2 || asks_help(cmd) {
        call is Help
    } else {
        match requested(args, cmd) {
            Ok(request) => call matches Call::Run(r) && r@ == request,
            Err(fault) => call matches Call::Refuse(e) && e@ == fault,
        }
    }
}

/// Reads a call, given its command in lower case.
pub fn read_call_with(args: &[String], cmd: &str) -> (r: Call)
    ensures
        reads_call(r, text::texts(args@), cmd@),
{
    if args.len() < 2 || is_help(cmd) {
        return Call::Help;
    }
    match read_request(args, cmd) {
        Ok(request) => Call::Run(request),
        Err(e) => Call::Refuse(e),
    }
}

/// Reads a call.
pub fn read_call(args: &[String]) -> (r: Call)
    ensures
        reads_call(
            r,
            text::texts(args@),
            path::lowercase(arg_or_empty(text::texts(args@), 1)),
        ),
        vstd::utf8::is_ascii_chars(arg_or_empty(text::texts(args@), 1)) ==> reads_call(
            r,
            text::texts(args@),
            text::ascii_lower(arg_or_empty(text::texts(args@), 1)),
        ),
{
    let cmd: String = to_lowercase(arg_or_nothing(args, 1).as_str());
    read_call_with(args, cmd.as_str())
}

/// The text of the help.
pub const HELP: &'static str = "auxbookmark v0.2.0 - PPx aux: path Web Bookmark bridge\nA lightweight CLI bridge between Paper Plane xUI (PPx) aux: path and Chromium & Firefox Web Bookmarks.\n\nCopyright (c) 2026 auxbookmark contributors\n\nUsage:\n  auxbookmark <command> [arguments...] [-debug]\n\nCommands:\n  list    <virtual_path> [output_file]\n          Enumerate bookmarks and folders in PPx ListFile format.\n  get     <virtual_path> <dest_file>\n          Generate an .url InternetShortcut file for browser launching.\n  copy    <src_path> <dest_path>\n          Copy bookmark or folder across folders or browsers.\n  move    <src_path> <dest_path>\n          Move bookmark or folder across folders or browsers.\n  rename  <src_path> <dest_path>\n          Rename bookmark or folder.\n  delete  <virtual_path> [items...]\n          Move bookmark(s) to Trash, or permanently delete if already in Trash.\n  makedir <parent_path> [folder_name]\n          Create a new bookmark folder.\n  deldir  <virtual_path> [folder_name]\n          Delete a bookmark folder (moves to Trash).\n  export  <profile_or_path> [output_file] [--all | --include-trash]\n          Export bookmarks to Netscape Bookmark HTML format.\n          Default: Excludes Trash folder for a clean export.\n          --all / --include-trash: Includes Trash folder.\n  check   <profile_or_path> [--trash | --isolate] [--timeout <secs>] [--threads <N>]\n          Check dead bookmarks concurrently with SSL-insecure fallback.\n          Default: Report only (dry-run).\n          --trash:   Move dead bookmarks to Trash.\n          --isolate: Move dead bookmarks to 'リンク切れ' folder.\n          --timeout: Connection timeout in seconds (default: 5).\n          --threads: Concurrency level (default: 8).\n  dump    [profile_name]\n          Dump all bookmarks as TSV (title\\turl\\tbrowser\\tpath) for Emacs/CLI.\n\nOptions:\n  -d, -debug, --debug   Enable debug logging (stderr + auxbookmark.log).\n  -h, -help, --help     Show this help message.\n\nSupported Browsers:\n  Brave, Google Chrome, Microsoft Edge, Firefox, and Firefox-compatible browsers (configured in auxbookmark.ini).\n";

// ---------------------------------------------------------------------------
// Laws
// ---------------------------------------------------------------------------

/// The mark of an option: two dashes, else one dash or a slash.
pub open spec fn option_mark(arg: Seq<char>) -> Option<Seq<char>> {
    let s = text::trimmed(arg);
    if text::begins_with(s, "--"@) {
        Some("--"@)
    } else if text::begins_with(s, "-"@) {
        Some("-"@)
    } else if text::begins_with(s, "/"@) {
        Some("/"@)
    } else {
        None
    }
}

/// The names have no white space around them, and hold no separator.
pub open spec fn are_option_names(names: Seq<Seq<char>>) -> bool {
    forall|i: int|
        0 <= i < names.len() ==> {
            &&& text::trimmed(#[trigger] names[i]) == names[i]
            &&& !names[i].contains('=')
            &&& !names[i].contains(':')
        }
}

/// The text is one of the names, in any case.
pub open spec fn is_one_of(n: Seq<char>, names: Seq<Seq<char>>) -> bool {
    exists|i: int| 0 <= i < names.len() && text::same_ignoring_case(n, #[trigger] names[i])
}

/// The argument consists of a mark, a name, a separator and a value.
pub open spec fn consists_of(
    arg: Seq<char>,
    names: Seq<Seq<char>>,
    n: Seq<char>,
    sep: char,
    value: Seq<char>,
) -> bool {
    &&& is_one_of(n, names)
    &&& sep == '=' || sep == ':'
    &&& option_mark(arg) matches Some(p)
    &&& text::trimmed(arg) == p + n + seq![sep] + value
}

/// The argument gives a value to an option of one of the names.
pub open spec fn gives_value(arg: Seq<char>, names: Seq<Seq<char>>, value: Seq<char>) -> bool {
    exists|n: Seq<char>, sep: char| #[trigger] consists_of(arg, names, n, sep, value)
}

/// The mark of an option and what follows it make up the argument.
proof fn lemma_option_parts(arg: Seq<char>)
    ensures
        option_mark(arg) is Some <==> option_body(arg) is Some,
        option_mark(arg) matches Some(p) ==> text::trimmed(arg) == p + option_body(arg)->0,
{
    let s = text::trimmed(arg);
    if let Some(p) = option_mark(arg) {
        assert(s =~= p + s.skip(p.len() as int));
    }
}

/// What is a name but for its case holds no separator.
proof fn lemma_no_separator(n: Seq<char>, name: Seq<char>, c: char)
    requires
        text::same_ignoring_case(n, name),
        c == '=' || c == ':',
        !name.contains(c),
    ensures
        n.len() == name.len(),
        !n.contains(c),
{
    assert(text::ascii_lower(n).len() == text::ascii_lower(name).len());
    if n.contains(c) {
        let i = choose|i: int| 0 <= i < n.len() && n[i] == c;
        assert(text::ascii_lower(n)[i] == text::ascii_lower(name)[i]);
        assert(name[i] == c);
    }
}

/// The first name that fits gives the value.
proof fn lemma_first_value(body: Seq<char>, names: Seq<Seq<char>>, i: int)
    requires
        0 <= i <= names.len(),
    ensures
        match first_value(body, names, i) {
            Some(v) => exists|j: int|
                i <= j < names.len() && value_after(body, #[trigger] names[j]) == Some(v),
            None => forall|j: int|
                i <= j < names.len() ==> value_after(body, #[trigger] names[j]) is None,
        },
    decreases names.len() - i,
{
    if i < names.len() && value_after(body, names[i]) is None {
        lemma_first_value(body, names, i + 1);
    } else if i < names.len() {
        assert(value_after(body, names[i]) == first_value(body, names, i));
    }
}

/// A body that consists of a name, a separator and a value gives that value.
proof fn lemma_body_value(
    body: Seq<char>,
    names: Seq<Seq<char>>,
    n: Seq<char>,
    sep: char,
    value: Seq<char>,
)
    requires
        are_option_names(names),
        is_one_of(n, names),
        sep == '=' || sep == ':',
        body == n + seq![sep] + value,
    ensures
        first_value(body, names, 0) == Some(value),
        !is_one_of(body, names),
{
    let k = choose|k: int| 0 <= k < names.len() && text::same_ignoring_case(n, #[trigger] names[k]);
    lemma_no_separator(n, names[k], '=');
    lemma_no_separator(n, names[k], ':');
    let at = n.len() as int;
    assert(body.take(at) =~= n);
    assert(body[at] == sep);
    assert(body.skip(at + 1) =~= value);
    assert(value_after(body, names[k]) == Some(value));
    lemma_first_value(body, names, 0);
    let v = first_value(body, names, 0)->0;
    let j = choose|j: int|
        0 <= j < names.len() && value_after(body, #[trigger] names[j]) == Some(v);
    let m = names[j].len() as int;
    let head = body.take(m);
    lemma_no_separator(head, names[j], '=');
    lemma_no_separator(head, names[j], ':');
    if at < m {
        assert(head[at] == sep);
        assert(head.contains(sep));
    } else if m < at {
        assert(n[m] == body[m]);
        assert(n.contains(n[m]));
    }
    if is_one_of(body, names) {
        let i = choose|i: int|
            0 <= i < names.len() && text::same_ignoring_case(body, #[trigger] names[i]);
        lemma_no_separator(body, names[i], sep);
        assert(body.contains(sep));
    }
}

/// A value is given exactly where the argument is a mark, a name in any case, an equals sign or a
/// colon, and the value. Such an argument is no plain option, and its mark and name alone are one.
pub proof fn law_value_follows_its_option(arg: Seq<char>, names: Seq<Seq<char>>, value: Seq<char>)
    requires
        are_option_names(names),
    ensures
        option_value(arg, names) == Some(value) <==> gives_value(arg, names, value),
        option_value(arg, names) is Some ==> !is_option(arg, names),
        forall|n: Seq<char>, sep: char| #[trigger]
            consists_of(arg, names, n, sep, value) ==> is_option(option_mark(arg)->0 + n, names),
{
    lemma_option_parts(arg);
    let s = text::trimmed(arg);
    assert forall|n: Seq<char>, sep: char| #[trigger]
        consists_of(arg, names, n, sep, value) implies option_value(arg, names) == Some(value)
        && is_option(option_mark(arg)->0 + n, names) by {
        let p = option_mark(arg)->0;
        let body = option_body(arg)->0;
        assert(body =~= s.skip(p.len() as int));
        assert(body =~= n + seq![sep] + value);
        lemma_body_value(body, names, n, sep, value);
        lemma_mark_and_name(arg, names, n, sep, value);
    }
    if let Some(body) = option_body(arg) {
        lemma_first_value(body, names, 0);
        if let Some(v) = first_value(body, names, 0) {
            let j = choose|j: int|
                0 <= j < names.len() && value_after(body, #[trigger] names[j]) == Some(v);
            let m = names[j].len() as int;
            let n = body.take(m);
            let sep = body[m];
            assert(is_one_of(n, names));
            assert(body =~= n + seq![sep] + v);
            lemma_body_value(body, names, n, sep, v);
            let p = option_mark(arg)->0;
            assert(s =~= p + n + seq![sep] + v);
            assert(consists_of(arg, names, n, sep, v));
        }
    }
}

/// What is a name but for its case ends in no white space.
proof fn lemma_name_end(n: Seq<char>, name: Seq<char>)
    requires
        text::same_ignoring_case(n, name),
        text::trimmed(name) == name,
    ensures
        n.len() > 0 ==> !text::is_space(n.last()),
{
    assert(text::ascii_lower(n).len() == text::ascii_lower(name).len());
    if n.len() > 0 {
        let z = n.len() - 1;
        text::lemma_strip(name, text::CharSet::Space);
        assert(text::ascii_lower(n)[z] == text::ascii_lower(name)[z]);
        assert(text::ascii_lower_char(n[z]) == text::ascii_lower_char(name[z]));
    }
}

/// A mark and what follows it are the parts of the option they make, unless both together look
/// like a longer mark.
proof fn lemma_mark_again(p: Seq<char>, n: Seq<char>)
    requires
        p == "--"@ || p == "-"@ || p == "/"@,
        p == "-"@ && n.len() > 0 ==> n[0] != '-',
        n.len() > 0 ==> !text::is_space(n.last()),
    ensures
        option_body(p + n) == Some(n),
{
    reveal_strlit("--");
    reveal_strlit("-");
    reveal_strlit("/");
    let t = p + n;
    assert(t[0] == p[0]);
    assert(t.last() == if n.len() > 0 {
        n.last()
    } else {
        p.last()
    });
    text::lemma_strip_keeps(t, text::CharSet::Space);
    assert(t.take(p.len() as int) =~= p);
    assert(t.skip(p.len() as int) =~= n);
    if p.len() == 1 {
        if text::begins_with(t, "--"@) {
            assert(t.take(2)[0] == t[0] && t.take(2)[1] == t[1]);
            assert(t[1] == n[0]);
        }
        if text::begins_with(t, "-"@) {
            assert(t.take(1)[0] == t[0]);
        }
    }
}

/// A mark and a name are a plain option.
proof fn lemma_mark_and_name(
    arg: Seq<char>,
    names: Seq<Seq<char>>,
    n: Seq<char>,
    sep: char,
    value: Seq<char>,
)
    requires
        are_option_names(names),
        consists_of(arg, names, n, sep, value),
    ensures
        is_option(option_mark(arg)->0 + n, names),
{
    reveal_strlit("--");
    reveal_strlit("-");
    let s = text::trimmed(arg);
    let p = option_mark(arg)->0;
    let k = choose|k: int| 0 <= k < names.len() && text::same_ignoring_case(n, #[trigger] names[k]);
    lemma_name_end(n, names[k]);
    if p == "-"@ && n.len() > 0 && n[0] == '-' {
        assert(s[0] == '-' && s[1] == '-');
        assert(s.take(2) =~= "--"@);
    }
    lemma_mark_again(p, n);
}

/// An argument is an option of one of the names exactly if it is a mark and a name, in any case,
/// with white space around them or without.
pub proof fn law_option_is_mark_and_name(arg: Seq<char>, names: Seq<Seq<char>>)
    ensures
        is_option(arg, names) <==> exists|n: Seq<char>| #[trigger]
            is_one_of(n, names) && (option_mark(arg) matches Some(p) && text::trimmed(arg) == p + n),
{
    lemma_option_parts(arg);
    if is_option(arg, names) {
        let body = option_body(arg)->0;
        assert(is_one_of(body, names));
    }
    if exists|n: Seq<char>| #[trigger]
        is_one_of(n, names) && (option_mark(arg) matches Some(p) && text::trimmed(arg) == p + n) {
        let n = choose|n: Seq<char>| #[trigger]
            is_one_of(n, names) && (option_mark(arg) matches Some(p) && text::trimmed(arg) == p + n);
        let p = option_mark(arg)->0;
        let body = option_body(arg)->0;
        let s = text::trimmed(arg);
        assert(body =~= s.skip(p.len() as int));
        assert(body =~= n);
    }
}

/// Arguments are taken one by one: options that switch the log on are taken out wherever they
/// stand, and all others stay in their order.
pub proof fn law_debug_options_are_taken_out(args: Seq<Seq<char>>, arg: Seq<char>)
    ensures
        without_option(Seq::empty(), debug_names()).len() == 0,
        !has_option(Seq::empty(), debug_names()),
        is_option(arg, seq!["debug"@, "d"@]) ==> without_option(args.push(arg), debug_names())
            == without_option(args, debug_names()) && has_option(args.push(arg), debug_names()),
        !is_option(arg, seq!["debug"@, "d"@]) ==> without_option(args.push(arg), debug_names())
            == without_option(args, debug_names()).push(arg) && (has_option(
            args.push(arg),
            debug_names(),
        ) <==> has_option(args, debug_names())),
{
    let all = args.push(arg);
    assert(all.drop_last() =~= args);
    assert(all[args.len() as int] == arg);
    if has_option(args, debug_names()) {
        let i = choose|i: int| 0 <= i < args.len() && is_option(#[trigger] args[i], debug_names());
        assert(all[i] == args[i]);
    }
    if has_option(all, debug_names()) && !is_option(arg, debug_names()) {
        let i = choose|i: int| 0 <= i < all.len() && is_option(#[trigger] all[i], debug_names());
        assert(args[i] == all[i]);
    }
}

/// The arguments of `export` are taken one by one: the option may stand anywhere, the first other
/// argument is the browser and the second the file, and further ones are passed over.
pub proof fn law_export_arguments(args: Seq<Seq<char>>, arg: Seq<char>)
    ensures
        ({
            let none = export_args(Seq::empty());
            none.target.len() == 0 && none.out_file is None && !none.with_trash
        }),
        ({
            let before = export_args(args);
            let after = export_args(args.push(arg));
            let option = is_option(arg, seq!["all"@, "include-trash"@]);
            &&& after.with_trash <==> before.with_trash || option
            &&& option ==> after.target == before.target && after.out_file == before.out_file
            &&& !option && before.target.len() == 0 ==> after.target == arg && after.out_file
                == before.out_file
            &&& !option && before.target.len() > 0 ==> after.target == before.target
                && after.out_file == (if before.out_file is None {
                Some(arg)
            } else {
                before.out_file
            })
        }),
{
    reveal_strlit("");
    assert(args.push(arg).drop_last() =~= args);
}

/// The argument is an option that takes the next argument for its value.
pub open spec fn takes_next(arg: Seq<char>) -> bool {
    is_option(arg, seq!["timeout"@]) || is_option(arg, seq!["threads"@])
}

/// Arguments behind others are read after them, with what those say.
proof fn lemma_check_goes_on(before: Seq<Seq<char>>, more: Seq<Seq<char>>, i: int, st: CheckView)
    requires
        0 <= i <= before.len(),
        forall|k: int| 0 <= k < before.len() ==> !takes_next(#[trigger] before[k]),
    ensures
        check_args(before + more, i, st) == check_args(
            before + more,
            before.len() as int,
            check_args(before, i, st),
        ),
    decreases before.len() - i,
{
    if i < before.len() {
        let all = before + more;
        assert(all[i] == before[i]);
        assert(!takes_next(before[i]));
        let arg = before[i];
        let next = if is_option(arg, seq!["trash"@]) {
            CheckView { to_trash: true, ..st }
        } else if is_option(arg, seq!["isolate"@]) {
            CheckView { to_isolate: true, ..st }
        } else if option_value(arg, seq!["timeout"@]) is Some {
            with_timeout(st, option_value(arg, seq!["timeout"@])->0)
        } else if option_value(arg, seq!["threads"@]) is Some {
            with_threads(st, option_value(arg, seq!["threads"@])->0)
        } else if st.target.len() == 0 {
            CheckView { target: arg, ..st }
        } else {
            st
        };
        lemma_check_goes_on(before, more, i + 1, next);
    }
}

/// What `check` is asked for by arguments.
pub open spec fn check_of(args: Seq<Seq<char>>) -> CheckView {
    check_args(args, 0, default_check())
}

/// Without arguments `check` asks for nothing but a report, on links that have five seconds to
/// answer, eight at a time.
pub proof fn law_check_without_arguments()
    ensures
        ({
            let st = check_of(Seq::empty());
            &&& st.target.len() == 0
            &&& !st.to_trash && !st.to_isolate
            &&& st.timeout_secs == 5
            &&& st.threads == 8
        }),
{
    reveal_strlit("");
}

/// The number that a text stands for where it is one, but at least one; else what it was.
pub open spec fn number_or(s: Seq<char>, max: nat, was: nat) -> nat {
    match number::parse_unsigned(s, max) {
        Some(n) => if n > 1 {
            n
        } else {
            1
        },
        None => was,
    }
}

/// The arguments of `check` are taken one by one: an option sets what it names and nothing else,
/// and the first argument that is none is the target.
pub proof fn law_check_arguments(before: Seq<Seq<char>>, arg: Seq<char>)
    requires
        forall|k: int| 0 <= k < before.len() ==> !takes_next(#[trigger] before[k]),
        !takes_next(arg),
    ensures
        ({
            let a = check_of(before);
            let b = check_of(before.push(arg));
            let trash = is_option(arg, seq!["trash"@]);
            let isolate = !trash && is_option(arg, seq!["isolate"@]);
            let flag = trash || isolate;
            let timeout = !flag && option_value(arg, seq!["timeout"@]) is Some;
            let threads = !flag && !timeout && option_value(arg, seq!["threads"@]) is Some;
            &&& b.to_trash == (a.to_trash || trash)
            &&& b.to_isolate == (a.to_isolate || isolate)
            &&& b.timeout_secs == (if timeout {
                number_or(option_value(arg, seq!["timeout"@])->0, u64::MAX as nat, a.timeout_secs)
            } else {
                a.timeout_secs
            })
            &&& b.threads == (if threads {
                number_or(option_value(arg, seq!["threads"@])->0, usize::MAX as nat, a.threads)
            } else {
                a.threads
            })
            &&& b.target == (if !flag && !timeout && !threads && a.target.len() == 0 {
                arg
            } else {
                a.target
            })
        }),
{
    let all = before + seq![arg];
    assert(before.push(arg) =~= all);
    lemma_check_goes_on(before, seq![arg], 0, default_check());
    reveal_with_fuel(check_args, 2);
    assert(all[before.len() as int] == arg);
}

/// The options for the timeout and the number of requests at a time take the next argument for
/// their value, and set nothing else.
pub proof fn law_check_option_takes_the_next(
    before: Seq<Seq<char>>,
    option: Seq<char>,
    value: Seq<char>,
)
    requires
        forall|k: int| 0 <= k < before.len() ==> !takes_next(#[trigger] before[k]),
        takes_next(option),
        !is_option(option, seq!["trash"@]),
        !is_option(option, seq!["isolate"@]),
        option_value(option, seq!["timeout"@]) is None,
    ensures
        ({
            let a = check_of(before);
            let b = check_of(before.push(option).push(value));
            &&& b.target == a.target
            &&& b.to_trash == a.to_trash && b.to_isolate == a.to_isolate
            &&& is_option(option, seq!["timeout"@]) ==> b.threads == a.threads && b.timeout_secs
                == number_or(value, u64::MAX as nat, a.timeout_secs)
            &&& !is_option(option, seq!["timeout"@]) ==> b.timeout_secs == a.timeout_secs
                && b.threads == number_or(value, usize::MAX as nat, a.threads)
        }),
{
    let more = seq![option, value];
    let all = before + more;
    assert(before.push(option).push(value) =~= all);
    lemma_check_goes_on(before, more, 0, default_check());
    reveal_with_fuel(check_args, 3);
    assert(all[before.len() as int] == option);
    assert(all[before.len() as int + 1] == value);
}

/// A call takes the arguments behind its command in their order.
#[verifier::rlimit(40)]
pub proof fn law_request_takes_its_arguments(
    program: Seq<char>,
    cmd: Seq<char>,
    a: Seq<char>,
    b: Seq<char>,
    rest: Seq<Seq<char>>,
)
    ensures
        ({
            let args = seq![program, cmd, a, b] + rest;
            &&& requested(args, "list"@) == Ok::<RequestView, Fault>(
                RequestView::List { path: a, out_file: Some(b) },
            )
            &&& requested(args, "get"@) == Ok::<RequestView, Fault>(
                RequestView::Get { path: a, file: b },
            )
            &&& requested(args, "makedir"@) == Ok::<RequestView, Fault>(
                RequestView::MakeDir { path: a, name: Some(b) },
            )
            &&& requested(args, "deldir"@) == Ok::<RequestView, Fault>(
                RequestView::DelDir { path: a, name: Some(b) },
            )
            &&& requested(args, "delete"@) == Ok::<RequestView, Fault>(
                RequestView::Delete { path: a, items: seq![b] + rest },
            )
            &&& requested(args, "move"@) == Ok::<RequestView, Fault>(
                RequestView::Move { src: a, dest: b },
            )
            &&& requested(args, "copy"@) == Ok::<RequestView, Fault>(
                RequestView::Copy { src: a, dest: b },
            )
            &&& requested(args, "rename"@) == Ok::<RequestView, Fault>(
                RequestView::Rename { src: a, dest: b },
            )
            &&& requested(args, "export"@) == Ok::<RequestView, Fault>(
                RequestView::Export { args: export_args(seq![a, b] + rest) },
            )
            &&& requested(args, "check"@) == Ok::<RequestView, Fault>(
                RequestView::Check { options: check_of(seq![a, b] + rest) },
            )
            &&& requested(args, "dump"@) == Ok::<RequestView, Fault>(
                RequestView::Dump { target: Some(a) },
            )
        }),
{
    let args = seq![program, cmd, a, b] + rest;
    lemma_command_names();
    assert(args.skip(3) =~= seq![b] + rest);
    assert(args.skip(2) =~= seq![a, b] + rest);
    assert(args[2] == a && args[3] == b);
}

/// The names of the commands differ.
proof fn lemma_command_names()
    ensures
        "list"@.len() == 4 && "list"@[0] == 'l',
        "get"@.len() == 3,
        "makedir"@.len() == 7,
        "deldir"@.len() == 6 && "deldir"@[3] == 'd',
        "delete"@.len() == 6 && "delete"@[3] == 'e' && "delete"@[0] == 'd',
        "move"@.len() == 4 && "move"@[0] == 'm',
        "copy"@.len() == 4 && "copy"@[0] == 'c',
        "rename"@.len() == 6 && "rename"@[0] == 'r',
        "export"@.len() == 6 && "export"@[0] == 'e',
        "check"@.len() == 5,
        "dump"@.len() == 4 && "dump"@[0] == 'd',
        "deldir"@[0] == 'd',
{
    reveal_strlit("list");
    reveal_strlit("get");
    reveal_strlit("makedir");
    reveal_strlit("deldir");
    reveal_strlit("delete");
    reveal_strlit("move");
    reveal_strlit("copy");
    reveal_strlit("rename");
    reveal_strlit("export");
    reveal_strlit("check");
    reveal_strlit("dump");
}

/// A call without the arguments that its command needs is refused; those that a command can do
/// without are missing then. What is no command is refused under its name.
#[verifier::rlimit(40)]
pub proof fn law_missing_arguments(program: Seq<char>, cmd: Seq<char>, a: Seq<char>)
    ensures
        ({
            let none = seq![program, cmd];
            let one = seq![program, cmd, a];
            &&& requested(none, "get"@) is Err && requested(one, "get"@) is Err
            &&& requested(none, "move"@) is Err && requested(one, "move"@) is Err
            &&& requested(none, "copy"@) is Err && requested(one, "copy"@) is Err
            &&& requested(none, "rename"@) is Err && requested(one, "rename"@) is Err
            &&& requested(none, "delete"@) is Err
            &&& requested(one, "delete"@) == Ok::<RequestView, Fault>(
                RequestView::Delete { path: a, items: Seq::empty() },
            )
            &&& requested(one, "list"@) == Ok::<RequestView, Fault>(
                RequestView::List { path: a, out_file: None },
            )
            &&& requested(one, "makedir"@) == Ok::<RequestView, Fault>(
                RequestView::MakeDir { path: a, name: None },
            )
            &&& requested(one, "deldir"@) == Ok::<RequestView, Fault>(
                RequestView::DelDir { path: a, name: None },
            )
            &&& requested(none, "dump"@) == Ok::<RequestView, Fault>(
                RequestView::Dump { target: None },
            )
            &&& requested(one, cmd) matches Ok(r) ==> is_command(cmd)
            &&& !is_command(cmd) ==> requested(one, cmd) == Err::<RequestView, Fault>(
                Fault { reason: Reason::UnknownCommand, detail: cmd },
            )
        }),
{
    lemma_command_names();
    let one = seq![program, cmd, a];
    assert(one.skip(3) =~= Seq::<Seq<char>>::empty());
}

/// The text is the name of a command.
pub open spec fn is_command(cmd: Seq<char>) -> bool {
    cmd == "list"@ || cmd == "get"@ || cmd == "makedir"@ || cmd == "deldir"@ || cmd == "delete"@
        || cmd == "move"@ || cmd == "copy"@ || cmd == "rename"@ || cmd == "export"@ || cmd
        == "check"@ || cmd == "dump"@
}

/// An option that takes the next argument, with none behind it, sets no number: it is taken for
/// the target where none is named.
pub proof fn law_option_without_its_value(before: Seq<Seq<char>>, option: Seq<char>)
    requires
        forall|k: int| 0 <= k < before.len() ==> !takes_next(#[trigger] before[k]),
        takes_next(option),
        !is_option(option, seq!["trash"@]),
        !is_option(option, seq!["isolate"@]),
        option_value(option, seq!["timeout"@]) is None,
        option_value(option, seq!["threads"@]) is None,
    ensures
        ({
            let a = check_of(before);
            let b = check_of(before.push(option));
            &&& b.timeout_secs == a.timeout_secs && b.threads == a.threads
            &&& b.to_trash == a.to_trash && b.to_isolate == a.to_isolate
            &&& b.target == (if a.target.len() == 0 {
                option
            } else {
                a.target
            })
        }),
{
    let all = before + seq![option];
    assert(before.push(option) =~= all);
    lemma_check_goes_on(before, seq![option], 0, default_check());
    reveal_with_fuel(check_args, 2);
    assert(all[before.len() as int] == option);
}

} // verus!
