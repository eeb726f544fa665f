use auxbookmark::cli::{
    is_opt, parse_check, parse_export, read_call, read_call_with, split_debug, strip_opt_val, Call,
    Request, HELP,
};

fn args(s: &[&str]) -> Vec<String> {
    s.iter().map(|x| x.to_string()).collect()
}

#[test]
fn options_have_three_marks() {
    for a in ["--debug", "-DEBUG", " /Debug ", "--d"] {
        assert!(is_opt(a, &["debug", "d"]), "{}", a);
    }
    for a in ["debug", "---debug", "--debugs", "-", ""] {
        assert!(!is_opt(a, &["debug", "d"]), "{}", a);
    }
    assert!(is_opt("--", &[""]));
}

#[test]
fn values_stand_behind_a_sign() {
    assert_eq!(strip_opt_val("--Timeout=10", &["timeout"]), Some("10"));
    assert_eq!(strip_opt_val("/timeout:x y", &["t", "timeout"]), Some("x y"));
    assert_eq!(strip_opt_val("-timeout=", &["timeout"]), Some(""));
    assert_eq!(strip_opt_val("--timeout", &["timeout"]), None);
    assert_eq!(strip_opt_val("--timeouts=1", &["timeout"]), None);
    assert_eq!(strip_opt_val("timeout=1", &["timeout"]), None);
    assert_eq!(strip_opt_val("--タイ=1", &["t", "タイ"]), Some("1"));
}

#[test]
fn a_value_stands_behind_its_option() {
    let names = ["timeout", "t", "タイ"];
    for mark in ["--", "-", "/"] {
        for name in ["timeout", "TimeOut", "T", "タイ"] {
            let option = format!("{}{}", mark, name);
            assert!(is_opt(&option, &names));
            assert_eq!(strip_opt_val(&option, &names), None);
            for value in ["", "10", "a=b:c", "-x"] {
                for sep in ["=", ":"] {
                    let arg = format!(" {}{}{}", option, sep, value);
                    assert_eq!(strip_opt_val(&arg, &names), Some(value));
                    assert!(!is_opt(&arg, &names));
                }
            }
        }
    }
    for arg in ["---t=1", "t=1", "--t 1", "--t", "--x=1", "--=1", ""] {
        assert_eq!(strip_opt_val(arg, &names), None);
    }
}

#[test]
fn debug_options_are_taken_out() {
    let (rest, debug) = split_debug(&args(&["exe", "-d", "list", "/DEBUG"]));
    assert_eq!((rest, debug), (args(&["exe", "list"]), true));
    let (rest, debug) = split_debug(&args(&["exe", "list"]));
    assert_eq!((rest, debug), (args(&["exe", "list"]), false));
}

#[test]
fn export_takes_a_target_and_a_file() {
    let e = parse_export(&args(&["Brave", "--all", "out.html", "extra"]));
    assert_eq!((e.target.as_str(), e.out_file.as_deref(), e.include_trash), ("Brave", Some("out.html"), true));
    let e = parse_export(&args(&["", "Edge", "-include-trash"]));
    assert_eq!((e.target.as_str(), e.out_file, e.include_trash), ("Edge", None, true));
    let e = parse_export(&[]);
    assert_eq!((e.target.as_str(), e.out_file, e.include_trash), ("", None, false));
}

#[test]
fn check_takes_options() {
    let c = parse_check(&args(&["Brave", "--timeout", "10", "--threads=16", "--trash", "x"]));
    assert_eq!((c.target.as_str(), c.to_trash, c.to_isolate), ("Brave", true, false));
    assert_eq!((c.timeout_secs, c.threads), (10, 16));
    let c = parse_check(&args(&["--isolate", "/threads", "0", "-timeout:0", "Firefox"]));
    assert_eq!((c.target.as_str(), c.to_trash, c.to_isolate), ("Firefox", false, true));
    assert_eq!((c.timeout_secs, c.threads), (1, 1));
    let c = parse_check(&args(&["--timeout", "x", "--timeout"]));
    assert_eq!((c.target.as_str(), c.timeout_secs, c.threads), ("--timeout", 5, 8));
}

#[test]
fn calls_are_read() {
    match read_call(&args(&["exe", "LIST", "p", "f"])) {
        Call::Run(Request::List { path, out_file }) => {
            assert_eq!((path.as_str(), out_file.as_deref()), ("p", Some("f")));
        }
        other => panic!("{:?}", other),
    }
    match read_call(&args(&["exe", "list"])) {
        Call::Run(Request::List { path, out_file }) => assert_eq!((path.as_str(), out_file), ("", None)),
        other => panic!("{:?}", other),
    }
    match read_call(&args(&["exe", "get", "p", "f"])) {
        Call::Run(Request::Get { path, file }) => assert_eq!((path.as_str(), file.as_str()), ("p", "f")),
        other => panic!("{:?}", other),
    }
    match read_call(&args(&["exe", "makedir", "p"])) {
        Call::Run(Request::MakeDir { path, name }) => assert_eq!((path.as_str(), name), ("p", None)),
        other => panic!("{:?}", other),
    }
    match read_call(&args(&["exe", "deldir", "p", "n"])) {
        Call::Run(Request::DelDir { path, name }) => {
            assert_eq!((path.as_str(), name.as_deref()), ("p", Some("n")));
        }
        other => panic!("{:?}", other),
    }
    match read_call(&args(&["exe", "delete", "p", "a", "b"])) {
        Call::Run(Request::Delete { path, items }) => {
            assert_eq!((path.as_str(), items), ("p", args(&["a", "b"])));
        }
        other => panic!("{:?}", other),
    }
    match read_call(&args(&["exe", "move", "a", "b"])) {
        Call::Run(Request::Move { src, dest }) => assert_eq!((src.as_str(), dest.as_str()), ("a", "b")),
        other => panic!("{:?}", other),
    }
    match read_call(&args(&["exe", "copy", "a", "b"])) {
        Call::Run(Request::Copy { src, dest }) => assert_eq!((src.as_str(), dest.as_str()), ("a", "b")),
        other => panic!("{:?}", other),
    }
    match read_call(&args(&["exe", "rename", "a", "b"])) {
        Call::Run(Request::Rename { src, dest }) => assert_eq!((src.as_str(), dest.as_str()), ("a", "b")),
        other => panic!("{:?}", other),
    }
    match read_call(&args(&["exe", "export", "Brave"])) {
        Call::Run(Request::Export { args }) => assert_eq!(args.target, "Brave"),
        other => panic!("{:?}", other),
    }
    match read_call(&args(&["exe", "check", "Brave", "--isolate"])) {
        Call::Run(Request::Check { options }) => assert!(options.to_isolate),
        other => panic!("{:?}", other),
    }
    match read_call(&args(&["exe", "dump"])) {
        Call::Run(Request::Dump { target }) => assert_eq!(target, None),
        other => panic!("{:?}", other),
    }
}

#[test]
fn calls_with_too_few_arguments_are_refused() {
    for (a, message) in [
        (vec!["exe", "get", "p"], "Usage: auxbookmark get <virtual_path> <dest_local_file>"),
        (vec!["exe", "delete"], "Usage: auxbookmark delete <parent_path> [item1 item2...]"),
        (vec!["exe", "move", "a"], "Usage: auxbookmark move <src_path> <dest_path>"),
        (vec!["exe", "copy"], "Usage: auxbookmark copy <src_path> <dest_path>"),
        (vec!["exe", "rename", "a"], "Usage: auxbookmark rename <src_path> <dest_path>"),
        (vec!["exe", "Fly"], "Unknown command: fly"),
    ] {
        match read_call(&args(&a)) {
            Call::Refuse(e) => assert_eq!(e.message(), message),
            other => panic!("{:?}", other),
        }
    }
}

#[test]
fn help_is_asked_for_in_many_ways() {
    assert!(matches!(read_call(&args(&["exe"])), Call::Help));
    for h in ["help", "--HELP", "-help", "-h", "/H", "/help", "/?", "-?"] {
        assert!(matches!(read_call(&args(&["exe", h])), Call::Help), "{}", h);
    }
    assert!(!matches!(read_call_with(&args(&["exe", "help"]), "list"), Call::Help));
    assert!(HELP.starts_with("auxbookmark v0.2.0 - PPx aux: path Web Bookmark bridge\nA light"));
    assert!(HELP.contains("(title\\turl\\tbrowser\\tpath)"));
    assert!(HELP.ends_with("(configured in auxbookmark.ini).\n"));
    assert_eq!(HELP.lines().count(), 45);
}
