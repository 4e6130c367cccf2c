use scoop_sync::channel::{
    command_line, finish_exec, frame_command, is_end_marker, quote_arg, scoop_command,
    scoop_script_path, END_MARKER, FRAME_SUFFIX,
};
use scoop_sync::commands::{
    check_command, check_export, depends_command, export_command, install_apps_command,
    install_bucket_command, uninstall_apps_command, uninstall_buckets_command,
};
use scoop_sync::depends::{parse_dependencies, DependsError};
use scoop_sync::model::{ExecResult, ScoopApp, ScoopBucket};

fn strings(v: &[&str]) -> Vec<String> {
    v.iter().map(|s| s.to_string()).collect()
}

fn exec(stdout: &str, stderr: &str, code: i32) -> ExecResult {
    ExecResult { stdout: stdout.to_string(), stderr: stderr.to_string(), exit_code: code }
}

fn app(bucket: &str, name: &str) -> ScoopApp {
    ScoopApp::new(bucket.to_string(), name.to_string())
}

#[test]
fn quote_space_uses_double_quotes() {
    assert_eq!(quote_arg("a b"), "\"a b\"");
}

#[test]
fn quote_double_quote_uses_single_quotes() {
    assert_eq!(quote_arg("say \"hi\""), "'say \"hi\"'");
}

#[test]
fn quote_single_quote_uses_double_quotes() {
    assert_eq!(quote_arg("it's"), "\"it's\"");
}

#[test]
fn quote_plain_unchanged() {
    assert_eq!(quote_arg("plain"), "plain");
}

/// Splits a command line the way the session reads it back: spaces separate
/// words, and a word may be wrapped in single or double quotes.
fn resplit(line: &str) -> Vec<String> {
    let mut out = Vec::new();
    let chars: Vec<char> = line.chars().collect();
    let mut i = 0;
    while i < chars.len() {
        if chars[i] == ' ' {
            i += 1;
            continue;
        }
        if chars[i] == '"' || chars[i] == '\'' {
            let q = chars[i];
            let mut j = i + 1;
            while chars[j] != q {
                j += 1;
            }
            out.push(chars[i + 1..j].iter().collect());
            i = j + 1;
        } else {
            let mut j = i;
            while j < chars.len() && chars[j] != ' ' {
                j += 1;
            }
            out.push(chars[i..j].iter().collect());
            i = j;
        }
    }
    out
}

#[test]
fn command_line_resplits_into_arguments() {
    let args = strings(&["&", "C:\\Users\\me\\scoop.ps1", "a b", "say \"hi\"", "it's", "plain"]);
    let line = command_line(&args);
    assert_eq!(line, "& C:\\Users\\me\\scoop.ps1 \"a b\" 'say \"hi\"' \"it's\" plain");
    assert_eq!(resplit(&line), args);
}

#[test]
fn command_line_of_nothing_is_empty() {
    assert_eq!(command_line(&Vec::new()), "");
}

#[test]
fn frame_appends_status_and_markers() {
    let framed = frame_command("scoop export");
    assert_eq!(framed, format!("scoop export{}", FRAME_SUFFIX));
    assert!(framed.contains("$exitCode = $LASTEXITCODE"));
    assert!(framed.contains("[Console]::Out.WriteLine(\"EXIT_CODE:$exitCode\")"));
    assert!(framed.contains(&format!("[Console]::Out.WriteLine('{}')", END_MARKER)));
    assert!(framed.contains(&format!("[Console]::Error.WriteLine('{}')", END_MARKER)));
    assert!(framed.ends_with('\n'));
}

#[test]
fn end_marker_recognised_with_line_ending() {
    assert!(is_end_marker("----------END_OF_COMMAND----------\r\n"));
    assert!(is_end_marker("----------END_OF_COMMAND----------"));
    assert!(!is_end_marker("x----------END_OF_COMMAND----------"));
    assert!(!is_end_marker(""));
}

#[test]
fn exit_code_taken_from_last_tag() {
    let r = finish_exec("hello EXIT_CODE:5 inside\nEXIT_CODE:3\n", "warn\n\n").unwrap();
    assert_eq!(r.exit_code, 3);
    assert_eq!(r.stdout, "hello EXIT_CODE:5 inside");
    assert_eq!(r.stderr, "warn");
}

#[test]
fn exit_code_zero_and_empty_output() {
    let r = finish_exec("EXIT_CODE:0\r\n", "").unwrap();
    assert_eq!(r.exit_code, 0);
    assert_eq!(r.stdout, "");
    assert_eq!(r.stderr, "");
    assert!(r.success());
}

#[test]
fn exit_code_negative_and_unreadable() {
    assert_eq!(finish_exec("out\nEXIT_CODE:-2", "").unwrap().exit_code, -2);
    assert_eq!(finish_exec("out\nEXIT_CODE:", "").unwrap().exit_code, -1);
    assert_eq!(finish_exec("out\nEXIT_CODE:abc", "").unwrap().exit_code, -1);
    assert_eq!(finish_exec("EXIT_CODE:99999999999", "").unwrap().exit_code, -1);
    assert_eq!(finish_exec("EXIT_CODE:+7", "").unwrap().exit_code, 7);
    assert_eq!(finish_exec("EXIT_CODE:-2147483648", "").unwrap().exit_code, i32::MIN);
}

#[test]
fn missing_tag_is_desync() {
    let e = finish_exec("no tag here\n", "").unwrap_err();
    assert_eq!(e.stdout, "no tag here\n");
}

#[test]
fn script_path_under_home() {
    assert_eq!(
        scoop_script_path("C:\\Users\\me\r\n"),
        "C:\\Users\\me\\scoop\\apps\\scoop\\current\\bin\\scoop.ps1"
    );
}

#[test]
fn scoop_command_prefixes_call() {
    let cmd = scoop_command("C:\\s.ps1", &strings(&["depends", "main/git"]));
    assert_eq!(cmd, strings(&["&", "C:\\s.ps1", "depends", "main/git"]));
}

#[test]
fn dependencies_listed_after_header() {
    let out = "Source Name\n------ ----\nmain   curl\n\nextras 7zip\n";
    let deps = parse_dependencies(&exec(out, "", 0)).unwrap();
    let ids: Vec<String> = deps.iter().map(|a| a.to_string()).collect();
    assert_eq!(ids, vec!["main/curl", "extras/7zip"]);
}

#[test]
fn dependencies_none_after_header() {
    let deps = parse_dependencies(&exec("Source Name\n------ ----\n", "", 0)).unwrap();
    assert!(deps.is_empty());
    assert!(parse_dependencies(&exec("", "", 0)).unwrap().is_empty());
}

#[test]
fn dependencies_bad_line() {
    let out = "Source Name\n------ ----\nmain curl extra\n";
    assert!(matches!(parse_dependencies(&exec(out, "", 0)), Err(DependsError::BadLine)));
}

#[test]
fn dependencies_failed_command() {
    let r = parse_dependencies(&exec("Source Name\n", "boom", 1));
    match r {
        Err(DependsError::CommandFailed { stderr }) => assert_eq!(stderr, "boom"),
        _ => panic!("expected a failed command"),
    }
}

#[test]
fn dependencies_missing_manifest() {
    let r = parse_dependencies(&exec("Couldn't find manifest for 'nope'.", "", 0));
    assert!(matches!(r, Err(DependsError::ManifestMissing { .. })));
}

#[test]
fn app_id_round_trip() {
    let a = ScoopApp::parse("main/git").unwrap();
    assert_eq!(a.bucket_name, "main");
    assert_eq!(a.name, "git");
    assert_eq!(a.to_string(), "main/git");
}

#[test]
fn app_id_malformed() {
    assert!(ScoopApp::parse("maingit").is_none());
    assert!(ScoopApp::parse("a/b/c").is_none());
    assert!(ScoopApp::parse("").is_none());
}

#[test]
fn command_builders() {
    assert_eq!(export_command(), strings(&["export"]));
    assert_eq!(depends_command(&app("main", "git")), strings(&["depends", "main/git"]));
    let b = ScoopBucket::new("extras".to_string(), "https://example.org/extras".to_string());
    assert_eq!(
        install_bucket_command(&b),
        strings(&["bucket", "add", "extras", "https://example.org/extras"])
    );
    assert_eq!(uninstall_buckets_command(&vec![b]), Some(strings(&["bucket", "rm", "extras"])));
    assert_eq!(uninstall_buckets_command(&Vec::new()), None);
    let apps = vec![app("main", "git"), app("extras", "7zip")];
    assert_eq!(
        install_apps_command(&apps),
        Some(strings(&["install", "main/git", "extras/7zip"]))
    );
    assert_eq!(install_apps_command(&Vec::new()), None);
    assert_eq!(
        uninstall_apps_command(&apps),
        Some(strings(&["uninstall", "main/git", "extras/7zip"]))
    );
    assert_eq!(uninstall_apps_command(&Vec::new()), None);
}

#[test]
fn command_and_export_status() {
    assert!(check_command(&exec("", "", 0)).is_ok());
    let e = check_command(&exec("", "denied", 2)).unwrap_err();
    assert_eq!(e.exit_code, 2);
    assert_eq!(e.stderr, "denied");
    assert!(check_export(&exec("{}", "", 0)).is_ok());
    assert_eq!(check_export(&exec("", "x", 1)).unwrap_err().stderr, "x");
}
