use drey::install::plan::{
    install_changes, install_steps, uninstall_changes, uninstall_steps, Change, Setup,
};
use drey::install::rc::{add_path_block, lines_of, rc_files, rc_files_for_removal};
use drey::install::report::{
    install_intro, install_outro, install_rc, uninstall_intro, uninstall_outro, uninstall_rc, Step,
};
use drey::install::{
    append_path_block, asdf_answer, backup_path, candidates, check_exe, civil_from_days, discover,
    drey_wrappers, is_asdf_shim, is_drey_wrapper, known_servers, may_write_wrapper,
    read_asdf_answer, render_config, render_wrapper, resolve_on_path, strip_path_block, timestamp,
    wrapper_dir, File, Found, MARK_BEGIN, MARK_END, WRAPPER_MARK,
};

fn strings(list: &[&str]) -> Vec<String> {
    list.iter().map(|s| s.to_string()).collect()
}

#[test]
fn path_scan_takes_the_first_executable_hit() {
    let entries = strings(&["/t/a", "/t/b"]);
    let executable = strings(&["/t/b/gopls", "/t/a/gopls"]);
    assert_eq!(
        resolve_on_path("gopls", &entries, "/nonexistent", &executable),
        Some("/t/a/gopls".to_string())
    );
    assert_eq!(candidates("gopls", &entries, "/nonexistent"), ["/t/a/gopls", "/t/b/gopls"]);
}

#[test]
fn path_scan_skips_our_own_wrapper_directory() {
    // Without this, install would record ~/.drey/bin/gopls as the "real" gopls and the daemon
    // would exec the wrapper that called it.
    let entries = strings(&["/t/drey-bin", "/t/real"]);
    let executable = strings(&["/t/drey-bin/gopls", "/t/real/gopls"]);
    assert_eq!(
        resolve_on_path("gopls", &entries, "/t/drey-bin", &executable),
        Some("/t/real/gopls".to_string())
    );
    assert_eq!(candidates("gopls", &entries, "/t/drey-bin"), ["/t/real/gopls"]);
}

#[test]
fn path_scan_skips_anything_inside_the_wrapper_directory() {
    let entries = strings(&["/h/.drey/bin/", "/h/.drey/bin/old", "/h//.drey/./bin", "/usr/bin"]);
    let executable = strings(&[
        "/h/.drey/bin/gopls",
        "/h/.drey/bin/old/gopls",
        "/h//.drey/./bin/gopls",
        "/usr/bin/gopls",
    ]);
    assert_eq!(
        resolve_on_path("gopls", &entries, "/h/.drey/bin", &executable),
        Some("/usr/bin/gopls".to_string())
    );
    assert_eq!(candidates("gopls", &entries, "/h/.drey/bin"), ["/usr/bin/gopls"]);
    // A sibling that merely begins alike is not inside.
    let sibling = strings(&["/h/.drey/bin2"]);
    assert_eq!(candidates("gopls", &sibling, "/h/.drey/bin"), ["/h/.drey/bin2/gopls"]);
}

#[test]
fn path_scan_ignores_non_executable_files_of_the_right_name() {
    let tmp = tempfile::tempdir().unwrap();
    let entries = vec![tmp.path().to_string_lossy().into_owned()];
    // A file of that name would be looked at, and is not executable.
    assert_eq!(candidates("zls", &entries, "/nope"), [format!("{}/zls", entries[0])]);
    assert_eq!(resolve_on_path("zls", &entries, "/nope", &Vec::new()), None);
}

#[test]
fn path_scan_returns_nothing_when_the_binary_is_absent() {
    let tmp = tempfile::tempdir().unwrap();
    let entries = vec![tmp.path().to_string_lossy().into_owned()];
    assert_eq!(resolve_on_path("no-such-server", &entries, "/nope", &Vec::new()), None);
}

fn found(name: &str, command: &str, markers: &[&str]) -> Found {
    Found {
        name: name.to_string(),
        command: command.to_string(),
        root_markers: strings(markers),
    }
}

#[test]
fn generated_config_parses_back_into_the_real_config_type() {
    let text = render_config(&vec![
        found("gopls", "/usr/local/bin/gopls", &["go.work", "go.mod"]),
        found("zls", "/opt/zls", &["build.zig"]),
    ]);
    let cfg: toml::Table = toml::from_str(&text).unwrap();
    assert_eq!(cfg["daemon"]["idle_timeout_secs"].as_integer(), Some(1800));
    assert_eq!(cfg["server"]["gopls"]["command"].as_str(), Some("/usr/local/bin/gopls"));
    let markers: Vec<&str> = cfg["server"]["gopls"]["root_markers"]
        .as_array()
        .unwrap()
        .iter()
        .map(|m| m.as_str().unwrap())
        .collect();
    assert_eq!(markers, ["go.work", "go.mod"]);
    assert_eq!(cfg["server"]["zls"]["command"].as_str(), Some("/opt/zls"));
}

#[test]
fn generated_config_records_absolute_paths_only() {
    let text = render_config(&vec![found("ruff", "/usr/bin/ruff", &["ruff.toml"])]);
    assert!(text.contains("command = \"/usr/bin/ruff\""), "{text}");
}

#[test]
fn a_config_with_no_servers_is_still_valid() {
    let cfg: toml::Table = toml::from_str(&render_config(&Vec::new())).unwrap();
    assert_eq!(cfg["daemon"]["idle_timeout_secs"].as_integer(), Some(1800));
}

#[test]
fn the_config_does_not_depend_on_the_order_of_discovery() {
    let (a, b) = (|| found("a", "/x/a", &[]), || found("b", "/x/b", &["m", "n"]));
    let text = render_config(&vec![b(), a()]);
    assert_eq!(text, render_config(&vec![a(), b()]));
    assert!(
        text.ends_with(
            "idle_timeout_secs = 1800\n\n[server.a]\ncommand = \"/x/a\"\n\n[server.b]\n\
             command = \"/x/b\"\nroot_markers = [\"m\", \"n\"]\n\n"
        ),
        "{text}"
    );
    // Of two under one name the later one counts.
    let twice = render_config(&vec![found("a", "/old", &[]), found("a", "/new", &[])]);
    assert!(twice.contains("/new") && !twice.contains("/old"), "{twice}");
}

#[test]
fn wrapper_execs_the_binary_it_was_given() {
    let w = render_wrapper("gopls", "/opt/homebrew/bin/drey");
    assert!(w.starts_with("#!/bin/sh\n"), "{w}");
    assert!(
        w.contains("exec \"/opt/homebrew/bin/drey\" serve \"gopls\" \"$@\""),
        "{w}"
    );
    assert!(w.contains(WRAPPER_MARK), "{w}");
}

#[test]
fn the_rc_block_prepends_the_wrapper_directory() {
    let out = append_path_block("export EDITOR=vi\n");
    assert!(out.contains(MARK_BEGIN) && out.contains(MARK_END), "{out}");
    assert!(out.contains("export PATH=\"$HOME/.drey/bin:$PATH\""), "{out}");
    assert!(out.starts_with("export EDITOR=vi\n"), "{out}");
    assert_eq!(
        append_path_block(""),
        "\n# >>> drey >>>\n# Shared language servers. Remove this block to disable drey.\n\
         export PATH=\"$HOME/.drey/bin:$PATH\"\n# <<< drey <<<\n"
    );
}

#[test]
fn stripping_the_block_restores_the_original_file() {
    let original = "export EDITOR=vi\n";
    assert_eq!(strip_path_block(&append_path_block(original)), original);
    assert_eq!(strip_path_block(&append_path_block("")), "");
}

#[test]
fn stripping_leaves_a_file_without_the_block_alone() {
    assert_eq!(strip_path_block("export A=1\n"), "export A=1\n");
}

#[test]
fn stripping_keeps_lines_that_follow_the_block() {
    let text = format!("{}source ~/other\n", append_path_block("export A=1\n"));
    assert_eq!(strip_path_block(&text), "export A=1\nsource ~/other\n");
}

#[test]
fn stripping_twice_does_no_more_than_once() {
    for text in ["", "a", "a\n\n# >>> drey >>>\nx\n\n# <<< drey <<<\nb", "# <<< drey <<<\n\n"] {
        let once = strip_path_block(text);
        assert_eq!(strip_path_block(&once), once, "{text}");
    }
}

#[test]
fn stripping_ends_every_line_in_a_line_feed() {
    assert_eq!(strip_path_block("a\r\nb"), "a\nb\n");
    assert_eq!(strip_path_block("a\r"), "a\r\n");
    assert_eq!(lines_of("a\r\n\nb\r"), ["a", "", "b\r"]);
    assert!(lines_of("").is_empty());
}

#[test]
fn the_block_is_added_once_and_removed_once_on_a_real_file() {
    let text = add_path_block(Some("export A=1\n")).unwrap();
    assert!(add_path_block(Some(&text)).is_none());
    assert_eq!(text.matches(MARK_BEGIN).count(), 1, "{text}");
    assert_eq!(backup_path("/h/.zshenv", "20260101-000000"), "/h/.zshenv.backup-20260101-000000");
    assert_eq!(strip_path_block(&text), "export A=1\n");
    assert_eq!(add_path_block(None).unwrap(), append_path_block(""));
}

#[test]
fn only_files_carrying_the_marker_count_as_wrappers() {
    let file = |path: &str, text: Option<String>| File { path: path.to_string(), text };
    let files = vec![
        file("/b/zls", Some(render_wrapper("zls", "/bin/drey"))),
        file("/b/something-else", Some("#!/bin/sh\necho hi\n".to_string())),
        file("/b/unreadable", None),
        file("/b/gopls", Some(render_wrapper("gopls", "/bin/drey"))),
    ];
    assert_eq!(drey_wrappers(&files), ["/b/gopls", "/b/zls"]);
}

#[test]
fn a_missing_wrapper_directory_is_not_an_error() {
    assert!(drey_wrappers(&Vec::new()).is_empty());
}

#[test]
fn wrappers_are_written_executable_and_never_clobber_a_stranger() {
    let stranger = "#!/bin/sh\nreal ruff\n";
    assert!(!may_write_wrapper(false, true, Some(stranger)));
    assert!(!may_write_wrapper(false, true, None));
    assert!(may_write_wrapper(true, true, Some(stranger)));
    assert!(may_write_wrapper(false, false, None));
    let ours = render_wrapper("ruff", "/opt/drey");
    assert!(is_drey_wrapper(Some(&ours)) && !is_drey_wrapper(None));
    assert!(may_write_wrapper(false, true, Some(&ours)));
}

#[test]
fn the_backup_suffix_is_a_sortable_timestamp() {
    let now = std::time::SystemTime::now()
        .duration_since(std::time::UNIX_EPOCH)
        .unwrap()
        .as_secs();
    let stamp = timestamp(now as i64);
    assert_eq!(stamp.len(), 15, "{stamp}");
    assert!(stamp.chars().nth(8) == Some('-'), "{stamp}");
    assert!(stamp.starts_with("20"), "{stamp}");
    assert!(timestamp(now as i64 - 1) < stamp);
}

#[test]
fn timestamps_are_in_utc() {
    assert_eq!(timestamp(0), "19700101-000000");
    assert_eq!(timestamp(1_709_211_845), "20240229-130405");
    assert_eq!(timestamp(-1), "19691231-235959");
    assert_eq!(timestamp(253_402_300_799), "99991231-235959");
    assert_eq!(timestamp(-62_167_219_201), "-0011231-235959");
}

#[test]
fn the_calendar_conversion_matches_known_dates() {
    assert_eq!(civil_from_days(0), (1970, 1, 1));
    assert_eq!(civil_from_days(19_723), (2024, 1, 1));
    // A leap day, where a naive 365-day approximation would drift.
    assert_eq!(civil_from_days(19_782), (2024, 2, 29));
    assert_eq!(civil_from_days(-1), (1969, 12, 31));
    assert_eq!(civil_from_days(-719_468), (0, 3, 1));
}

#[test]
fn every_known_server_has_markers_and_a_usable_name() {
    for k in known_servers() {
        assert!(!k.root_markers.is_empty(), "{} has no markers", k.name);
        assert!(!k.name.contains('/'), "{} is not a filename", k.name);
    }
    assert_eq!(known_servers().len(), 15);
}

#[test]
fn servers_are_discovered_on_the_search_path() {
    let entries = strings(&["/h/.drey/bin", "/h/.asdf/shims", "/usr/bin"]);
    let executable = strings(&[
        "/h/.drey/bin/gopls",
        "/h/.asdf/shims/gopls",
        "/usr/bin/zls",
        "/usr/bin/OmniSharp",
    ]);
    let asdf = vec![("gopls".to_string(), "/h/.asdf/installs/gopls".to_string())];
    let got = discover(&entries, "/h/.drey/bin", &executable, &asdf);
    assert_eq!(
        got,
        [
            found("gopls", "/h/.asdf/installs/gopls", &["go.work", "go.mod"]),
            found("zls", "/usr/bin/zls", &["build.zig"]),
            found("omnisharp", "/usr/bin/OmniSharp", &["*.sln"]),
        ]
    );
    let without = discover(&entries, "/h/.drey/bin", &executable, &Vec::new());
    assert_eq!(without[0].command, "/h/.asdf/shims/gopls");
}

#[test]
fn asdf_is_believed_when_it_succeeds_and_says_something() {
    assert!(is_asdf_shim("/h/.asdf/shims/gopls") && !is_asdf_shim("/usr/bin/gopls"));
    assert_eq!(asdf_answer(true, " /x/gopls\n"), Some("/x/gopls".to_string()));
    assert_eq!(asdf_answer(true, " \n"), None);
    assert_eq!(asdf_answer(false, "/x/gopls"), None);
    assert_eq!(read_asdf_answer(true, b"/x\xff\n"), Some("/x\u{fffd}".to_string()));
}

#[test]
fn a_wrapper_does_not_install_itself() {
    assert!(check_exe("/usr/bin/drey", "/h/.drey/bin").is_ok());
    assert!(check_exe("/h/.drey/bin/drey", "/h/.drey/bin").is_ok());
    assert!(check_exe("/", "/h/.drey/bin").is_ok());
    let err = check_exe("/h/.drey/bin/gopls", "/h/.drey/bin").unwrap_err();
    assert_eq!(
        err.message(),
        "the running binary /h/.drey/bin/gopls is inside the wrapper directory /h/.drey/bin; \
         wrappers pointing there would exec themselves"
    );
    assert_eq!(wrapper_dir(Some("/h")), "/h/.drey/bin");
    assert_eq!(wrapper_dir(None), "./.drey/bin");
}

#[test]
fn both_zsh_files_get_the_block() {
    assert_eq!(rc_files(Some("/h"), true, false, false), ["/h/.zshenv", "/h/.zshrc"]);
    assert_eq!(rc_files(Some("/h"), false, false, true), ["/h/.zshenv", "/h/.zshrc"]);
    assert_eq!(rc_files(Some("/h"), false, false, false), ["/h/.bashrc"]);
    assert!(rc_files(None, true, true, true).is_empty());
    assert_eq!(
        rc_files_for_removal(Some("/h")),
        ["/h/.zshenv", "/h/.zshrc", "/h/.bashrc", "/h/.profile"]
    );
    assert!(rc_files_for_removal(None).is_empty());
}

#[test]
fn a_startup_file_is_changed_once_and_never_in_a_dry_run() {
    let plain = "export A=1\n";
    let dry = install_rc("/h/.zshrc", Some(plain), true);
    assert_eq!(dry.step.message(), "  would add PATH entry to /h/.zshrc");
    assert!(dry.text.is_none());
    let wet = install_rc("/h/.zshrc", Some(plain), false);
    assert_eq!(wet.step.message(), "  added PATH entry to /h/.zshrc");
    let text = wet.text.unwrap();
    assert_eq!(text, append_path_block(plain));
    let again = install_rc("/h/.zshrc", Some(&text), false);
    assert_eq!(again.step.message(), "  PATH entry already present in /h/.zshrc");
    assert!(again.text.is_none());

    assert!(uninstall_rc("/h/.zshrc", None, false).is_none());
    assert!(uninstall_rc("/h/.zshrc", Some(plain), false).is_none());
    let dry = uninstall_rc("/h/.zshrc", Some(&text), true).unwrap();
    assert_eq!(dry.step.message(), "  would remove PATH entry from /h/.zshrc");
    assert!(dry.text.is_none());
    let wet = uninstall_rc("/h/.zshrc", Some(&text), false).unwrap();
    assert_eq!(
        wet.step.message(),
        "  removed PATH entry from /h/.zshrc (backup alongside it)"
    );
    assert_eq!(wet.text.unwrap(), plain);
}

#[test]
fn every_step_is_said_in_words() {
    let s = |t: &str| t.to_string();
    for (step, words) in [
        (Step::WouldWriteConfig { path: s("/c") }, "  would write /c"),
        (
            Step::WouldWriteWrappers { count: 12, dir: s("/b") },
            "  would write 12 wrapper(s) to /b",
        ),
        (Step::NothingChanged, "  nothing was changed"),
        (Step::BackedUpConfig { to: s("/c.b") }, "  backed up existing config to /c.b"),
        (Step::WroteConfig { path: s("/c") }, "  wrote /c"),
        (
            Step::SkippedWrapper { path: s("/b/x") },
            "  skipping /b/x (not a drey wrapper; use --force to replace)",
        ),
        (Step::WroteWrappers { count: 0, dir: s("/b") }, "  wrote 0 wrapper(s) to /b"),
        (Step::WouldRemove { path: s("/b/x") }, "  would remove /b/x"),
        (Step::Removed { path: s("/b/x") }, "  removed /b/x"),
        (Step::NoWrappers, "  no wrappers to remove"),
        (
            Step::LeftConfig { path: s("/c") },
            "  left /c in place; delete it yourself if you want it gone",
        ),
    ] {
        assert_eq!(step.message(), words);
    }
}

#[test]
fn install_and_uninstall_say_what_they_are() {
    assert_eq!(
        install_intro(true, "/bin/drey", &Vec::new()),
        [
            "",
            "drey install (dry run)",
            "",
            "  using binary: /bin/drey",
            "",
            "  no language servers found on PATH; nothing to interpose",
            "",
        ]
    );
    let one = vec![found("zls", "/x/zls", &[])];
    assert_eq!(
        install_intro(false, "/bin/drey", &one)[1..],
        ["drey install", "", "  using binary: /bin/drey", "", "  found zls -> /x/zls", ""]
    );
    assert_eq!(install_outro(true, "/h/.drey/bin"), ["", "  nothing was changed", ""]);
    let outro = install_outro(false, "/h/.drey/bin");
    assert_eq!(outro.len(), 11);
    assert_eq!(
        outro[5],
        "    which rust-analyzer      # should be /h/.drey/bin/rust-analyzer"
    );
    assert_eq!(uninstall_intro(false), ["", "drey uninstall", ""]);
    assert_eq!(uninstall_intro(true)[1], "drey uninstall (dry run)");
    assert_eq!(uninstall_outro().len(), 4);
}

fn file(path: &str, text: Option<&str>) -> File {
    File { path: path.to_string(), text: text.map(str::to_string) }
}

/// Two servers were found; somebody else's file stands where the wrapper of one would go.
fn setup() -> Setup {
    Setup {
        exe: "/opt/drey".to_string(),
        bin_dir: "/h/.drey/bin".to_string(),
        config: "/h/.config/drey/config.toml".to_string(),
        config_present: true,
        found: vec![found("gopls", "/x/gopls", &[]), found("zls", "/x/zls", &[])],
        wrappers: vec![file("/h/.drey/bin/zls", Some("#!/bin/sh\necho mine\n"))],
        rcs: vec![file("/h/.zshrc", Some("export A=1\n")), file("/h/.bashrc", None)],
        stamp: "S".to_string(),
    }
}

fn told(steps: &[Step]) -> Vec<String> {
    steps.iter().map(|s| s.message()).collect()
}

fn touched(changes: &[Change]) -> Vec<String> {
    changes
        .iter()
        .map(|c| match c {
            Change::MakeDir { path } => format!("mkdir {path}"),
            Change::Backup { path, to } => format!("copy {path} {to}"),
            Change::Write { path, executable, .. } => format!("write {path} {executable}"),
            Change::Remove { path } => format!("remove {path}"),
        })
        .collect()
}

fn written<'a>(changes: &'a [Change], at: &str) -> &'a str {
    changes
        .iter()
        .find_map(|c| match c {
            Change::Write { path, text, .. } if path == at => Some(text.as_str()),
            _ => None,
        })
        .unwrap()
}

#[test]
fn a_dry_run_changes_nothing() {
    let setup = setup();
    for force in [false, true] {
        assert!(install_changes(true, force, &setup).is_empty());
        assert_eq!(
            told(&install_steps(true, force, &setup)),
            [
                "  would write /h/.config/drey/config.toml",
                "  would write 2 wrapper(s) to /h/.drey/bin",
                "  would add PATH entry to /h/.zshrc",
                "  would add PATH entry to /h/.bashrc",
            ]
        );
    }
    let files = vec![file("/h/.drey/bin/gopls", Some(&render_wrapper("gopls", "/opt/drey")))];
    let rcs = vec![file("/h/.zshrc", Some(&append_path_block("export A=1\n")))];
    assert!(uninstall_changes(true, &files, &rcs, "S").is_empty());
    assert_eq!(
        told(&uninstall_steps(true, &files, &rcs)),
        ["  would remove /h/.drey/bin/gopls", "  would remove PATH entry from /h/.zshrc"]
    );
}

#[test]
fn installing_backs_up_what_it_replaces_and_skips_what_is_not_its_own() {
    let setup = setup();
    let changes = install_changes(false, false, &setup);
    assert_eq!(
        touched(&changes),
        [
            "mkdir /h/.config/drey",
            "copy /h/.config/drey/config.toml /h/.config/drey/config.toml.backup-S",
            "write /h/.config/drey/config.toml false",
            "mkdir /h/.drey/bin",
            "write /h/.drey/bin/gopls true",
            "copy /h/.zshrc /h/.zshrc.backup-S",
            "write /h/.zshrc false",
            "write /h/.bashrc false",
        ]
    );
    assert_eq!(
        written(&changes, "/h/.config/drey/config.toml"),
        render_config(&setup.found)
    );
    assert_eq!(
        written(&changes, "/h/.drey/bin/gopls"),
        render_wrapper("gopls", "/opt/drey")
    );
    assert_eq!(written(&changes, "/h/.zshrc"), append_path_block("export A=1\n"));
    assert_eq!(written(&changes, "/h/.bashrc"), append_path_block(""));
    assert_eq!(
        told(&install_steps(false, false, &setup)),
        [
            "  backed up existing config to /h/.config/drey/config.toml.backup-S",
            "  wrote /h/.config/drey/config.toml",
            "  skipping /h/.drey/bin/zls (not a drey wrapper; use --force to replace)",
            "  wrote 1 wrapper(s) to /h/.drey/bin",
            "  added PATH entry to /h/.zshrc",
            "  added PATH entry to /h/.bashrc",
        ]
    );

    let forced = install_changes(false, true, &setup);
    assert_eq!(written(&forced, "/h/.drey/bin/zls"), render_wrapper("zls", "/opt/drey"));
    assert_eq!(
        touched(&forced)[4..7],
        [
            "write /h/.drey/bin/gopls true",
            "copy /h/.drey/bin/zls /h/.drey/bin/zls.backup-S",
            "write /h/.drey/bin/zls true",
        ]
    );
    assert!(told(&install_steps(false, true, &setup))
        .contains(&"  wrote 2 wrapper(s) to /h/.drey/bin".to_string()));
}

#[test]
fn uninstalling_undoes_what_installing_wrote() {
    let files = vec![
        file("/h/.drey/bin/zls", Some("#!/bin/sh\necho mine\n")),
        file("/h/.drey/bin/gopls", Some(&render_wrapper("gopls", "/opt/drey"))),
        file("/h/.drey/bin/drey", None),
    ];
    let rcs = vec![
        file("/h/.zshrc", Some(&append_path_block("export A=1\n"))),
        file("/h/.profile", Some("export B=2\n")),
        file("/h/.bashrc", None),
    ];
    let changes = uninstall_changes(false, &files, &rcs, "S");
    assert_eq!(
        touched(&changes),
        [
            "remove /h/.drey/bin/gopls",
            "copy /h/.zshrc /h/.zshrc.backup-S",
            "write /h/.zshrc false",
        ]
    );
    assert_eq!(written(&changes, "/h/.zshrc"), "export A=1\n");
    assert_eq!(
        told(&uninstall_steps(false, &files, &rcs)),
        [
            "  removed /h/.drey/bin/gopls",
            "  removed PATH entry from /h/.zshrc (backup alongside it)",
        ]
    );

    let none: Vec<File> = Vec::new();
    assert!(uninstall_changes(false, &none, &none, "S").is_empty());
    assert_eq!(told(&uninstall_steps(false, &none, &none)), ["  no wrappers to remove"]);
}

#[test]
fn installing_again_keeps_what_is_there() {
    let mut setup = setup();
    setup.config_present = false;
    setup.wrappers = vec![
        file("/h/.drey/bin/gopls", Some(&render_wrapper("gopls", "/opt/drey"))),
        file("/h/.drey/bin/zls", Some(&render_wrapper("zls", "/old/drey"))),
    ];
    setup.rcs = vec![file("/h/.zshrc", Some(&append_path_block("export A=1\n")))];
    assert_eq!(
        touched(&install_changes(false, false, &setup)),
        [
            "mkdir /h/.config/drey",
            "write /h/.config/drey/config.toml false",
            "mkdir /h/.drey/bin",
            "write /h/.drey/bin/gopls true",
            "copy /h/.drey/bin/zls /h/.drey/bin/zls.backup-S",
            "write /h/.drey/bin/zls true",
        ]
    );
    assert_eq!(
        told(&install_steps(false, false, &setup)),
        [
            "  wrote /h/.config/drey/config.toml",
            "  wrote 2 wrapper(s) to /h/.drey/bin",
            "  PATH entry already present in /h/.zshrc",
        ]
    );
}
