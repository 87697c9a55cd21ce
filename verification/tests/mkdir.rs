use mkdir2::color::Theme;
use mkdir2::mkdir::{
    collect_targets, confirms, render, stats_lines, Action, ActionResult, Event, Note, NoteKind,
    Op, Options, Process, Stage, Step, Summary,
};

fn quiet_opts() -> Options {
    Options {
        create_parents: true,
        force: false,
        recursive_remove: true,
        interactive: false,
        mode: None,
        gitkeep: false,
        dry_run: false,
        strict: false,
        verbose: false,
        quiet: true,
        json: true,
    }
}

fn finished(step: Step) -> ActionResult {
    match step.op {
        Op::Finish(r) => r,
        _ => panic!("expected the target to be finished"),
    }
}

fn status(exists: bool, is_dir: bool) -> Event {
    Event::Status { exists, is_dir }
}

#[test]
fn creates_nested_directory() {
    let opts = quiet_opts();
    let mut p = Process::new("a/b/c");
    let step = p.step(&opts, status(false, false));
    assert!(matches!(step.op, Op::CreateDirAll));
    let result = finished(p.step(&opts, Event::DirCreated(Ok(()))));
    assert_eq!(result.action, Action::Created);
    assert_eq!(result.path, "a/b/c");
}

#[test]
fn already_existing_directory_is_noop_by_default() {
    let mut p = Process::new("exists");
    let result = finished(p.step(&quiet_opts(), status(true, true)));
    assert_eq!(result.action, Action::AlreadyExists);
}

#[test]
fn mkdir_strict_mode_fails_on_existing_directory() {
    let mut opts = quiet_opts();
    opts.strict = true;
    let mut p = Process::new("exists");
    let result = finished(p.step(&opts, status(true, true)));
    assert_eq!(result.action, Action::Failed);
}

#[test]
fn force_recreates_directory_with_contents() {
    let mut opts = quiet_opts();
    opts.force = true;
    let mut p = Process::new("recreate_me");
    assert!(matches!(p.step(&opts, status(true, true)).op, Op::RemoveTree));
    assert!(matches!(p.step(&opts, Event::Removed(Ok(()))).op, Op::CreateDirAll));
    let result = finished(p.step(&opts, Event::DirCreated(Ok(()))));
    assert_eq!(result.action, Action::Created);
}

#[test]
fn dry_run_does_not_touch_filesystem() {
    let mut opts = quiet_opts();
    opts.dry_run = true;
    let mut p = Process::new("ghost");
    let result = finished(p.step(&opts, status(false, false)));
    assert_eq!(result.action, Action::DryRunWouldCreate);
}

#[test]
fn gitkeep_file_is_created() {
    let mut opts = quiet_opts();
    opts.gitkeep = true;
    let mut p = Process::new("with_keep");
    assert!(matches!(p.step(&opts, status(false, false)).op, Op::CreateDirAll));
    assert!(matches!(p.step(&opts, Event::DirCreated(Ok(()))).op, Op::WriteGitkeep));
    let result = finished(p.step(&opts, Event::GitkeepWritten));
    assert_eq!(result.action, Action::Created);
}

#[test]
fn collect_targets_expands_braces() {
    let raw = vec!["dir{1,2,3}".to_string()];
    let targets = collect_targets(&raw, None);
    let mut sorted = targets.clone();
    sorted.sort();
    assert_eq!(sorted, vec!["dir1", "dir2", "dir3"]);
}

// Further cases of the engine.

#[test]
fn collect_targets_reads_patterns_skipping_comments_and_blank_lines() {
    let raw = vec!["top".to_string()];
    let content = "# a comment\nbatchdir/{x,y}\n\n  batchdir2  \r\n";
    let targets = collect_targets(&raw, Some(content));
    assert_eq!(targets, vec!["top", "batchdir/x", "batchdir/y", "batchdir2"]);
}

#[test]
fn existing_file_fails_without_force() {
    let mut p = Process::new("not_a_dir");
    let step = p.step(&quiet_opts(), status(true, false));
    assert_eq!(step.notes.len(), 1);
    assert_eq!(step.notes[0].kind, NoteKind::Failure);
    assert_eq!(
        step.notes[0].text,
        "failed: not_a_dir: a non-directory file already exists at this path"
    );
    let result = finished(step);
    assert_eq!(result.action, Action::Failed);
    assert_eq!(
        result.message.as_deref(),
        Some("a non-directory file already exists at this path")
    );
    assert_eq!(p.stage, Stage::Done);
}

#[test]
fn force_on_a_file_removes_the_file() {
    let mut opts = quiet_opts();
    opts.force = true;
    opts.recursive_remove = false;
    let mut p = Process::new("f");
    assert!(matches!(p.step(&opts, status(true, false)).op, Op::RemoveFile));
    let mut q = Process::new("d");
    assert!(matches!(q.step(&opts, status(true, true)).op, Op::RemoveEmptyDir));
}

#[test]
fn interactive_decline_keeps_the_target() {
    let mut opts = quiet_opts();
    opts.force = true;
    opts.interactive = true;
    let mut p = Process::new("keep\\me");
    let step = p.step(&opts, status(true, true));
    match step.op {
        Op::AskConfirm(prompt) => {
            assert_eq!(prompt, "Remove existing 'keep/me' before recreating? [y/N] ")
        }
        _ => panic!("expected a question"),
    }
    let step = p.step(&opts, Event::Confirmed(false));
    assert_eq!(step.notes[0].text, "skipped (kept existing): keep/me");
    let result = finished(step);
    assert_eq!(result.action, Action::Skipped);
    assert_eq!(result.message.as_deref(), Some("kept by user"));
}

#[test]
fn removal_and_creation_errors_fail_the_target() {
    let mut opts = quiet_opts();
    opts.force = true;
    let mut p = Process::new("x");
    p.step(&opts, status(true, true));
    let result = finished(p.step(&opts, Event::Removed(Err("denied".to_string()))));
    assert_eq!(result.message.as_deref(), Some("could not remove existing path: denied"));
    let mut q = Process::new("y");
    q.step(&opts, status(false, false));
    let result = finished(q.step(&opts, Event::DirCreated(Err("no space".to_string()))));
    assert_eq!(result.action, Action::Failed);
    assert_eq!(result.message.as_deref(), Some("no space"));
}

#[test]
fn mode_failure_is_only_a_warning() {
    let mut opts = quiet_opts();
    opts.mode = Some(0o755);
    opts.create_parents = false;
    let mut p = Process::new("m");
    assert!(matches!(p.step(&opts, status(false, false)).op, Op::CreateDir));
    assert!(matches!(p.step(&opts, Event::DirCreated(Ok(()))).op, Op::SetMode(0o755)));
    let step = p.step(&opts, Event::ModeSet(Err("eperm".to_string())));
    assert_eq!(step.notes[0].kind, NoteKind::Warning);
    assert_eq!(step.notes[0].text, "created but could not set mode on m: eperm");
    assert_eq!(step.notes[1].text, "created: m");
    assert_eq!(finished(step).action, Action::Created);
}

#[test]
fn dry_run_with_force_reports_without_removing() {
    let mut opts = quiet_opts();
    opts.force = true;
    opts.dry_run = true;
    let mut p = Process::new("old");
    let step = p.step(&opts, status(true, true));
    assert_eq!(step.notes.len(), 2);
    assert_eq!(step.notes[0].text, "removed existing: old");
    assert_eq!(step.notes[1].text, "would create: old");
    assert_eq!(finished(step).action, Action::DryRunWouldCreate);
}

#[test]
fn summary_counts_every_result_once() {
    let mut s = Summary::default();
    for action in [
        Action::Created,
        Action::DryRunWouldCreate,
        Action::AlreadyExists,
        Action::Skipped,
        Action::Failed,
        Action::Failed,
    ] {
        s.record(ActionResult { path: "p".to_string(), action, message: None });
    }
    assert_eq!((s.created, s.already_existed, s.skipped, s.failed), (2, 1, 1, 2));
    assert_eq!(s.results.len(), 6);
}

#[test]
fn rendering_follows_quiet_verbose_and_json() {
    let theme = Theme { enabled: false, emoji: false, ..Theme::default() };
    let mut opts = quiet_opts();
    let warn = Note { kind: NoteKind::Warning, text: "w".to_string() };
    let fail = Note { kind: NoteKind::Failure, text: "f".to_string() };
    let info = Note { kind: NoteKind::Information, text: "i".to_string() };
    assert!(render(&warn, &opts, &theme).is_none());
    assert!(render(&fail, &opts, &theme).is_none());
    opts.json = false;
    assert!(render(&warn, &opts, &theme).is_none());
    let line = render(&fail, &opts, &theme).unwrap();
    assert!(line.to_stderr);
    assert_eq!(line.text, "f");
    opts.quiet = false;
    assert_eq!(render(&warn, &opts, &theme).unwrap().text, "w");
    assert!(render(&info, &opts, &theme).is_none());
    opts.verbose = true;
    let line = render(&info, &opts, &theme).unwrap();
    assert!(!line.to_stderr);
    assert_eq!(line.text, "i");
}

#[test]
fn confirmation_answers() {
    assert!(confirms("y\n"));
    assert!(confirms("  YES "));
    assert!(!confirms("n"));
    assert!(!confirms(""));
    assert!(!confirms("yess"));
}

#[test]
fn stats_report_lines() {
    let theme = Theme { enabled: false, emoji: false, ..Theme::default() };
    let mut s = Summary::new();
    s.record(ActionResult { path: "a".to_string(), action: Action::Created, message: None });
    let lines = stats_lines(&s, &theme);
    assert_eq!(
        lines,
        vec![
            "",
            "Summary",
            "  created:          1",
            "  already existed:  0",
            "  skipped:          0",
            "  failed:           0"
        ]
    );
}

#[test]
fn mode_then_gitkeep_then_created() {
    let mut opts = quiet_opts();
    opts.mode = Some(0o700);
    opts.gitkeep = true;
    let mut p = Process::new("k\\m");
    assert!(matches!(p.step(&opts, status(false, false)).op, Op::CreateDirAll));
    assert!(matches!(p.step(&opts, Event::DirCreated(Ok(()))).op, Op::SetMode(0o700)));
    assert!(matches!(p.step(&opts, Event::ModeSet(Ok(()))).op, Op::WriteGitkeep));
    let result = finished(p.step(&opts, Event::GitkeepWritten));
    assert_eq!(result.action, Action::Created);
    assert_eq!(result.path, "k/m");
}

#[test]
fn process_awaits_only_the_event_of_its_stage() {
    let opts = quiet_opts();
    let mut p = Process::new("w");
    assert!(p.awaits_event(&status(false, false)));
    assert!(!p.awaits_event(&Event::GitkeepWritten));
    p.step(&opts, status(false, false));
    assert!(p.awaits_event(&Event::DirCreated(Ok(()))));
    assert!(!p.awaits_event(&Event::Confirmed(true)));
}
