//! The directory-creation engine: gathers and expands the targets, decides
//! for each target what to do (force-recreate, dry-run, strict checks,
//! permissions, `.gitkeep`) and tallies a structured report.
//!
//! The work on the filesystem is done by the caller: for each target, a
//! [`Process`] is stepped with what the caller observed, and answers with
//! the next operation to perform and the messages to show.

use vstd::prelude::*;
use crate::brace::{expand, spec_expand};
use crate::color::{lower, Theme, success_icon, error_icon, warn_icon, info_icon};
use crate::pathnorm::{normalize_path, normalized, windows_normalized};
use crate::text::{
    append_chars, chars_of, dec, dec_chars, is_ws, lemma_trim_shape, split_char, split_chars,
    string_of, string_views, trim, trim_chars, views,
};

verus! {

/// What happened to one target.
#[derive(Debug, Clone, Copy, PartialEq, Eq, Structural)]
pub enum Action {
    Created,
    AlreadyExists,
    Failed,
    DryRunWouldCreate,
    Skipped,
}

/// The outcome for one target: its displayed path, what happened, and a
/// message for failures and skips.
#[derive(Debug)]
pub struct ActionResult {
    pub path: String,
    pub action: Action,
    pub message: Option<String>,
}

/// The report of a whole run.
#[derive(Debug)]
pub struct Summary {
    pub created: usize,
    pub already_existed: usize,
    pub skipped: usize,
    pub failed: usize,
    pub results: Vec<ActionResult>,
}

/// How targets are processed.
pub struct Options {
    pub create_parents: bool,
    pub force: bool,
    pub recursive_remove: bool,
    pub interactive: bool,
    pub mode: Option<u32>,
    pub gitkeep: bool,
    pub dry_run: bool,
    pub strict: bool,
    pub verbose: bool,
    pub quiet: bool,
    pub json: bool,
}

/// The number of results whose action satisfies `f`.
pub open spec fn count_of(rs: Seq<ActionResult>, f: spec_fn(Action) -> bool) -> nat
    decreases rs.len(),
{
    if rs.len() == 0 {
        0
    } else {
        count_of(rs.drop_last(), f) + if f(rs.last().action) {
            1nat
        } else {
            0nat
        }
    }
}

pub open spec fn counts_as_created(a: Action) -> bool {
    a == Action::Created || a == Action::DryRunWouldCreate
}

pub open spec fn counts_as_existing(a: Action) -> bool {
    a == Action::AlreadyExists
}

pub open spec fn counts_as_skipped(a: Action) -> bool {
    a == Action::Skipped
}

pub open spec fn counts_as_failed(a: Action) -> bool {
    a == Action::Failed
}

impl Summary {
    /// The counters agree with the results: each counts the results of its
    /// kind (a dry-run "would create" counts as created).
    pub open spec fn well_formed(&self) -> bool {
        &&& self.created == count_of(self.results@, |a: Action| counts_as_created(a))
        &&& self.already_existed == count_of(self.results@, |a: Action| counts_as_existing(a))
        &&& self.skipped == count_of(self.results@, |a: Action| counts_as_skipped(a))
        &&& self.failed == count_of(self.results@, |a: Action| counts_as_failed(a))
    }

    /// An empty report.
    pub fn new() -> (s: Summary)
        ensures
            s.well_formed(),
            s.results@.len() == 0,
            s.created == 0 && s.already_existed == 0 && s.skipped == 0 && s.failed == 0,
    {
        Summary { created: 0, already_existed: 0, skipped: 0, failed: 0, results: Vec::new() }
    }

    /// Adds the outcome of one more target to the report.
    pub fn record(&mut self, result: ActionResult)
        requires
            old(self).well_formed(),
            old(self).results@.len() < usize::MAX,
        ensures
            final(self).well_formed(),
            final(self).results@ == old(self).results@.push(result),
            final(self).created == old(self).created + if counts_as_created(result.action) {
                1int
            } else {
                0int
            },
            final(self).already_existed == old(self).already_existed + if counts_as_existing(
                result.action,
            ) {
                1int
            } else {
                0int
            },
            final(self).skipped == old(self).skipped + if counts_as_skipped(result.action) {
                1int
            } else {
                0int
            },
            final(self).failed == old(self).failed + if counts_as_failed(result.action) {
                1int
            } else {
                0int
            },
    {
        proof {
            lemma_counts_bounded(self.results@);
        }
        let ghost old_results = self.results@;
        match result.action {
            Action::Created | Action::DryRunWouldCreate => self.created = self.created + 1,
            Action::AlreadyExists => self.already_existed = self.already_existed + 1,
            Action::Skipped => self.skipped = self.skipped + 1,
            Action::Failed => self.failed = self.failed + 1,
        }
        self.results.push(result);
        proof {
            assert(self.results@.drop_last() =~= old_results);
        }
    }
}

impl Default for Summary {
    fn default() -> (s: Summary)
        ensures
            s.well_formed(),
            s.results@.len() == 0,
            s.created == 0 && s.already_existed == 0 && s.skipped == 0 && s.failed == 0,
    {
        Summary::new()
    }
}

proof fn lemma_counts_bounded(rs: Seq<ActionResult>)
    ensures
        count_of(rs, |a: Action| counts_as_created(a)) + count_of(
            rs,
            |a: Action| counts_as_existing(a),
        ) + count_of(rs, |a: Action| counts_as_skipped(a)) + count_of(
            rs,
            |a: Action| counts_as_failed(a),
        ) == rs.len(),
    decreases rs.len(),
{
    if rs.len() > 0 {
        lemma_counts_bounded(rs.drop_last());
    }
}

/// Every target is reported exactly once: in a well-formed report the four
/// counters add up to the number of results.
pub proof fn law_counts_add_up(s: Summary)
    requires
        s.well_formed(),
    ensures
        s.created + s.already_existed + s.skipped + s.failed == s.results@.len(),
{
    lemma_counts_bounded(s.results@);
}


/// The patterns that a `--from` file holds: its lines, trimmed, leaving out
/// blank lines and lines starting with `#`.
pub open spec fn pattern_lines(lines: Seq<Seq<char>>) -> Seq<Seq<char>>
    decreases lines.len(),
{
    if lines.len() == 0 {
        Seq::empty()
    } else {
        let rest = pattern_lines(lines.drop_last());
        let t = trim(lines.last());
        if t.len() > 0 && t[0] != '#' {
            rest.push(t)
        } else {
            rest
        }
    }
}

/// The patterns of a `--from` file's contents. (Splitting at `\n` and
/// trimming gives the same lines as `str::lines` followed by trimming: a
/// `\r` before the `\n` is whitespace, and a last empty piece is blank.)
pub open spec fn file_patterns(content: Seq<char>) -> Seq<Seq<char>> {
    pattern_lines(split_char(content, '\n'))
}

/// The expansions of each pattern, one after the other.
pub open spec fn expand_all(patterns: Seq<Seq<char>>) -> Seq<Seq<char>>
    decreases patterns.len(),
{
    if patterns.len() == 0 {
        Seq::empty()
    } else {
        expand_all(patterns.drop_last()) + spec_expand(patterns.last())
    }
}

/// A `--from` file contributes no blank line and no `#` comment: each of
/// its patterns is non-empty, does not start with `#`, and has no
/// whitespace at either end.
pub proof fn law_from_file_skips_blank_and_comment_lines(content: Seq<char>)
    ensures
        forall|k: int|
            0 <= k < file_patterns(content).len() ==> {
                let p = #[trigger] file_patterns(content)[k];
                &&& p.len() > 0
                &&& p[0] != '#'
                &&& !is_ws(p[0])
                &&& !is_ws(p.last())
            },
{
    lemma_pattern_lines_clean(split_char(content, '\n'));
}

proof fn lemma_pattern_lines_clean(lines: Seq<Seq<char>>)
    ensures
        forall|k: int|
            0 <= k < pattern_lines(lines).len() ==> {
                let p = #[trigger] pattern_lines(lines)[k];
                &&& p.len() > 0
                &&& p[0] != '#'
                &&& !is_ws(p[0])
                &&& !is_ws(p.last())
            },
    decreases lines.len(),
{
    if lines.len() > 0 {
        let rest = pattern_lines(lines.drop_last());
        lemma_pattern_lines_clean(lines.drop_last());
        lemma_trim_shape(lines.last());
        assert forall|k: int| 0 <= k < pattern_lines(lines).len() implies {
            let p = #[trigger] pattern_lines(lines)[k];
            &&& p.len() > 0
            &&& p[0] != '#'
            &&& !is_ws(p[0])
            &&& !is_ws(p.last())
        } by {
            if k < rest.len() {
                assert(pattern_lines(lines)[k] == rest[k]);
            }
        }
    }
}

/// Every target of a run: the command-line patterns, then the patterns of
/// the `--from` contents when there are any, all brace-expanded.
pub open spec fn targets_of(raw: Seq<Seq<char>>, content: Option<Seq<char>>) -> Seq<Seq<char>> {
    expand_all(
        raw + match content {
            Some(c) => file_patterns(c),
            None => Seq::empty(),
        },
    )
}

/// Gathers every target path: the command-line patterns plus the patterns
/// of the `--from` file (whose contents the caller has read), all run
/// through brace expansion.
pub fn collect_targets(raw_paths: &Vec<String>, from_content: Option<&str>) -> (r: Vec<String>)
    ensures
        string_views(r@) == targets_of(
            string_views(raw_paths@),
            match from_content {
                Some(c) => Some(c@),
                None => None,
            },
        ),
{
    let ghost content = match from_content {
        Some(c) => Some(c@),
        None => None::<Seq<char>>,
    };
    let mut patterns: Vec<Vec<char>> = Vec::new();
    let mut i: usize = 0;
    while i < raw_paths.len()
        invariant
            i <= raw_paths@.len(),
            views(patterns@) == string_views(raw_paths@).take(i as int),
        decreases raw_paths.len() - i,
    {
        let ghost old_p = views(patterns@);
        let cs = chars_of(raw_paths[i].as_str());
        let ghost csv = cs@;
        patterns.push(cs);
        assert(csv == string_views(raw_paths@)[i as int]);
        assert(views(patterns@) =~= old_p.push(csv));
        assert(views(patterns@) =~= string_views(raw_paths@).take(i + 1));
        i = i + 1;
    }
    assert(string_views(raw_paths@).take(i as int) =~= string_views(raw_paths@));
    let ghost raw_view = views(patterns@);
    if let Some(c) = from_content {
        let lines = split_chars(&chars_of(c), '\n');
        let ghost lv = views(lines@);
        let mut k: usize = 0;
        assert(lv.take(0) =~= Seq::<Seq<char>>::empty());
        assert(raw_view + pattern_lines(lv.take(0)) =~= raw_view);
        while k < lines.len()
            invariant
                k <= lines@.len(),
                lv == views(lines@),
                views(patterns@) == raw_view + pattern_lines(lv.take(k as int)),
            decreases lines.len() - k,
        {
            let t = trim_chars(&lines[k]);
            let ghost t1 = lv.take(k + 1);
            assert(t1.drop_last() =~= lv.take(k as int));
            assert(t1.last() == lines@[k as int]@);
            if t.len() > 0 && t[0] != '#' {
                let ghost old_p = views(patterns@);
                patterns.push(t);
                assert(views(patterns@) =~= old_p.push(trim(lines@[k as int]@)));
            }
            k = k + 1;
        }
        assert(lv.take(k as int) =~= lv);
    }
    let ghost all = views(patterns@);
    assert(all =~= string_views(raw_paths@) + match content {
        Some(c) => file_patterns(c),
        None => Seq::<Seq<char>>::empty(),
    });
    let mut out: Vec<String> = Vec::new();
    let mut j: usize = 0;
    assert(all.take(0) =~= Seq::<Seq<char>>::empty());
    while j < patterns.len()
        invariant
            j <= patterns@.len(),
            all == views(patterns@),
            string_views(out@) == expand_all(all.take(j as int)),
        decreases patterns.len() - j,
    {
        let pat = string_of(&patterns[j]);
        let mut e = expand(pat.as_str());
        let ghost old_out = string_views(out@);
        let ghost ev = string_views(e@);
        out.append(&mut e);
        proof {
            assert(string_views(out@) =~= old_out + ev);
            let t1 = all.take(j + 1);
            assert(t1.drop_last() =~= all.take(j as int));
            assert(t1.last() == patterns@[j as int]@);
        }
        j = j + 1;
    }
    assert(all.take(j as int) =~= all);
    out
}


/// The kind of a message about a target, which decides its stream, its
/// theme color and when it is shown.
#[derive(Debug, Clone, Copy, PartialEq, Eq, Structural)]
pub enum NoteKind {
    Warning,
    Information,
    Success,
    Failure,
}

/// A message about a target, before theming.
pub struct Note {
    pub kind: NoteKind,
    pub text: String,
}

/// What the caller observed after performing the last operation.
pub enum Event {
    /// Whether the target path exists, and whether it is a directory.
    Status { exists: bool, is_dir: bool },
    /// The user's answer to the removal question.
    Confirmed(bool),
    /// The outcome of removing the existing path (the error's text).
    Removed(Result<(), String>),
    /// The outcome of creating the directory.
    DirCreated(Result<(), String>),
    /// The outcome of setting the permission bits.
    ModeSet(Result<(), String>),
    /// The `.gitkeep` file was written (or failed to be; that is ignored).
    GitkeepWritten,
}

/// The next thing for the caller to do for the target.
pub enum Op {
    /// Ask the user, with this prompt, whether to delete the existing path.
    AskConfirm(String),
    /// Delete the existing directory and everything in it.
    RemoveTree,
    /// Delete the existing (empty) directory.
    RemoveEmptyDir,
    /// Delete the existing file.
    RemoveFile,
    /// Create the directory and any missing parents.
    CreateDirAll,
    /// Create the directory alone.
    CreateDir,
    /// Set these permission bits on the new directory.
    SetMode(u32),
    /// Write an empty `.gitkeep` file inside the new directory.
    WriteGitkeep,
    /// Nothing more to do; this is the outcome.
    Finish(ActionResult),
}

/// Where the processing of a target stands.
#[derive(Debug, Clone, Copy, PartialEq, Eq, Structural)]
pub enum Stage {
    Start,
    Confirming,
    Removing,
    Creating,
    SettingMode,
    WritingGitkeep,
    Done,
}

/// The processing of one target.
pub struct Process {
    /// The normalized path, as it is displayed and reported.
    pub display: String,
    pub stage: Stage,
    /// Whether the existing path was a directory.
    pub is_dir: bool,
}

/// The answer to an event: messages to show, then the next operation.
pub struct Step {
    pub notes: Vec<Note>,
    pub op: Op,
}

/// An operation, with its texts as sequences.
pub enum Planned {
    Ask(Seq<char>),
    RemoveTree,
    RemoveEmptyDir,
    RemoveFile,
    CreateAll,
    CreateOne,
    SetMode(u32),
    WriteGitkeep,
    Finish(Action, Option<Seq<char>>),
}

/// A step of the processing, with its texts as sequences.
pub struct Transition {
    pub stage: Stage,
    pub is_dir: bool,
    pub notes: Seq<(NoteKind, Seq<char>)>,
    pub planned: Planned,
}

pub open spec fn notes_view(ns: Seq<Note>) -> Seq<(NoteKind, Seq<char>)> {
    ns.map_values(|n: Note| (n.kind, n.text@))
}

pub open spec fn planned_of(op: Op) -> Planned {
    match op {
        Op::AskConfirm(p) => Planned::Ask(p@),
        Op::RemoveTree => Planned::RemoveTree,
        Op::RemoveEmptyDir => Planned::RemoveEmptyDir,
        Op::RemoveFile => Planned::RemoveFile,
        Op::CreateDirAll => Planned::CreateAll,
        Op::CreateDir => Planned::CreateOne,
        Op::SetMode(m) => Planned::SetMode(m),
        Op::WriteGitkeep => Planned::WriteGitkeep,
        Op::Finish(r) => Planned::Finish(
            r.action,
            match r.message {
                Some(m) => Some(m@),
                None => None,
            },
        ),
    }
}

/// The operation changes the filesystem.
pub open spec fn modifies_fs(p: Planned) -> bool {
    match p {
        Planned::Ask(_) | Planned::Finish(_, _) => false,
        _ => true,
    }
}

/// The operation deletes something.
pub open spec fn removes(p: Planned) -> bool {
    p is RemoveTree || p is RemoveEmptyDir || p is RemoveFile
}

/// The operation creates the target directory.
pub open spec fn creates(p: Planned) -> bool {
    p is CreateAll || p is CreateOne
}

/// The question asked before deleting `d`.
pub open spec fn prompt_for(d: Seq<char>) -> Seq<char> {
    "Remove existing '"@ + d + "' before recreating? [y/N] "@
}

/// The target fails for `reason`.
pub open spec fn failed(d: Seq<char>, is_dir: bool, reason: Seq<char>) -> Transition {
    Transition {
        stage: Stage::Done,
        is_dir,
        notes: seq![(NoteKind::Failure, "failed: "@ + d + ": "@ + reason)],
        planned: Planned::Finish(Action::Failed, Some(reason)),
    }
}

/// Going on to create the directory (or, in a dry run, reporting that it
/// would be created), after `notes`.
pub open spec fn create_step(opts: Options, d: Seq<char>, is_dir: bool, notes: Seq<(NoteKind, Seq<char>)>) -> Transition {
    if opts.dry_run {
        Transition {
            stage: Stage::Done,
            is_dir,
            notes: notes.push((NoteKind::Information, "would create: "@ + d)),
            planned: Planned::Finish(Action::DryRunWouldCreate, None),
        }
    } else {
        Transition {
            stage: Stage::Creating,
            is_dir,
            notes,
            planned: if opts.create_parents {
                Planned::CreateAll
            } else {
                Planned::CreateOne
            },
        }
    }
}

/// Deleting the existing path before recreating it (only reported, in a
/// dry run).
pub open spec fn remove_step(opts: Options, d: Seq<char>, is_dir: bool) -> Transition {
    if !opts.dry_run {
        Transition {
            stage: Stage::Removing,
            is_dir,
            notes: Seq::empty(),
            planned: if is_dir {
                if opts.recursive_remove {
                    Planned::RemoveTree
                } else {
                    Planned::RemoveEmptyDir
                }
            } else {
                Planned::RemoveFile
            },
        }
    } else {
        create_step(opts, d, is_dir, seq![(NoteKind::Warning, "removed existing: "@ + d)])
    }
}

/// The directory is created: report it.
pub open spec fn created_step(d: Seq<char>, is_dir: bool, notes: Seq<(NoteKind, Seq<char>)>) -> Transition {
    Transition {
        stage: Stage::Done,
        is_dir,
        notes: notes.push((NoteKind::Success, "created: "@ + d)),
        planned: Planned::Finish(Action::Created, None),
    }
}

/// After creating (and setting the mode): the `.gitkeep` file, if asked for.
pub open spec fn keep_step(opts: Options, d: Seq<char>, is_dir: bool, notes: Seq<(NoteKind, Seq<char>)>) -> Transition {
    if opts.gitkeep {
        Transition { stage: Stage::WritingGitkeep, is_dir, notes, planned: Planned::WriteGitkeep }
    } else {
        created_step(d, is_dir, notes)
    }
}

/// The event is the one that the stage waits for.
pub open spec fn awaits(stage: Stage, event: Event) -> bool {
    match (stage, event) {
        (Stage::Start, Event::Status { .. }) => true,
        (Stage::Confirming, Event::Confirmed(_)) => true,
        (Stage::Removing, Event::Removed(_)) => true,
        (Stage::Creating, Event::DirCreated(_)) => true,
        (Stage::SettingMode, Event::ModeSet(_)) => true,
        (Stage::WritingGitkeep, Event::GitkeepWritten) => true,
        _ => false,
    }
}

/// How the processing of the target displayed as `d` goes on from `stage`
/// when `event` comes in.
pub open spec fn transition(stage: Stage, is_dir: bool, opts: Options, event: Event, d: Seq<char>) -> Transition {
    match event {
        Event::Status { exists, is_dir: dir } => if !exists {
            create_step(opts, d, dir, Seq::empty())
        } else if opts.force {
            if opts.interactive {
                Transition {
                    stage: Stage::Confirming,
                    is_dir: dir,
                    notes: Seq::empty(),
                    planned: Planned::Ask(prompt_for(d)),
                }
            } else {
                remove_step(opts, d, dir)
            }
        } else if dir {
            if opts.strict {
                failed(d, dir, "already exists (pass --force to recreate)"@)
            } else {
                Transition {
                    stage: Stage::Done,
                    is_dir: dir,
                    notes: seq![(NoteKind::Information, "already exists: "@ + d)],
                    planned: Planned::Finish(Action::AlreadyExists, None),
                }
            }
        } else {
            failed(d, dir, "a non-directory file already exists at this path"@)
        },
        Event::Confirmed(yes) => if yes {
            remove_step(opts, d, is_dir)
        } else {
            Transition {
                stage: Stage::Done,
                is_dir,
                notes: seq![(NoteKind::Warning, "skipped (kept existing): "@ + d)],
                planned: Planned::Finish(Action::Skipped, Some("kept by user"@)),
            }
        },
        Event::Removed(r) => match r {
            Err(e) => failed(d, is_dir, "could not remove existing path: "@ + e@),
            Ok(_) => create_step(opts, d, is_dir, seq![(NoteKind::Warning, "removed existing: "@ + d)]),
        },
        Event::DirCreated(r) => match r {
            Err(e) => failed(d, is_dir, e@),
            Ok(_) => match opts.mode {
                Some(m) => Transition {
                    stage: Stage::SettingMode,
                    is_dir,
                    notes: Seq::empty(),
                    planned: Planned::SetMode(m),
                },
                None => keep_step(opts, d, is_dir, Seq::empty()),
            },
        },
        Event::ModeSet(r) => match r {
            Err(e) => keep_step(
                opts,
                d,
                is_dir,
                seq![(NoteKind::Warning, "created but could not set mode on "@ + d + ": "@ + e@)],
            ),
            Ok(_) => keep_step(opts, d, is_dir, Seq::empty()),
        },
        Event::GitkeepWritten => created_step(d, is_dir, Seq::empty()),
    }
}

/// The stage can be reached under `opts`: the question is asked only under
/// `force` and `interactive`, removal happens only under `force`, and
/// nothing is created, chmod-ed or written in a dry run.
pub open spec fn reachable(stage: Stage, opts: Options) -> bool {
    match stage {
        Stage::Start | Stage::Done => true,
        Stage::Confirming => opts.force && opts.interactive,
        Stage::Removing => opts.force && !opts.dry_run,
        Stage::Creating => !opts.dry_run,
        Stage::SettingMode => !opts.dry_run && opts.mode is Some,
        Stage::WritingGitkeep => !opts.dry_run && opts.gitkeep,
    }
}

/// The order of the stages; every step moves strictly forward, so a target
/// is done after at most six steps.
pub open spec fn rank(stage: Stage) -> int {
    match stage {
        Stage::Start => 0,
        Stage::Confirming => 1,
        Stage::Removing => 2,
        Stage::Creating => 3,
        Stage::SettingMode => 4,
        Stage::WritingGitkeep => 5,
        Stage::Done => 6,
    }
}

/// `a + b` as characters.
fn cat2(a: &str, b: &Vec<char>) -> (r: Vec<char>)
    ensures
        r@ == a@ + b@,
{
    let mut r = chars_of(a);
    append_chars(&mut r, b);
    r
}

/// `a + b + c + e` as characters.
fn cat4(a: &str, b: &Vec<char>, c: &str, e: &Vec<char>) -> (r: Vec<char>)
    ensures
        r@ == a@ + b@ + c@ + e@,
{
    let mut r = chars_of(a);
    append_chars(&mut r, b);
    append_chars(&mut r, &chars_of(c));
    append_chars(&mut r, e);
    assert(r@ =~= a@ + b@ + c@ + e@);
    r
}

fn note(kind: NoteKind, text: Vec<char>) -> (n: Note)
    ensures
        n.kind == kind,
        n.text@ == text@,
{
    Note { kind, text: string_of(&text) }
}

fn finish(d: &Vec<char>, action: Action, message: Option<Vec<char>>) -> (op: Op)
    ensures
        planned_of(op) == Planned::Finish(
            action,
            match message {
                Some(m) => Some(m@),
                None => None,
            },
        ),
        op matches Op::Finish(r) && r.path@ == d@,
{
    let message = match message {
        Some(m) => Some(string_of(&m)),
        None => None,
    };
    Op::Finish(ActionResult { path: string_of(d), action, message })
}

impl Process {
    /// Starts processing the target `raw`; its path is normalized first,
    /// under the platform's path rules (Unix or Windows).
    pub fn new(raw: &str) -> (p: Process)
        ensures
            p.display@ == normalized(raw@) || p.display@ == windows_normalized(raw@),
            p.stage == Stage::Start,
    {
        Process { display: normalize_path(raw), stage: Stage::Start, is_dir: false }
    }

    fn fail_step(&mut self, d: &Vec<char>, reason: Vec<char>) -> (st: Step)
        requires
            d@ == old(self).display@,
        ensures
            final(self).display == old(self).display,
            final(self).is_dir == old(self).is_dir,
            final(self).stage == Stage::Done,
            notes_view(st.notes@) == failed(d@, old(self).is_dir, reason@).notes,
            planned_of(st.op) == failed(d@, old(self).is_dir, reason@).planned,
            st.op matches Op::Finish(r) && r.path@ == d@,
    {
        let text = cat4("failed: ", d, ": ", &reason);
        let mut notes: Vec<Note> = Vec::new();
        notes.push(note(NoteKind::Failure, text));
        assert(notes_view(notes@) =~= failed(d@, self.is_dir, reason@).notes);
        self.stage = Stage::Done;
        Step { notes, op: finish(d, Action::Failed, Some(reason)) }
    }

    fn create_from(&mut self, opts: &Options, d: &Vec<char>, notes: Vec<Note>) -> (st: Step)
        requires
            d@ == old(self).display@,
        ensures
            final(self).display == old(self).display,
            final(self).is_dir == old(self).is_dir,
            ({
                let t = create_step(*opts, d@, old(self).is_dir, notes_view(notes@));
                &&& final(self).stage == t.stage
                &&& notes_view(st.notes@) == t.notes
                &&& planned_of(st.op) == t.planned
                &&& st.op matches Op::Finish(r) ==> r.path@ == d@
            }),
    {
        let mut notes = notes;
        if opts.dry_run {
            let ghost before = notes_view(notes@);
            notes.push(note(NoteKind::Information, cat2("would create: ", d)));
            assert(notes_view(notes@) =~= before.push((NoteKind::Information, "would create: "@ + d@)));
            self.stage = Stage::Done;
            Step { notes, op: finish(d, Action::DryRunWouldCreate, None) }
        } else {
            self.stage = Stage::Creating;
            let op = if opts.create_parents {
                Op::CreateDirAll
            } else {
                Op::CreateDir
            };
            Step { notes, op }
        }
    }

    fn remove_from(&mut self, opts: &Options, d: &Vec<char>) -> (st: Step)
        requires
            d@ == old(self).display@,
        ensures
            final(self).display == old(self).display,
            final(self).is_dir == old(self).is_dir,
            ({
                let t = remove_step(*opts, d@, old(self).is_dir);
                &&& final(self).stage == t.stage
                &&& notes_view(st.notes@) == t.notes
                &&& planned_of(st.op) == t.planned
                &&& st.op matches Op::Finish(r) ==> r.path@ == d@
            }),
    {
        if !opts.dry_run {
            self.stage = Stage::Removing;
            let op = if self.is_dir {
                if opts.recursive_remove {
                    Op::RemoveTree
                } else {
                    Op::RemoveEmptyDir
                }
            } else {
                Op::RemoveFile
            };
            let notes: Vec<Note> = Vec::new();
            assert(notes_view(notes@) =~= Seq::<(NoteKind, Seq<char>)>::empty());
            Step { notes, op }
        } else {
            let mut notes: Vec<Note> = Vec::new();
            notes.push(note(NoteKind::Warning, cat2("removed existing: ", d)));
            assert(notes_view(notes@) =~= seq![(NoteKind::Warning, "removed existing: "@ + d@)]);
            self.create_from(opts, d, notes)
        }
    }

    fn keep_from(&mut self, opts: &Options, d: &Vec<char>, notes: Vec<Note>) -> (st: Step)
        requires
            d@ == old(self).display@,
        ensures
            final(self).display == old(self).display,
            final(self).is_dir == old(self).is_dir,
            ({
                let t = keep_step(*opts, d@, old(self).is_dir, notes_view(notes@));
                &&& final(self).stage == t.stage
                &&& notes_view(st.notes@) == t.notes
                &&& planned_of(st.op) == t.planned
                &&& st.op matches Op::Finish(r) ==> r.path@ == d@
            }),
    {
        if opts.gitkeep {
            self.stage = Stage::WritingGitkeep;
            Step { notes, op: Op::WriteGitkeep }
        } else {
            self.created(d, notes)
        }
    }

    fn created(&mut self, d: &Vec<char>, notes: Vec<Note>) -> (st: Step)
        requires
            d@ == old(self).display@,
        ensures
            final(self).display == old(self).display,
            final(self).is_dir == old(self).is_dir,
            ({
                let t = created_step(d@, old(self).is_dir, notes_view(notes@));
                &&& final(self).stage == t.stage
                &&& notes_view(st.notes@) == t.notes
                &&& planned_of(st.op) == t.planned
                &&& st.op matches Op::Finish(r) ==> r.path@ == d@
            }),
    {
        let mut notes = notes;
        let ghost before = notes_view(notes@);
        notes.push(note(NoteKind::Success, cat2("created: ", d)));
        assert(notes_view(notes@) =~= before.push((NoteKind::Success, "created: "@ + d@)));
        self.stage = Stage::Done;
        Step { notes, op: finish(d, Action::Created, None) }
    }

    /// Whether `event` is the one that the processing waits for now (the
    /// condition that `step` needs).
    pub fn awaits_event(&self, event: &Event) -> (b: bool)
        ensures
            b == awaits(self.stage, *event),
    {
        match (self.stage, event) {
            (Stage::Start, Event::Status { .. }) => true,
            (Stage::Confirming, Event::Confirmed(_)) => true,
            (Stage::Removing, Event::Removed(_)) => true,
            (Stage::Creating, Event::DirCreated(_)) => true,
            (Stage::SettingMode, Event::ModeSet(_)) => true,
            (Stage::WritingGitkeep, Event::GitkeepWritten) => true,
            _ => false,
        }
    }

    /// Takes in what the caller observed and answers with the messages to
    /// show and the next operation; a `Finish` operation carries the
    /// target's outcome, with the displayed path.
    pub fn step(&mut self, opts: &Options, event: Event) -> (st: Step)
        requires
            awaits(old(self).stage, event),
        ensures
            ({
                let t = transition(old(self).stage, old(self).is_dir, *opts, event, old(self).display@);
                &&& final(self).stage == t.stage
                &&& final(self).is_dir == t.is_dir
                &&& notes_view(st.notes@) == t.notes
                &&& planned_of(st.op) == t.planned
            }),
            final(self).display == old(self).display,
            st.op matches Op::Finish(r) ==> r.path@ == old(self).display@,
            rank(final(self).stage) > rank(old(self).stage),
            st.op is Finish <==> final(self).stage == Stage::Done,
            reachable(old(self).stage, *opts) ==> reachable(final(self).stage, *opts),
            reachable(old(self).stage, *opts) && opts.dry_run ==> !modifies_fs(planned_of(st.op)),
            reachable(old(self).stage, *opts) && !opts.force ==> !removes(planned_of(st.op)),
            old(self).stage == Stage::Start && opts.interactive ==> !removes(planned_of(st.op)),
    {
        let d = chars_of(self.display.as_str());
        let empty: Vec<Note> = Vec::new();
        assert(notes_view(empty@) =~= Seq::<(NoteKind, Seq<char>)>::empty());
        match event {
            Event::Status { exists, is_dir } => {
                self.is_dir = is_dir;
                if !exists {
                    self.create_from(opts, &d, empty)
                } else if opts.force {
                    if opts.interactive {
                        self.stage = Stage::Confirming;
                        let prompt = cat4("Remove existing '", &d, "' before recreating? [y/N] ", &Vec::new());
                        assert(prompt@ =~= prompt_for(d@));
                        Step { notes: empty, op: Op::AskConfirm(string_of(&prompt)) }
                    } else {
                        self.remove_from(opts, &d)
                    }
                } else if is_dir {
                    if opts.strict {
                        self.fail_step(&d, chars_of("already exists (pass --force to recreate)"))
                    } else {
                        let mut notes: Vec<Note> = Vec::new();
                        notes.push(note(NoteKind::Information, cat2("already exists: ", &d)));
                        assert(notes_view(notes@) =~= seq![(NoteKind::Information, "already exists: "@ + d@)]);
                        self.stage = Stage::Done;
                        Step { notes, op: finish(&d, Action::AlreadyExists, None) }
                    }
                } else {
                    self.fail_step(&d, chars_of("a non-directory file already exists at this path"))
                }
            },
            Event::Confirmed(yes) => {
                if yes {
                    self.remove_from(opts, &d)
                } else {
                    let mut notes: Vec<Note> = Vec::new();
                    notes.push(note(NoteKind::Warning, cat2("skipped (kept existing): ", &d)));
                    assert(notes_view(notes@) =~= seq![(NoteKind::Warning, "skipped (kept existing): "@ + d@)]);
                    self.stage = Stage::Done;
                    Step { notes, op: finish(&d, Action::Skipped, Some(chars_of("kept by user"))) }
                }
            },
            Event::Removed(r) => match r {
                Err(e) => self.fail_step(&d, cat2("could not remove existing path: ", &chars_of(e.as_str()))),
                Ok(_) => {
                    let mut notes: Vec<Note> = Vec::new();
                    notes.push(note(NoteKind::Warning, cat2("removed existing: ", &d)));
                    assert(notes_view(notes@) =~= seq![(NoteKind::Warning, "removed existing: "@ + d@)]);
                    self.create_from(opts, &d, notes)
                },
            },
            Event::DirCreated(r) => match r {
                Err(e) => self.fail_step(&d, chars_of(e.as_str())),
                Ok(_) => match opts.mode {
                    Some(m) => {
                        self.stage = Stage::SettingMode;
                        Step { notes: empty, op: Op::SetMode(m) }
                    },
                    None => self.keep_from(opts, &d, empty),
                },
            },
            Event::ModeSet(r) => match r {
                Err(e) => {
                    let mut notes: Vec<Note> = Vec::new();
                    notes.push(note(NoteKind::Warning, cat4("created but could not set mode on ", &d, ": ", &chars_of(e.as_str()))));
                    assert(notes_view(notes@) =~= seq![(NoteKind::Warning, "created but could not set mode on "@ + d@ + ": "@ + e@)]);
                    self.keep_from(opts, &d, notes)
                },
                Ok(_) => self.keep_from(opts, &d, empty),
            },
            Event::GitkeepWritten => self.created(&d, empty),
        }
    }
}


/// A line of console output.
pub struct Line {
    /// Whether the line goes to standard error (else standard output).
    pub to_stderr: bool,
    pub text: String,
}

/// When a message of this kind is shown: warnings unless quiet, progress
/// (information and success) only when verbose and not quiet, failures
/// always; nothing of these in a JSON run.
pub open spec fn shown(kind: NoteKind, opts: Options) -> bool {
    match kind {
        NoteKind::Warning => !opts.quiet && !opts.json,
        NoteKind::Information | NoteKind::Success => opts.verbose && !opts.quiet && !opts.json,
        NoteKind::Failure => !opts.json,
    }
}

/// The icon of a message kind.
pub open spec fn icon_of(kind: NoteKind) -> Seq<char> {
    match kind {
        NoteKind::Warning => warn_icon(),
        NoteKind::Information => info_icon(),
        NoteKind::Success => success_icon(),
        NoteKind::Failure => error_icon(),
    }
}

/// The theme color of a message kind.
pub open spec fn color_of(kind: NoteKind, theme: Theme) -> (u8, u8, u8) {
    match kind {
        NoteKind::Warning => theme.warn,
        NoteKind::Information => theme.info,
        NoteKind::Success => theme.success,
        NoteKind::Failure => theme.error,
    }
}

/// `--quiet` leaves only failures on the console, and a `--json` run
/// prints no messages at all (the report is the output).
pub proof fn law_quiet_and_json_output(kind: NoteKind, opts: Options)
    ensures
        opts.quiet && shown(kind, opts) ==> kind == NoteKind::Failure,
        opts.json ==> !shown(kind, opts),
{
}

/// Turns a message into the line to print, if it is shown: warnings and
/// failures go to standard error, the rest to standard output, each in the
/// theme's style for its kind.
pub fn render(note: &Note, opts: &Options, theme: &Theme) -> (r: Option<Line>)
    ensures
        r is Some <==> shown(note.kind, *opts),
        r matches Some(l) ==> l.to_stderr == (note.kind == NoteKind::Warning || note.kind
            == NoteKind::Failure) && theme.decorated(l.text@, icon_of(note.kind), note.text@, color_of(note.kind, *theme)),
{
    let text = note.text.as_str();
    match note.kind {
        NoteKind::Warning => if !opts.quiet && !opts.json {
            Some(Line { to_stderr: true, text: theme.warn(text) })
        } else {
            None
        },
        NoteKind::Information => if opts.verbose && !opts.quiet && !opts.json {
            Some(Line { to_stderr: false, text: theme.info(text) })
        } else {
            None
        },
        NoteKind::Success => if opts.verbose && !opts.quiet && !opts.json {
            Some(Line { to_stderr: false, text: theme.success(text) })
        } else {
            None
        },
        NoteKind::Failure => if !opts.json {
            Some(Line { to_stderr: true, text: theme.error(text) })
        } else {
            None
        },
    }
}

/// Whether an answer to the removal question is a yes: `y` or `yes`, in any
/// ASCII case, with surrounding whitespace ignored.
pub fn confirms(answer: &str) -> (b: bool)
    ensures
        b == (lower(trim(answer@)) == "y"@ || lower(trim(answer@)) == "yes"@),
{
    let t = trim_chars(&chars_of(answer));
    let l = crate::color::lower_chars(&t);
    crate::color::chars_eq(&l, "y") || crate::color::chars_eq(&l, "yes")
}

/// The text of a count, as `{}` formats it.
fn count_text(n: usize) -> (r: Vec<char>)
    ensures
        r@ == dec(n as nat),
{
    dec_chars(n as u64)
}

/// The lines of the `--stats` summary: a blank line, the heading, then the
/// four counts.
pub fn stats_lines(summary: &Summary, theme: &Theme) -> (r: Vec<String>)
    ensures
        r@.len() == 6,
        r@[0]@ == Seq::<char>::empty(),
        theme.decorated(r@[1]@, info_icon(), "Summary"@, theme.info),
        r@[2]@ == "  created:          "@ + dec(summary.created as nat),
        r@[3]@ == "  already existed:  "@ + dec(summary.already_existed as nat),
        r@[4]@ == "  skipped:          "@ + dec(summary.skipped as nat),
        r@[5]@ == "  failed:           "@ + dec(summary.failed as nat),
{
    let mut r: Vec<String> = Vec::new();
    r.push(String::new());
    r.push(theme.info("Summary"));
    r.push(string_of(&cat2("  created:          ", &count_text(summary.created))));
    r.push(string_of(&cat2("  already existed:  ", &count_text(summary.already_existed))));
    r.push(string_of(&cat2("  skipped:          ", &count_text(summary.skipped))));
    r.push(string_of(&cat2("  failed:           ", &count_text(summary.failed))));
    r
}


/// Without `--force`, a file (not a directory) at the target path is never
/// overwritten or removed: the target fails.
pub proof fn law_existing_file_is_kept(opts: Options, d: Seq<char>, was_dir: bool)
    requires
        !opts.force,
    ensures
        transition(Stage::Start, was_dir, opts, Event::Status { exists: true, is_dir: false }, d).planned
            == Planned::Finish(Action::Failed, Some("a non-directory file already exists at this path"@)),
{
}

/// Without `--force`, an existing directory is left alone: reported as
/// already existing, or as a failure under `--strict`.
pub proof fn law_existing_directory_is_kept(opts: Options, d: Seq<char>, was_dir: bool)
    requires
        !opts.force,
    ensures
        transition(Stage::Start, was_dir, opts, Event::Status { exists: true, is_dir: true }, d).planned
            == if opts.strict {
            Planned::Finish(Action::Failed, Some("already exists (pass --force to recreate)"@))
        } else {
            Planned::Finish(Action::AlreadyExists, None)
        },
{
}

/// With `--force` (and without `-i` or a dry run), an existing target is
/// deleted first (a directory with its contents unless
/// `--no-recursive-remove`), then created again.
pub proof fn law_force_recreates(opts: Options, d: Seq<char>, was_dir: bool, dir: bool)
    requires
        opts.force,
        !opts.interactive,
        !opts.dry_run,
    ensures
        ({
            let t = transition(Stage::Start, was_dir, opts, Event::Status { exists: true, is_dir: dir }, d);
            &&& t.planned == if dir {
                if opts.recursive_remove {
                    Planned::RemoveTree
                } else {
                    Planned::RemoveEmptyDir
                }
            } else {
                Planned::RemoveFile
            }
            &&& creates(transition(t.stage, t.is_dir, opts, Event::Removed(Ok(())), d).planned)
        }),
{
}

/// A newly created directory is finished as asked: its permission bits are
/// set when `--mode` is given, then a `.gitkeep` is written when
/// `--gitkeep` is given, and only then is it reported as created. A
/// failure to set the mode is a warning, not a failure of the target.
pub proof fn law_new_directory_is_finished(opts: Options, d: Seq<char>, dir: bool, e: String)
    ensures
        ({
            let t = transition(Stage::Creating, dir, opts, Event::DirCreated(Ok(())), d);
            &&& opts.mode matches Some(m) ==> t.planned == Planned::SetMode(m)
            &&& opts.mode is None && opts.gitkeep ==> t.planned == Planned::WriteGitkeep
            &&& opts.mode is None && !opts.gitkeep ==> t.planned == Planned::Finish(
                Action::Created,
                None,
            )
        }),
        ({
            let t = transition(Stage::SettingMode, dir, opts, Event::ModeSet(Err(e)), d);
            &&& opts.gitkeep ==> t.planned == Planned::WriteGitkeep
            &&& !opts.gitkeep ==> t.planned == Planned::Finish(Action::Created, None)
        }),
        transition(Stage::WritingGitkeep, dir, opts, Event::GitkeepWritten, d).planned
            == Planned::Finish(Action::Created, None),
{
}


/// The lines of `a`, a line break, then `b` are the lines of `a` followed
/// by those of `b`.
proof fn lemma_split_lines_concat(a: Seq<char>, b: Seq<char>)
    ensures
        split_char(a + seq!['\n'] + b, '\n') == split_char(a, '\n') + split_char(b, '\n'),
    decreases b.len(),
{
    let an = a + seq!['\n'];
    assert(an.drop_last() =~= a);
    assert(an.last() == '\n');
    if b.len() == 0 {
        assert(a + seq!['\n'] + b =~= an);
        assert(split_char(b, '\n') =~= seq![Seq::<char>::empty()]);
        assert(split_char(a, '\n').push(Seq::<char>::empty()) =~= split_char(a, '\n') + seq![
            Seq::<char>::empty(),
        ]);
    } else {
        let b1 = b.drop_last();
        lemma_split_lines_concat(a, b1);
        crate::text::lemma_split_char_len(b1, '\n');
        let s = a + seq!['\n'] + b;
        assert(s.drop_last() =~= a + seq!['\n'] + b1);
        assert(s.last() == b.last());
        let x = split_char(a, '\n');
        let y = split_char(b1, '\n');
        if b.last() == '\n' {
            assert((x + y).push(Seq::<char>::empty()) =~= x + y.push(Seq::<char>::empty()));
        } else {
            let c = b.last();
            let w = x + y;
            assert(w.last() == y.last());
            assert(w.update(w.len() - 1, w.last().push(c)) =~= x + y.update(
                y.len() - 1,
                y.last().push(c),
            ));
        }
    }
}

proof fn lemma_pattern_lines_concat(x: Seq<Seq<char>>, y: Seq<Seq<char>>)
    ensures
        pattern_lines(x + y) == pattern_lines(x) + pattern_lines(y),
    decreases y.len(),
{
    if y.len() == 0 {
        assert(x + y =~= x);
        assert(pattern_lines(x) + pattern_lines(y) =~= pattern_lines(x));
    } else {
        lemma_pattern_lines_concat(x, y.drop_last());
        assert((x + y).drop_last() =~= x + y.drop_last());
        assert((x + y).last() == y.last());
        let t = trim(y.last());
        if t.len() > 0 && t[0] != '#' {
            assert(pattern_lines(x) + pattern_lines(y.drop_last()).push(t) =~= (pattern_lines(x)
                + pattern_lines(y.drop_last())).push(t));
        }
    }
}

proof fn lemma_split_no_break(line: Seq<char>)
    requires
        !line.contains('\n'),
    ensures
        split_char(line, '\n') == seq![line],
    decreases line.len(),
{
    if line.len() == 0 {
        assert(line =~= Seq::<char>::empty());
    } else {
        let pre = line.drop_last();
        assert(!pre.contains('\n')) by {
            if pre.contains('\n') {
                let i = choose|i: int| 0 <= i < pre.len() && pre[i] == '\n';
                assert(line[i] == '\n');
            }
        }
        lemma_split_no_break(pre);
        assert(line[line.len() - 1] != '\n');
        assert(pre.push(line.last()) =~= line);
    }
}

/// A single line of a `--from` file (no line break in it) gives its trimmed
/// text as the one pattern, unless it is blank or a `#` comment, which give
/// none.
pub proof fn law_from_file_single_line(line: Seq<char>)
    requires
        !line.contains('\n'),
    ensures
        file_patterns(line) == if trim(line).len() > 0 && trim(line)[0] != '#' {
            seq![trim(line)]
        } else {
            Seq::<Seq<char>>::empty()
        },
{
    lemma_split_no_break(line);
    let one = seq![line];
    assert(one.drop_last() =~= Seq::<Seq<char>>::empty());
    assert(one.last() == line);
    assert(pattern_lines(Seq::<Seq<char>>::empty()) =~= Seq::<Seq<char>>::empty());
    assert(Seq::<Seq<char>>::empty().push(trim(line)) =~= seq![trim(line)]);
}

/// Lines contribute independently of their position: the patterns of `a`,
/// a line break, then `b` are those of `a` followed by those of `b`.
pub proof fn law_from_file_lines_concat(a: Seq<char>, b: Seq<char>)
    ensures
        file_patterns(a + seq!['\n'] + b) == file_patterns(a) + file_patterns(b),
{
    lemma_split_lines_concat(a, b);
    lemma_pattern_lines_concat(split_char(a, '\n'), split_char(b, '\n'));
}

/// Under `--force -i`, an existing target first brings the removal
/// question; a yes removes it (all of a directory's tree unless
/// `--no-recursive-remove`), or in a dry run reports that it would be
/// created; only a no keeps it, as skipped.
pub proof fn law_confirmed_removal_goes_ahead(opts: Options, d: Seq<char>, was_dir: bool, dir: bool)
    requires
        opts.force,
        opts.interactive,
    ensures
        ({
            let t1 = transition(Stage::Start, was_dir, opts, Event::Status { exists: true, is_dir: dir }, d);
            let yes = transition(t1.stage, t1.is_dir, opts, Event::Confirmed(true), d);
            let no = transition(t1.stage, t1.is_dir, opts, Event::Confirmed(false), d);
            &&& t1.planned == Planned::Ask(prompt_for(d))
            &&& t1.stage == Stage::Confirming
            &&& !opts.dry_run ==> yes.planned == if dir {
                if opts.recursive_remove {
                    Planned::RemoveTree
                } else {
                    Planned::RemoveEmptyDir
                }
            } else {
                Planned::RemoveFile
            }
            &&& opts.dry_run ==> yes.planned == Planned::Finish(Action::DryRunWouldCreate, None)
            &&& no.planned == Planned::Finish(Action::Skipped, Some("kept by user"@))
        }),
{
}

/// Progress messages ("created", "already exists", "would create") are
/// shown exactly when `--verbose` is on and neither `--quiet` nor `--json`
/// is; warnings exactly when neither `--quiet` nor `--json` is; failures
/// exactly when `--json` is off.
pub proof fn law_message_visibility(opts: Options)
    ensures
        shown(NoteKind::Success, opts) == (opts.verbose && !opts.quiet && !opts.json),
        shown(NoteKind::Information, opts) == (opts.verbose && !opts.quiet && !opts.json),
        shown(NoteKind::Warning, opts) == (!opts.quiet && !opts.json),
        shown(NoteKind::Failure, opts) == !opts.json,
{
}

} // verus!
