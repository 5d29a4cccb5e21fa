//! A run that brings the index of a repository up to date, step by step.
//!
//! The run says what to do next: drop a file from the index, look one up in it,
//! read one, write its rows. The caller does it and reports what came of it.
use vstd::prelude::*;

use crate::dep_builder::numbered;
use crate::git::{scanned_views, ScannedFile, ScannedView};
use crate::index_builder::{
    action_for, index_source, indexed, indexed_view, is_changed, is_tracked, sha_changed, stale,
    stale_files, FileAction, FileRows, FileRowsView, IndexError, IndexFailure, IndexStats,
};
use crate::language::Language;
use crate::symbols::{extracted, parses_to, Parsed};

verus! {

/// What a run waits for.
#[derive(Debug, Clone, Copy, PartialEq, Eq, Structural)]
pub enum Stage {
    /// That the last action is done.
    Working,
    /// What the index knows of the next file.
    Looking,
    /// The text of the file with this number.
    Reading(i64),
    /// Nothing: all files are done.
    Finished,
    /// Nothing: a file could not be indexed.
    Failed,
}

/// What to do next.
#[derive(Debug)]
pub enum IndexAction {
    /// Drop the file with this number from the index.
    Delete(i64),
    /// Enter the file at this position, and report what the index knew of it.
    Upsert(usize),
    /// Note the content of the file with this number as indexed.
    Mark(i64),
    /// Read the file at this position.
    Read(usize),
    /// Replace the rows of the file with this number, and note its content as
    /// indexed.
    Write(i64, FileRows),
    /// Resolve the imports: all files are done.
    Resolve,
    /// Give up and undo all of it.
    Fail(IndexError),
}

/// What came of the last action.
#[derive(Debug)]
pub enum IndexEvent {
    /// It is done.
    Done,
    /// The number of the file, and the hash of what was indexed of it last.
    Known(i64, Option<String>),
    /// The text of the file.
    Text(String),
    /// The file cannot be read.
    Unreadable,
}

/// An [`IndexAction`], with texts for its strings.
#[verifier::ext_equal]
pub enum ActionView {
    Delete(i64),
    Upsert(int),
    Mark(i64),
    Read(int),
    Write(i64, FileRowsView),
    Resolve,
    Fail(IndexFailure),
}

/// An [`IndexEvent`], with texts for its strings.
#[verifier::ext_equal]
pub enum EventView {
    Done,
    Known(i64, Option<Seq<char>>),
    Text(Seq<char>),
    Unreadable,
}

impl View for IndexAction {
    type V = ActionView;

    open spec fn view(&self) -> ActionView {
        match self {
            IndexAction::Delete(id) => ActionView::Delete(*id),
            IndexAction::Upsert(at) => ActionView::Upsert(*at as int),
            IndexAction::Mark(id) => ActionView::Mark(*id),
            IndexAction::Read(at) => ActionView::Read(*at as int),
            IndexAction::Write(id, rows) => ActionView::Write(*id, rows@),
            IndexAction::Resolve => ActionView::Resolve,
            IndexAction::Fail(e) => ActionView::Fail(e@),
        }
    }
}

impl View for IndexEvent {
    type V = EventView;

    open spec fn view(&self) -> EventView {
        match self {
            IndexEvent::Done => EventView::Done,
            IndexEvent::Known(id, Some(sha)) => EventView::Known(*id, Some(sha@)),
            IndexEvent::Known(id, None) => EventView::Known(*id, None),
            IndexEvent::Text(text) => EventView::Text(text@),
            IndexEvent::Unreadable => EventView::Unreadable,
        }
    }
}

/// Whether a run that waits for something takes an event.
pub open spec fn takes(stage: Stage, event: EventView) -> bool {
    match stage {
        Stage::Working => event is Done,
        Stage::Looking => event is Known,
        Stage::Reading(_) => event is Text || event is Unreadable,
        Stage::Finished => false,
        Stage::Failed => false,
    }
}

/// The state of a run.
#[verifier::ext_equal]
pub struct RunView {
    /// The files that leave the index.
    pub stale: Seq<i64>,
    /// How many of them have left it.
    pub gone: nat,
    /// The files of the repository.
    pub files: Seq<ScannedView>,
    /// How many of them were taken up.
    pub taken: nat,
    /// What the run waits for.
    pub stage: Stage,
    /// What was done so far.
    pub stats: IndexStats,
    /// The files that were taken up, by their numbers.
    pub paths: Seq<(i64, Seq<char>)>,
}

impl RunView {
    /// Whether the state is one that a run can be in: every file that was taken up
    /// is counted, and one at most is read.
    pub open spec fn wf(self) -> bool {
        &&& self.gone <= self.stale.len()
        &&& self.taken <= self.files.len()
        &&& self.stats.files_total == self.taken
        &&& self.stats.files_deleted == self.gone
        &&& self.paths.len() == self.taken
        &&& forall|i: int|
            0 <= i < self.taken ==> (#[trigger] self.paths[i]).1 == self.files[i].path
        &&& self.stats.open_files() == if self.stage is Reading || self.stage is Failed {
            1int
        } else {
            0int
        }
        &&& self.stage is Looking ==> self.gone == self.stale.len() && self.taken < self.files.len()
        &&& self.stage is Reading ==> self.gone == self.stale.len() && self.taken > 0
        &&& self.stage is Finished ==> self.gone == self.stale.len() && self.taken
            == self.files.len()
    }
}

/// A run before its first step: `indexed` are the files that the index holds, `files`
/// those of the repository.
pub open spec fn started(indexed: Seq<(i64, Seq<char>)>, files: Seq<ScannedView>) -> RunView {
    RunView {
        stale: stale(indexed, files),
        gone: 0,
        files,
        taken: 0,
        stage: Stage::Working,
        stats: IndexStats {
            files_total: 0,
            files_indexed: 0,
            files_skipped: 0,
            files_deleted: 0,
            symbols_total: 0,
            deps_total: 0,
        },
        paths: Seq::empty(),
    }
}

/// The next step where nothing is open: stale files leave first, then each file
/// is looked up.
pub open spec fn go_on(run: RunView) -> (RunView, ActionView) {
    if run.gone < run.stale.len() {
        (
            RunView {
                gone: run.gone + 1,
                stage: Stage::Working,
                stats: IndexStats {
                    files_deleted: (run.stats.files_deleted + 1) as usize,
                    ..run.stats
                },
                ..run
            },
            ActionView::Delete(run.stale[run.gone as int]),
        )
    } else if run.taken < run.files.len() {
        (RunView { stage: Stage::Looking, ..run }, ActionView::Upsert(run.taken as int))
    } else {
        (RunView { stage: Stage::Finished, ..run }, ActionView::Resolve)
    }
}

/// The step after the index told what it knew of the next file.
pub open spec fn after_known(run: RunView, id: i64, sha: Option<Seq<char>>) -> (
    RunView,
    ActionView,
) {
    let file = run.files[run.taken as int];
    let action = action_for(file.lang, is_changed(sha, file.blob_sha));
    let next = RunView {
        taken: run.taken + 1,
        paths: run.paths.push((id, file.path)),
        stats: IndexStats {
            files_total: (run.stats.files_total + 1) as usize,
            files_indexed: if action == FileAction::MarkIndexed {
                (run.stats.files_indexed + 1) as usize
            } else {
                run.stats.files_indexed
            },
            files_skipped: if action == FileAction::Skip {
                (run.stats.files_skipped + 1) as usize
            } else {
                run.stats.files_skipped
            },
            ..run.stats
        },
        ..run
    };
    match action {
        FileAction::Skip => go_on(next),
        FileAction::MarkIndexed => (
            RunView { stage: Stage::Working, ..next },
            ActionView::Mark(id),
        ),
        FileAction::Read => (
            RunView { stage: Stage::Reading(id), ..next },
            ActionView::Read(run.taken as int),
        ),
    }
}

/// The step after a file was read and indexed, for what indexing it gave.
pub open spec fn after_indexed(
    run: RunView,
    id: i64,
    rows: Result<FileRowsView, IndexFailure>,
) -> (RunView, ActionView) {
    match rows {
        Ok(rows) => if run.stats.symbols_total + rows.symbols.len() <= usize::MAX {
            (
                RunView {
                    stage: Stage::Working,
                    stats: IndexStats {
                        files_indexed: (run.stats.files_indexed + 1) as usize,
                        symbols_total: (run.stats.symbols_total + rows.symbols.len()) as usize,
                        ..run.stats
                    },
                    ..run
                },
                ActionView::Write(id, rows),
            )
        } else {
            (
                RunView { stage: Stage::Failed, ..run },
                ActionView::Fail(IndexFailure::Count),
            )
        },
        Err(e) => (RunView { stage: Stage::Failed, ..run }, ActionView::Fail(e)),
    }
}

/// What indexing the file that was taken up last gives, for its text and for what
/// parsing that gave.
pub open spec fn rows_read(run: RunView, id: i64, text: Seq<char>, parsed: Parsed) -> Result<
    FileRowsView,
    IndexFailure,
> {
    let file = run.files[run.taken - 1];
    indexed(id, file.path, text, extracted(file.path, text, file.lang, parsed))
}

/// Whether parsing can give `parsed` for the text that an event brings; there is
/// nothing to parse where it brings none.
pub open spec fn can_parse_to(run: RunView, event: EventView, parsed: Parsed) -> bool {
    match event {
        EventView::Text(text) => parses_to(run.files[run.taken - 1].lang, text, parsed),
        _ => parsed is None,
    }
}

/// The step after an event, for what parsing gave.
pub open spec fn after(run: RunView, event: EventView, parsed: Parsed) -> (RunView, ActionView) {
    match (run.stage, event) {
        (Stage::Looking, EventView::Known(id, sha)) => after_known(run, id, sha),
        (Stage::Reading(id), EventView::Text(text)) => after_indexed(
            run,
            id,
            rows_read(run, id, text, parsed),
        ),
        (Stage::Reading(id), EventView::Unreadable) => go_on(
            RunView {
                stage: Stage::Working,
                stats: IndexStats {
                    files_skipped: (run.stats.files_skipped + 1) as usize,
                    ..run.stats
                },
                ..run
            },
        ),
        _ => go_on(run),
    }
}

#[derive(Debug)]
struct RunState {
    stale: Vec<i64>,
    gone: usize,
    files: Vec<ScannedFile>,
    taken: usize,
    stage: Stage,
    stats: IndexStats,
    paths: Vec<(i64, String)>,
}

impl View for RunState {
    type V = RunView;

    closed spec fn view(&self) -> RunView {
        RunView {
            stale: self.stale@,
            gone: self.gone as nat,
            files: scanned_views(self.files@),
            taken: self.taken as nat,
            stage: self.stage,
            stats: self.stats,
            paths: numbered(self.paths@),
        }
    }
}

impl RunState {
    fn start(stale: Vec<i64>, files: Vec<ScannedFile>) -> (r: RunState)
        ensures
            r@.wf(),
            r@ == (RunView { stale: stale@, ..started(Seq::empty(), scanned_views(files@)) }),
    {
        let state = RunState {
            stale,
            gone: 0,
            files,
            taken: 0,
            stage: Stage::Working,
            stats: IndexStats::default(),
            paths: Vec::new(),
        };
        assert(state@.paths =~= Seq::empty());
        state
    }

    fn go_on(&mut self) -> (r: IndexAction)
        requires
            old(self)@.wf(),
            old(self)@.stats.open_files() == 0,
        ensures
            (final(self)@, r@) == go_on(old(self)@),
            final(self)@.wf(),
    {
        if self.gone < self.stale.len() {
            let id = self.stale[self.gone];
            self.gone = self.gone + 1;
            self.stage = Stage::Working;
            self.stats.file_deleted();
            IndexAction::Delete(id)
        } else if self.taken < self.files.len() {
            self.stage = Stage::Looking;
            IndexAction::Upsert(self.taken)
        } else {
            self.stage = Stage::Finished;
            IndexAction::Resolve
        }
    }

    /// The number of the file that is read.
    fn reading(&self) -> (r: i64)
        requires
            self@.stage is Reading,
        ensures
            self@.stage == Stage::Reading(r),
    {
        match self.stage {
            Stage::Reading(id) => id,
            _ => 0,
        }
    }

    fn take_known(&mut self, id: i64, sha: Option<String>) -> (r: IndexAction)
        requires
            old(self)@.wf(),
            old(self)@.stage is Looking,
        ensures
            (final(self)@, r@) == after_known(
                old(self)@,
                id,
                match sha {
                    Some(s) => Some(s@),
                    None => None,
                },
            ),
            final(self)@.wf(),
    {
        let ghost before = self@;
        let n: usize = self.files.len();
        let at = self.taken;
        assert(at < n);
        let changed = sha_changed(&sha, self.files[at].blob_sha.as_str());
        let lang = self.files[at].lang;
        let path = self.files[at].path.clone();
        let ghost file = scanned_views(self.files@)[at as int];
        assert(file == self.files@[at as int]@);
        self.paths.push((id, path));
        assert(numbered(self.paths@) =~= before.paths.push((id, file.path)));
        self.taken = at + 1;
        let action = self.stats.take_file(lang, changed);
        match action {
            FileAction::Skip => {
                self.stage = Stage::Working;
                self.go_on()
            },
            FileAction::MarkIndexed => {
                self.stage = Stage::Working;
                IndexAction::Mark(id)
            },
            FileAction::Read => {
                self.stage = Stage::Reading(id);
                IndexAction::Read(at)
            },
        }
    }

    fn take_rows(&mut self, rows: Result<FileRows, IndexError>) -> (r: IndexAction)
        requires
            old(self)@.wf(),
            old(self)@.stage is Reading,
        ensures
            (final(self)@, r@) == after_indexed(
                old(self)@,
                old(self)@.stage->Reading_0,
                indexed_view(rows),
            ),
            final(self)@.wf(),
    {
        let id = self.reading();
        match rows {
            Ok(rows) => {
                let n: usize = rows.symbols.len();
                assert(rows@.symbols.len() == n);
                if n > usize::MAX - self.stats.symbols_total {
                    self.stage = Stage::Failed;
                    IndexAction::Fail(IndexError::Count)
                } else {
                    self.stage = Stage::Working;
                    self.stats.file_indexed(n);
                    IndexAction::Write(id, rows)
                }
            },
            Err(e) => {
                self.stage = Stage::Failed;
                IndexAction::Fail(e)
            },
        }
    }

    fn step(&mut self, event: IndexEvent) -> (r: IndexAction)
        requires
            old(self)@.wf(),
            takes(old(self)@.stage, event@),
        ensures
            exists|parsed: Parsed| #[trigger]
                can_parse_to(old(self)@, event@, parsed) && (final(self)@, r@) == after(
                    old(self)@,
                    event@,
                    parsed,
                ),
            final(self)@.wf(),
    {
        let ghost before = self@;
        let ghost seen = event@;
        proof {
            if !(seen is Text) {
                assert(can_parse_to(before, seen, None));
            }
        }
        match event {
            IndexEvent::Known(id, sha) => self.take_known(id, sha),
            IndexEvent::Text(text) => {
                let id = self.reading();
                let at = self.taken - 1;
                assert(scanned_views(self.files@)[at as int] == self.files@[at as int]@);
                let rows = index_source(
                    id,
                    self.files[at].path.as_str(),
                    text.as_str(),
                    self.files[at].lang,
                );
                proof {
                    let file = before.files[before.taken - 1];
                    let parsed = choose|parsed: Parsed| #[trigger]
                        parses_to(file.lang, text@, parsed) && indexed_view(rows) == indexed(
                            id,
                            file.path,
                            text@,
                            extracted(file.path, text@, file.lang, parsed),
                        );
                    assert(can_parse_to(before, seen, parsed));
                }
                self.take_rows(rows)
            },
            IndexEvent::Unreadable => {
                self.stats.file_unreadable();
                self.stage = Stage::Working;
                self.go_on()
            },
            IndexEvent::Done => self.go_on(),
        }
    }
}

/// A run that brings an index up to date.
#[derive(Debug)]
pub struct IndexRun {
    state: RunState,
}

impl View for IndexRun {
    type V = RunView;

    closed spec fn view(&self) -> RunView {
        self.state@
    }
}

impl IndexRun {
    #[verifier::type_invariant]
    closed spec fn inv(self) -> bool {
        self.state@.wf()
    }

    /// Starts a run: `indexed` are the files that the index holds, `files` those of
    /// the repository. The first event to report is that nothing is to be done yet.
    pub fn start(indexed: &Vec<(i64, String)>, files: Vec<ScannedFile>) -> (r: IndexRun)
        ensures
            r@.wf(),
            r@ == started(numbered(indexed@), scanned_views(files@)),
    {
        let stale = stale_files(indexed, &files);
        IndexRun { state: RunState::start(stale, files) }
    }

    /// Takes what indexing the file gave that was to be read, and decides what to do
    /// next.
    pub fn take_rows(&mut self, rows: Result<FileRows, IndexError>) -> (r: IndexAction)
        requires
            old(self)@.stage is Reading,
        ensures
            (final(self)@, r@) == after_indexed(
                old(self)@,
                old(self)@.stage->Reading_0,
                indexed_view(rows),
            ),
            final(self)@.wf(),
    {
        proof {
            use_type_invariant(&*self);
        }
        let mut state = RunState::start(Vec::new(), Vec::new());
        core::mem::swap(&mut state, &mut self.state);
        let action = state.take_rows(rows);
        self.state = state;
        action
    }

    /// Takes what came of the last action, and decides what to do next.
    pub fn step(&mut self, event: IndexEvent) -> (r: IndexAction)
        requires
            takes(old(self)@.stage, event@),
        ensures
            exists|parsed: Parsed| #[trigger]
                can_parse_to(old(self)@, event@, parsed) && (final(self)@, r@) == after(
                    old(self)@,
                    event@,
                    parsed,
                ),
            final(self)@.wf(),
    {
        proof {
            use_type_invariant(&*self);
        }
        let mut state = RunState::start(Vec::new(), Vec::new());
        core::mem::swap(&mut state, &mut self.state);
        let action = state.step(event);
        self.state = state;
        action
    }

    /// The file at a position, as the actions name it.
    pub fn file(&self, at: usize) -> (r: &ScannedFile)
        requires
            at < self@.files.len(),
        ensures
            r@ == self@.files[at as int],
    {
        let file = &self.state.files[at];
        assert(scanned_views(self.state.files@)[at as int] == file@);
        file
    }

    /// What the run waits for.
    pub fn stage(&self) -> (r: Stage)
        ensures
            r == self@.stage,
    {
        self.state.stage
    }

    /// What was done, and the files by their numbers.
    pub fn finish(self) -> (r: (IndexStats, Vec<(i64, String)>))
        ensures
            r.0 == self@.stats,
            numbered(r.1@) == self@.paths,
    {
        (self.state.stats, self.state.paths)
    }
}

// ---------------------------------------------------------------------------
// Laws

/// In a finished run every stale file has left the index, and every file of the
/// repository was indexed or skipped, once, and is listed with its path.
pub proof fn law_finished_run_is_complete(run: RunView)
    requires
        run.wf(),
        run.stage is Finished,
    ensures
        run.stats.files_deleted == run.stale.len(),
        run.stats.files_total == run.files.len(),
        run.stats.files_indexed + run.stats.files_skipped == run.files.len(),
        run.paths.len() == run.files.len(),
        forall|i: int|
            0 <= i < run.files.len() ==> (#[trigger] run.paths[i]).1 == run.files[i].path,
{
}

/// How much is left to do in a run.
pub open spec fn left(run: RunView) -> int {
    (run.stale.len() - run.gone) + 3 * (run.files.len() - run.taken) + match run.stage {
        Stage::Working => 1int,
        Stage::Looking => 0int,
        Stage::Reading(_) => 2int,
        Stage::Finished => 0int,
        Stage::Failed => 0int,
    }
}

/// Each event brings a run nearer to its end.
pub proof fn law_run_ends(run: RunView, event: EventView, parsed: Parsed)
    requires
        run.wf(),
        takes(run.stage, event),
    ensures
        0 <= left(after(run, event, parsed).0) < left(run),
{
}

/// No event changes which files there are, or takes one up again.
pub proof fn law_run_goes_forward(run: RunView, event: EventView, parsed: Parsed)
    requires
        run.wf(),
        takes(run.stage, event),
    ensures
        after(run, event, parsed).0.files == run.files,
        after(run, event, parsed).0.stale == run.stale,
        run.gone <= after(run, event, parsed).0.gone <= run.gone + 1,
        run.taken <= after(run, event, parsed).0.taken <= run.taken + 1,
        run.paths.is_prefix_of(after(run, event, parsed).0.paths),
{
    let next = after(run, event, parsed).0;
    assert(next.paths.subrange(0, run.paths.len() as int) =~= run.paths);
}

/// A file whose content has not changed is not read, and its rows stay.
pub proof fn law_unchanged_files_stay(run: RunView, id: i64, sha: Seq<char>)
    requires
        run.wf(),
        run.stage is Looking,
        run.files.len() <= usize::MAX,
        sha == run.files[run.taken as int].blob_sha,
    ensures
        !(after(run, EventView::Known(id, Some(sha)), None).1 is Read),
        !(after(run, EventView::Known(id, Some(sha)), None).1 is Mark),
        after(run, EventView::Known(id, Some(sha)), None).0.stats.files_skipped
            == run.stats.files_skipped + 1,
{
}

/// What becomes of the next file, by what the index knows of it. One whose content was
/// indexed as it is is skipped. Another is read, or only noted as indexed where its
/// language is unknown. It is listed with its number either way.
pub proof fn law_next_file(run: RunView, id: i64, sha: Option<Seq<char>>)
    requires
        run.wf(),
        run.stage is Looking,
        run.files.len() <= usize::MAX,
    ensures
        ({
            let file = run.files[run.taken as int];
            let (next, action) = after(run, EventView::Known(id, sha), None);
            &&& next.taken == run.taken + 1
            &&& next.paths == run.paths.push((id, file.path))
            &&& next.stats.files_total == run.stats.files_total + 1
            &&& next.stats.files_deleted == run.stats.files_deleted
            &&& next.stats.symbols_total == run.stats.symbols_total
            &&& if sha == Some(file.blob_sha) {
                &&& next.stats.files_skipped == run.stats.files_skipped + 1
                &&& next.stats.files_indexed == run.stats.files_indexed
                &&& if run.taken + 1 < run.files.len() {
                    action == ActionView::Upsert(run.taken + 1int) && next.stage is Looking
                } else {
                    action == ActionView::Resolve && next.stage is Finished
                }
            } else if file.lang == Language::Unknown {
                &&& next.stats.files_skipped == run.stats.files_skipped
                &&& next.stats.files_indexed == run.stats.files_indexed + 1
                &&& action == ActionView::Mark(id)
                &&& next.stage is Working
            } else {
                &&& next.stats.files_skipped == run.stats.files_skipped
                &&& next.stats.files_indexed == run.stats.files_indexed
                &&& action == ActionView::Read(run.taken as int)
                &&& next.stage == Stage::Reading(id)
            }
        }),
{
}

/// What becomes of a file that was to be read. With its text its rows are written and its
/// symbols counted; where they cannot be made the run fails. One that cannot be read is
/// skipped.
pub proof fn law_file_was_read(run: RunView, id: i64, text: Seq<char>, parsed: Parsed)
    requires
        run.wf(),
        run.stage == Stage::Reading(id),
        run.files.len() <= usize::MAX,
    ensures
        ({
            let file = run.files[run.taken - 1];
            let made = indexed(
                id,
                file.path,
                text,
                extracted(file.path, text, file.lang, parsed),
            );
            let (next, action) = after(run, EventView::Text(text), parsed);
            match made {
                Err(e) => action == ActionView::Fail(e) && next.stage is Failed,
                Ok(rows) => run.stats.symbols_total + rows.symbols.len() <= usize::MAX ==> {
                    &&& action == ActionView::Write(id, rows)
                    &&& next.stage is Working
                    &&& next.stats.files_indexed == run.stats.files_indexed + 1
                    &&& next.stats.files_skipped == run.stats.files_skipped
                    &&& next.stats.symbols_total == run.stats.symbols_total + rows.symbols.len()
                },
            }
        }),
        ({
            let (next, action) = after(run, EventView::Unreadable, None);
            &&& next.stats.files_skipped == run.stats.files_skipped + 1
            &&& next.stats.files_indexed == run.stats.files_indexed
            &&& next.stats.symbols_total == run.stats.symbols_total
            &&& if run.taken < run.files.len() {
                action == ActionView::Upsert(run.taken as int)
            } else {
                action == ActionView::Resolve
            }
        }),
{
}

/// The stale files leave the index one after the other, before any file is looked up. Then
/// each file is looked up, and at last the imports are resolved.
pub proof fn law_order_of_work(run: RunView)
    requires
        run.wf(),
        run.stage is Working,
        run.stale.len() <= usize::MAX,
    ensures
        ({
            let (next, action) = after(run, EventView::Done, None);
            if run.gone < run.stale.len() {
                &&& action == ActionView::Delete(run.stale[run.gone as int])
                &&& next.gone == run.gone + 1
                &&& next.stats.files_deleted == run.stats.files_deleted + 1
            } else if run.taken < run.files.len() {
                action == ActionView::Upsert(run.taken as int) && next.stage is Looking
            } else {
                action == ActionView::Resolve && next.stage is Finished
            }
        }),
{
}

/// A run starts with nothing done, and with those files of the index as stale that the
/// repository holds none of, in their order.
pub proof fn law_started(indexed: Seq<(i64, Seq<char>)>, files: Seq<ScannedView>)
    ensures
        started(indexed, files).stale == indexed.filter(
            |e: (i64, Seq<char>)|
                forall|k: int| 0 <= k < files.len() ==> (#[trigger] files[k]).path != e.1,
        ).map_values(|e: (i64, Seq<char>)| e.0),
        started(indexed, files).files == files,
        started(indexed, files).gone == 0,
        started(indexed, files).taken == 0,
        started(indexed, files).paths.len() == 0,
        started(indexed, files).stage is Working,
        started(indexed, files).stats.files_total == 0,
        started(indexed, files).stats.files_indexed == 0,
        started(indexed, files).stats.files_skipped == 0,
        started(indexed, files).stats.files_deleted == 0,
        started(indexed, files).stats.symbols_total == 0,
    decreases indexed.len(),
{
    reveal(Seq::filter);
    let p = |e: (i64, Seq<char>)|
        forall|k: int| 0 <= k < files.len() ==> (#[trigger] files[k]).path != e.1;
    let f = |e: (i64, Seq<char>)| e.0;
    if indexed.len() == 0 {
        assert(indexed.filter(p).map_values(f) =~= Seq::empty());
    } else {
        law_started(indexed.drop_last(), files);
        let before = indexed.drop_last().filter(p);
        let last = indexed.last();
        assert(before.push(last).map_values(f) =~= before.map_values(f).push(f(last)));
        assert(p(last) == !is_tracked(files, last.1));
    }
}

} // verus!
