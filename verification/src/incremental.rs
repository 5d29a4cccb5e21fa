//! What runs do to an index, one after the other.
//!
//! The index is seen as its rows for files, by path. A run asks for actions, and the
//! report after each tells what came of it in the index.
use vstd::prelude::*;

use crate::dep_builder::dependencies;
use crate::git::ScannedView;
use crate::index_builder::{is_changed, is_tracked, law_stale_files_leave, stale};
use crate::index_run::{
    after, can_parse_to, started, takes, ActionView, EventView, RunView, Stage,
};
use crate::language::Language;
use crate::symbols::Parsed;

verus! {

/// What the index holds of a file, but for its path.
#[verifier::ext_equal]
pub struct RowView {
    pub id: i64,
    pub lang: Language,
    /// The hash of the content when the file was entered last.
    pub blob_sha: Seq<char>,
    pub size: i64,
    /// The hash of the content that was indexed last.
    pub indexed_sha: Option<Seq<char>>,
}

/// The row of a file after it was entered: what was indexed of it stays noted.
pub open spec fn entered(file: ScannedView, id: i64, indexed_sha: Option<Seq<char>>) -> RowView {
    RowView { id, lang: file.lang, blob_sha: file.blob_sha, size: file.size, indexed_sha }
}

/// The row of a file after its content was noted as indexed.
pub open spec fn marked(row: RowView) -> RowView {
    RowView { indexed_sha: Some(row.blob_sha), ..row }
}

/// The rows of an index, by the paths of the files.
pub type Rows = Map<Seq<char>, RowView>;

/// The index without the file with the number `id`.
pub open spec fn without(rows: Rows, id: i64) -> Rows {
    Map::new(
        |path: Seq<char>| rows.contains_key(path) && rows[path].id != id,
        |path: Seq<char>| rows[path],
    )
}

/// The index with the content of the file with the number `id` noted as indexed.
pub open spec fn with_marked(rows: Rows, id: i64) -> Rows {
    rows.map_values(
        |row: RowView|
            if row.id == id {
                marked(row)
            } else {
                row
            },
    )
}

/// Whether entering a file in the index can tell its number and the hash of what was
/// indexed of it: both are those of its row, and of a file that has none nothing was
/// indexed.
pub open spec fn is_known(
    rows: Rows,
    path: Seq<char>,
    id: i64,
    indexed_sha: Option<Seq<char>>,
) -> bool {
    if rows.contains_key(path) {
        id == rows[path].id && indexed_sha == rows[path].indexed_sha
    } else {
        indexed_sha is None
    }
}

/// What came of an action: the event, and what parsing the text gave that it brought.
#[verifier::ext_equal]
pub struct Report {
    pub event: EventView,
    pub parsed: Parsed,
}

/// The step of a run after a report.
pub open spec fn step_after(run: RunView, report: Report) -> (RunView, ActionView) {
    after(run, report.event, report.parsed)
}

/// A run, the action that it asked for last, and the index.
#[verifier::ext_equal]
pub struct Turn {
    pub run: RunView,
    pub action: Option<ActionView>,
    pub rows: Rows,
}

/// A run at its start.
pub open spec fn first_turn(
    rows: Rows,
    indexed: Seq<(i64, Seq<char>)>,
    files: Seq<ScannedView>,
) -> Turn {
    Turn { run: started(indexed, files), action: None, rows }
}

/// Whether the report can come of the action.
pub open spec fn comes_of(turn: Turn, report: Report) -> bool {
    can_parse_to(turn.run, report.event, report.parsed) && match turn.action {
        None => report.event is Done,
        Some(ActionView::Delete(_)) => report.event is Done,
        Some(ActionView::Upsert(at)) => report.event matches EventView::Known(id, sha) && is_known(
            turn.rows,
            turn.run.files[at].path,
            id,
            sha,
        ),
        Some(ActionView::Mark(_)) => report.event is Done,
        Some(ActionView::Read(_)) => report.event is Text || report.event is Unreadable,
        Some(ActionView::Write(_, _)) => report.event is Done,
        Some(ActionView::Resolve) => false,
        Some(ActionView::Fail(_)) => false,
    }
}

/// The index after the action, which the report came of.
pub open spec fn rows_after(turn: Turn, report: Report) -> Rows {
    match (turn.action, report.event) {
        (Some(ActionView::Delete(id)), _) => without(turn.rows, id),
        (Some(ActionView::Upsert(at)), EventView::Known(id, sha)) => turn.rows.insert(
            turn.run.files[at].path,
            entered(turn.run.files[at], id, sha),
        ),
        (Some(ActionView::Mark(id)), _) => with_marked(turn.rows, id),
        (Some(ActionView::Write(id, _)), _) => with_marked(turn.rows, id),
        _ => turn.rows,
    }
}

/// The next turn.
pub open spec fn next_turn(turn: Turn, report: Report) -> Turn {
    Turn {
        run: step_after(turn.run, report).0,
        action: Some(step_after(turn.run, report).1),
        rows: rows_after(turn, report),
    }
}

/// Whether each of the reports can come of the action before it.
pub open spec fn all_come(turn: Turn, reports: Seq<Report>) -> bool
    decreases reports.len(),
{
    reports.len() == 0 || (comes_of(turn, reports[0]) && all_come(
        next_turn(turn, reports[0]),
        reports.drop_first(),
    ))
}

/// The turn after the reports.
pub open spec fn turn_after(turn: Turn, reports: Seq<Report>) -> Turn
    decreases reports.len(),
{
    if reports.len() == 0 {
        turn
    } else {
        turn_after(next_turn(turn, reports[0]), reports.drop_first())
    }
}

/// Whether a list names the files of an index, with their numbers.
pub open spec fn lists(indexed: Seq<(i64, Seq<char>)>, rows: Rows) -> bool {
    &&& forall|i: int|
        0 <= i < indexed.len() ==> rows.contains_key((#[trigger] indexed[i]).1)
            && rows[indexed[i].1].id == indexed[i].0
    &&& forall|path: Seq<char>| #[trigger]
        rows.contains_key(path) ==> exists|i: int|
            0 <= i < indexed.len() && (#[trigger] indexed[i]).1 == path
}

/// Whether no two of the files have the same path.
pub open spec fn distinct_paths(files: Seq<ScannedView>) -> bool {
    forall|i: int, j: int|
        0 <= i < j < files.len() ==> (#[trigger] files[i]).path != (#[trigger] files[j]).path
}

/// Whether all files could be read.
pub open spec fn all_readable(reports: Seq<Report>) -> bool {
    forall|i: int| 0 <= i < reports.len() ==> !((#[trigger] reports[i]).event is Unreadable)
}

/// Whether the index has a file as the repository has it, with that number.
pub open spec fn is_entered(rows: Rows, file: ScannedView, id: i64) -> bool {
    rows.contains_key(file.path) && rows[file.path] == entered(
        file,
        id,
        rows[file.path].indexed_sha,
    )
}

/// Whether the index has a file as the repository has it, with that number, and has
/// noted its content as indexed.
pub open spec fn is_indexed(rows: Rows, file: ScannedView, id: i64) -> bool {
    rows.contains_key(file.path) && rows[file.path] == entered(file, id, Some(file.blob_sha))
}

// ---------------------------------------------------------------------------
// One run

/// How many stale files have left the index.
spec fn deleted(turn: Turn) -> int {
    if turn.action matches Some(ActionView::Delete(_)) {
        turn.run.gone - 1
    } else {
        turn.run.gone as int
    }
}

/// Whether the file that was taken up last is yet to be noted as indexed.
spec fn is_open(turn: Turn) -> bool {
    match turn.action {
        Some(ActionView::Mark(_)) => true,
        Some(ActionView::Read(_)) => true,
        Some(ActionView::Write(_, _)) => true,
        Some(ActionView::Fail(_)) => true,
        _ => false,
    }
}

/// What holds at each turn of a run.
spec fn is_sound(turn: Turn) -> bool {
    let run = turn.run;
    &&& run.wf()
    &&& run.taken > 0 ==> run.gone == run.stale.len()
    &&& match turn.action {
        None => run.stage is Working && run.taken == 0 && run.gone == 0,
        Some(ActionView::Delete(id)) => run.stage is Working && run.taken == 0 && run.gone > 0 && id
            == run.stale[run.gone - 1],
        Some(ActionView::Upsert(at)) => run.stage is Looking && at == run.taken,
        Some(ActionView::Mark(id)) => run.stage is Working && run.taken > 0 && id
            == run.paths[run.taken - 1].0,
        Some(ActionView::Read(_)) => run.taken > 0 && run.stage == Stage::Reading(
            run.paths[run.taken - 1].0,
        ),
        Some(ActionView::Write(id, _)) => run.stage is Working && run.taken > 0 && id
            == run.paths[run.taken - 1].0,
        Some(ActionView::Resolve) => run.stage is Finished,
        Some(ActionView::Fail(_)) => run.stage is Failed && run.taken > 0,
    }
    &&& forall|k: int|
        0 <= k < run.taken ==> is_entered(
            turn.rows,
            #[trigger] run.files[k],
            run.paths[k].0,
        )
    &&& forall|path: Seq<char>| #[trigger]
        turn.rows.contains_key(path) ==> is_tracked(run.files, path) || exists|k: int|
            deleted(turn) <= k < run.stale.len() && #[trigger] run.stale[k] == turn.rows[path].id
}

/// Whether all files that were taken up, but for one that is open, are noted as
/// indexed.
spec fn all_noted(turn: Turn) -> bool {
    forall|k: int|
        0 <= k < turn.run.taken && (k < turn.run.taken - 1 || !is_open(turn)) ==> is_indexed(
            turn.rows,
            #[trigger] turn.run.files[k],
            turn.run.paths[k].0,
        )
}

proof fn lemma_untracked_are_stale(
    rows: Rows,
    indexed: Seq<(i64, Seq<char>)>,
    files: Seq<ScannedView>,
    path: Seq<char>,
)
    requires
        lists(indexed, rows),
        rows.contains_key(path),
        !is_tracked(files, path),
    ensures
        exists|k: int|
            0 <= k < stale(indexed, files).len() && #[trigger] stale(indexed, files)[k]
                == rows[path].id,
{
    let i = choose|i: int| 0 <= i < indexed.len() && (#[trigger] indexed[i]).1 == path;
    law_stale_files_leave(indexed, files, rows[path].id);
    assert(indexed[i].0 == rows[path].id && !is_tracked(files, indexed[i].1));
    let all = stale(indexed, files);
    let k = choose|k: int| 0 <= k < all.len() && all[k] == rows[path].id;
    assert(all[k] == rows[path].id);
}

proof fn lemma_first_turn_is_sound(
    rows: Rows,
    indexed: Seq<(i64, Seq<char>)>,
    files: Seq<ScannedView>,
)
    requires
        lists(indexed, rows),
    ensures
        is_sound(first_turn(rows, indexed, files)),
{
    let turn = first_turn(rows, indexed, files);
    assert forall|path: Seq<char>| #[trigger] rows.contains_key(path) implies is_tracked(files, path)
        || exists|k: int|
        deleted(turn) <= k < turn.run.stale.len() && #[trigger] turn.run.stale[k]
            == rows[path].id by {
        if !is_tracked(files, path) {
            lemma_untracked_are_stale(rows, indexed, files, path);
            let k = choose|k: int|
                0 <= k < stale(indexed, files).len() && #[trigger] stale(indexed, files)[k]
                    == rows[path].id;
            assert(turn.run.stale[k] == rows[path].id);
        }
    }
}

proof fn lemma_next_turn_is_sound(turn: Turn, report: Report)
    requires
        is_sound(turn),
        comes_of(turn, report),
        distinct_paths(turn.run.files),
        turn.run.files.len() <= usize::MAX,
        turn.run.stale.len() <= usize::MAX,
    ensures
        is_sound(next_turn(turn, report)),
        next_turn(turn, report).run.files == turn.run.files,
        next_turn(turn, report).run.stale == turn.run.stale,
        all_noted(turn) && !(report.event is Unreadable) ==> all_noted(next_turn(turn, report)),
{
    let next = next_turn(turn, report);
    let run = turn.run;
    assert(takes(run.stage, report.event));
    assert forall|k: int| 0 <= k < next.run.taken implies is_entered(
        next.rows,
        #[trigger] next.run.files[k],
        next.run.paths[k].0,
    ) by {
        let file = run.files[k];
        if k < run.taken {
            assert(is_entered(turn.rows, file, run.paths[k].0));
            assert(next.run.paths[k] == run.paths[k]);
            if let Some(ActionView::Upsert(at)) = turn.action {
                assert(run.files[k].path != run.files[at].path);
            }
        }
    }
    if all_noted(turn) && !(report.event is Unreadable) {
        assert forall|k: int|
            0 <= k < next.run.taken && (k < next.run.taken - 1 || !is_open(
                next,
            )) implies is_indexed(
            next.rows,
            #[trigger] next.run.files[k],
            next.run.paths[k].0,
        ) by {
            let file = run.files[k];
            assert(is_entered(next.rows, next.run.files[k], next.run.paths[k].0));
            if k < run.taken {
                assert(is_entered(turn.rows, file, run.paths[k].0));
                assert(next.run.paths[k] == run.paths[k]);
                if let Some(ActionView::Upsert(at)) = turn.action {
                    assert(run.files[k].path != run.files[at].path);
                }
            }
        }
    }
    assert forall|path: Seq<char>| #[trigger] next.rows.contains_key(path) implies is_tracked(
        next.run.files,
        path,
    ) || exists|k: int|
        deleted(next) <= k < next.run.stale.len() && #[trigger] next.run.stale[k]
            == next.rows[path].id by {
        if !is_tracked(run.files, path) {
            if let Some(ActionView::Upsert(at)) = turn.action {
                assert(run.files[at].path != path);
            }
            assert(turn.rows.contains_key(path));
            let k = choose|k: int|
                deleted(turn) <= k < run.stale.len() && #[trigger] run.stale[k]
                    == turn.rows[path].id;
            assert(next.run.stale[k] == next.rows[path].id);
        }
    }
}

proof fn lemma_turns_are_sound(turn: Turn, reports: Seq<Report>)
    requires
        is_sound(turn),
        all_come(turn, reports),
        distinct_paths(turn.run.files),
        turn.run.files.len() <= usize::MAX,
        turn.run.stale.len() <= usize::MAX,
    ensures
        is_sound(turn_after(turn, reports)),
        turn_after(turn, reports).run.files == turn.run.files,
        all_noted(turn) && all_readable(reports) ==> all_noted(turn_after(turn, reports)),
    decreases reports.len(),
{
    if reports.len() > 0 {
        let rest = reports.drop_first();
        if all_readable(reports) {
            assert(!(reports[0].event is Unreadable));
            assert forall|i: int| 0 <= i < rest.len() implies !((
            #[trigger] rest[i]).event is Unreadable) by {
                assert(rest[i] == reports[i + 1]);
            }
        }
        lemma_next_turn_is_sound(turn, reports[0]);
        lemma_turns_are_sound(next_turn(turn, reports[0]), rest);
    }
}

/// After a run the index holds the files of the repository and no others, each as the
/// repository has it, whether or not it could be read.
pub proof fn law_finished_run_holds_the_repository(
    rows: Rows,
    indexed: Seq<(i64, Seq<char>)>,
    files: Seq<ScannedView>,
    reports: Seq<Report>,
)
    requires
        lists(indexed, rows),
        distinct_paths(files),
        files.len() <= usize::MAX,
        indexed.len() <= usize::MAX,
        all_come(first_turn(rows, indexed, files), reports),
        turn_after(first_turn(rows, indexed, files), reports).run.stage is Finished,
    ensures
        ({
            let last = turn_after(first_turn(rows, indexed, files), reports);
            &&& last.run.paths.len() == files.len()
            &&& forall|k: int|
                0 <= k < files.len() ==> is_entered(
                    last.rows,
                    #[trigger] files[k],
                    last.run.paths[k].0,
                )
            &&& forall|path: Seq<char>| #[trigger]
                last.rows.contains_key(path) <==> is_tracked(files, path)
        }),
{
    let first = first_turn(rows, indexed, files);
    lemma_first_turn_is_sound(rows, indexed, files);
    lemma_stale_len(indexed, files);
    lemma_turns_are_sound(first, reports);
    let last = turn_after(first, reports);
    assert forall|k: int| 0 <= k < files.len() implies is_entered(
        last.rows,
        #[trigger] files[k],
        last.run.paths[k].0,
    ) by {
        assert(last.run.files[k] == files[k]);
    }
    assert forall|path: Seq<char>| #[trigger] last.rows.contains_key(path) <==> is_tracked(
        files,
        path,
    ) by {
        if is_tracked(files, path) {
            let k = choose|k: int| 0 <= k < files.len() && (#[trigger] files[k]).path == path;
            assert(is_entered(last.rows, files[k], last.run.paths[k].0));
        }
    }
}

/// After a run in which all files could be read, the index has noted the content of
/// each file of the repository as indexed.
pub proof fn law_finished_run_indexes_all(
    rows: Rows,
    indexed: Seq<(i64, Seq<char>)>,
    files: Seq<ScannedView>,
    reports: Seq<Report>,
)
    requires
        lists(indexed, rows),
        distinct_paths(files),
        files.len() <= usize::MAX,
        indexed.len() <= usize::MAX,
        all_come(first_turn(rows, indexed, files), reports),
        all_readable(reports),
        turn_after(first_turn(rows, indexed, files), reports).run.stage is Finished,
    ensures
        ({
            let last = turn_after(first_turn(rows, indexed, files), reports);
            forall|k: int|
                0 <= k < files.len() ==> is_indexed(
                    last.rows,
                    #[trigger] files[k],
                    last.run.paths[k].0,
                )
        }),
{
    let first = first_turn(rows, indexed, files);
    lemma_first_turn_is_sound(rows, indexed, files);
    lemma_stale_len(indexed, files);
    lemma_turns_are_sound(first, reports);
    let last = turn_after(first, reports);
    assert(!is_open(last));
    assert forall|k: int| 0 <= k < files.len() implies is_indexed(
        last.rows,
        #[trigger] files[k],
        last.run.paths[k].0,
    ) by {
        assert(last.run.files[k] == files[k]);
    }
}

proof fn lemma_stale_len(indexed: Seq<(i64, Seq<char>)>, files: Seq<ScannedView>)
    ensures
        stale(indexed, files).len() <= indexed.len(),
    decreases indexed.len(),
{
    if indexed.len() > 0 {
        lemma_stale_len(indexed.drop_last(), files);
    }
}

// ---------------------------------------------------------------------------
// A run over what was indexed

/// Whether a run takes each of the reports.
pub open spec fn takes_all(run: RunView, reports: Seq<Report>) -> bool
    decreases reports.len(),
{
    reports.len() == 0 || (takes(run.stage, reports[0].event) && takes_all(
        step_after(run, reports[0]).0,
        reports.drop_first(),
    ))
}

/// The run after the reports.
pub open spec fn run_after(run: RunView, reports: Seq<Report>) -> RunView
    decreases reports.len(),
{
    if reports.len() == 0 {
        run
    } else {
        run_after(step_after(run, reports[0]).0, reports.drop_first())
    }
}

/// Whether the index reports the hash of the content of each file as that of what was
/// indexed.
pub open spec fn reports_indexed(run: RunView, reports: Seq<Report>) -> bool
    decreases reports.len(),
{
    reports.len() == 0 || ((reports[0].event matches EventView::Known(_, sha) ==> sha == Some(
        run.files[run.taken as int].blob_sha,
    )) && reports_indexed(step_after(run, reports[0]).0, reports.drop_first()))
}

/// Whether a run has skipped all that it has taken up, with nothing to delete.
spec fn is_idle(run: RunView) -> bool {
    &&& run.wf()
    &&& run.stale.len() == 0
    &&& run.stats.files_indexed == 0
    &&& run.stats.symbols_total == 0
    &&& run.stats.deps_total == 0
    &&& run.stats.files_skipped == run.taken
    &&& run.stage is Working || run.stage is Looking || run.stage is Finished
}

proof fn lemma_idle_run(run: RunView, reports: Seq<Report>)
    requires
        is_idle(run),
        run.files.len() <= usize::MAX,
        takes_all(run, reports),
        reports_indexed(run, reports),
    ensures
        is_idle(run_after(run, reports)),
        run_after(run, reports).files == run.files,
    decreases reports.len(),
{
    if reports.len() > 0 {
        let next = step_after(run, reports[0]).0;
        assert(is_idle(next));
        lemma_idle_run(next, reports.drop_first());
    }
}

/// A run that finds every file as it was indexed, and none that is stale, indexes
/// nothing, deletes nothing and skips all.
pub proof fn law_unchanged_files_are_skipped(
    indexed: Seq<(i64, Seq<char>)>,
    files: Seq<ScannedView>,
    reports: Seq<Report>,
)
    requires
        stale(indexed, files).len() == 0,
        files.len() <= usize::MAX,
        takes_all(started(indexed, files), reports),
        reports_indexed(started(indexed, files), reports),
        run_after(started(indexed, files), reports).stage is Finished,
    ensures
        ({
            let stats = run_after(started(indexed, files), reports).stats;
            &&& stats.files_indexed == 0
            &&& stats.files_deleted == 0
            &&& stats.symbols_total == 0
            &&& stats.files_skipped == stats.files_total
            &&& stats.files_total == files.len()
        }),
{
    lemma_idle_run(started(indexed, files), reports);
}

// ---------------------------------------------------------------------------
// Two runs

/// Whether a run asks for nothing but to look files up, and to resolve the imports at
/// its end: whatever the index holds stays as it is.
pub open spec fn only_looks(turn: Turn, reports: Seq<Report>) -> bool
    decreases reports.len(),
{
    reports.len() == 0 || (match next_turn(turn, reports[0]).action {
        Some(ActionView::Upsert(_)) => true,
        Some(ActionView::Resolve) => true,
        _ => false,
    } && only_looks(next_turn(turn, reports[0]), reports.drop_first()))
}

/// What holds at each turn of a run over an index that holds all files as they are.
spec fn is_quiet(turn: Turn, ids: Seq<i64>) -> bool {
    let run = turn.run;
    &&& is_idle(run)
    &&& ids.len() == run.files.len()
    &&& forall|k: int|
        0 <= k < run.files.len() ==> is_indexed(turn.rows, #[trigger] run.files[k], ids[k])
    &&& forall|k: int| 0 <= k < run.taken ==> (#[trigger] run.paths[k]).0 == ids[k]
    &&& match turn.action {
        None => run.stage is Working,
        Some(ActionView::Upsert(at)) => run.stage is Looking && at == run.taken,
        Some(ActionView::Resolve) => run.stage is Finished,
        _ => false,
    }
}

proof fn lemma_quiet_turns(turn: Turn, ids: Seq<i64>, reports: Seq<Report>)
    requires
        is_quiet(turn, ids),
        turn.run.files.len() <= usize::MAX,
        all_come(turn, reports),
    ensures
        only_looks(turn, reports),
        takes_all(turn.run, reports),
        reports_indexed(turn.run, reports),
        turn_after(turn, reports).run == run_after(turn.run, reports),
        turn_after(turn, reports).rows == turn.rows,
        is_quiet(turn_after(turn, reports), ids),
        turn_after(turn, reports).run.files == turn.run.files,
    decreases reports.len(),
{
    if reports.len() > 0 {
        let report = reports[0];
        let next = next_turn(turn, report);
        if let Some(ActionView::Upsert(at)) = turn.action {
            let file = turn.run.files[at];
            assert(is_indexed(turn.rows, file, ids[at]));
            if let EventView::Known(id, sha) = report.event {
                assert(entered(file, id, sha) == turn.rows[file.path]);
                assert(turn.rows.insert(file.path, entered(file, id, sha)) =~= turn.rows);
            }
        }
        assert(next.rows == turn.rows);
        assert forall|k: int| 0 <= k < next.run.taken implies (#[trigger] next.run.paths[k]).0
            == ids[k] by {
            if k < turn.run.taken {
                assert(next.run.paths[k] == turn.run.paths[k]);
            }
        }
        assert(is_quiet(next, ids));
        lemma_quiet_turns(next, ids, reports.drop_first());
    }
}

proof fn lemma_nothing_stale(indexed: Seq<(i64, Seq<char>)>, files: Seq<ScannedView>)
    requires
        forall|i: int| 0 <= i < indexed.len() ==> is_tracked(files, (#[trigger] indexed[i]).1),
    ensures
        stale(indexed, files).len() == 0,
    decreases indexed.len(),
{
    if indexed.len() > 0 {
        let init = indexed.drop_last();
        assert forall|i: int| 0 <= i < init.len() implies is_tracked(
            files,
            (#[trigger] init[i]).1,
        ) by {
            assert(init[i] == indexed[i]);
        }
        assert(is_tracked(files, indexed[indexed.len() - 1].1));
        lemma_nothing_stale(init, files);
    }
}

/// A second run over an unchanged repository indexes, deletes and reads nothing, and
/// skips all files: it asks only to look them up, the index stays as the first run
/// left it, and the imports, which stay too, make the same dependencies.
pub proof fn law_second_run_changes_nothing(
    rows: Rows,
    indexed: Seq<(i64, Seq<char>)>,
    files: Seq<ScannedView>,
    reports: Seq<Report>,
    indexed_then: Seq<(i64, Seq<char>)>,
    reports_then: Seq<Report>,
    imports: Seq<(i64, Seq<char>)>,
)
    requires
        lists(indexed, rows),
        distinct_paths(files),
        files.len() <= usize::MAX,
        indexed.len() <= usize::MAX,
        all_come(first_turn(rows, indexed, files), reports),
        all_readable(reports),
        turn_after(first_turn(rows, indexed, files), reports).run.stage is Finished,
        ({
            let rows_then = turn_after(first_turn(rows, indexed, files), reports).rows;
            &&& lists(indexed_then, rows_then)
            &&& all_come(first_turn(rows_then, indexed_then, files), reports_then)
            &&& turn_after(
                first_turn(rows_then, indexed_then, files),
                reports_then,
            ).run.stage is Finished
        }),
    ensures
        ({
            let one = turn_after(first_turn(rows, indexed, files), reports);
            let two = turn_after(first_turn(one.rows, indexed_then, files), reports_then);
            &&& two.run.stats.files_indexed == 0
            &&& two.run.stats.files_skipped == two.run.stats.files_total
            &&& two.run.stats.files_total == one.run.stats.files_total
            &&& two.run.stats.files_deleted == 0
            &&& two.run.stats.symbols_total == 0
            &&& two.rows == one.rows
            &&& two.run.paths == one.run.paths
            &&& dependencies(imports, two.run.paths) == dependencies(imports, one.run.paths)
            &&& only_looks(first_turn(one.rows, indexed_then, files), reports_then)
        }),
{
    let one = turn_after(first_turn(rows, indexed, files), reports);
    law_finished_run_indexes_all(rows, indexed, files, reports);
    law_finished_run_holds_the_repository(rows, indexed, files, reports);
    lemma_first_turn_is_sound(rows, indexed, files);
    lemma_stale_len(indexed, files);
    lemma_turns_are_sound(first_turn(rows, indexed, files), reports);
    let start = first_turn(one.rows, indexed_then, files);
    let two = turn_after(start, reports_then);
    let ids = Seq::new(files.len(), |k: int| one.run.paths[k].0);
    assert forall|i: int| 0 <= i < indexed_then.len() implies is_tracked(
        files,
        (#[trigger] indexed_then[i]).1,
    ) by {
        assert(one.rows.contains_key(indexed_then[i].1));
    }
    lemma_nothing_stale(indexed_then, files);
    assert forall|k: int| 0 <= k < files.len() implies is_indexed(
        start.rows,
        #[trigger] start.run.files[k],
        ids[k],
    ) by {
        assert(is_indexed(one.rows, files[k], one.run.paths[k].0));
    }
    assert(is_quiet(start, ids));
    lemma_quiet_turns(start, ids, reports_then);
    law_unchanged_files_are_skipped(indexed_then, files, reports_then);
    assert forall|k: int| 0 <= k < files.len() implies #[trigger] two.run.paths[k]
        == one.run.paths[k] by {
        assert(two.run.paths[k].0 == ids[k]);
        assert(one.run.paths[k].1 == one.run.files[k].path);
        assert(two.run.paths[k].1 == two.run.files[k].path);
    }
    assert(two.run.paths =~= one.run.paths);
}

/// A file that was entered and noted as indexed is reported, when it is entered again,
/// with its number and with the hash that it had then, so that it is indexed again
/// exactly if its content has changed. Entering it once more gives the same answer, as
/// entering never changes what is noted. Of a file that is new nothing was indexed.
pub proof fn law_entering_reports_what_was_noted(
    rows: Rows,
    old_file: ScannedView,
    id: i64,
    noted: Option<Seq<char>>,
    file: ScannedView,
    again: i64,
    sha: Option<Seq<char>>,
)
    requires
        file.path == old_file.path,
    ensures
        ({
            let then = with_marked(rows.insert(old_file.path, entered(old_file, id, noted)), id);
            let now = then.insert(file.path, entered(file, id, Some(old_file.blob_sha)));
            &&& is_known(then, file.path, again, sha) <==> again == id && sha == Some(
                old_file.blob_sha,
            )
            &&& is_changed(Some(old_file.blob_sha), file.blob_sha) <==> file.blob_sha
                != old_file.blob_sha
            &&& is_known(now, file.path, again, sha) <==> is_known(then, file.path, again, sha)
            &&& !rows.contains_key(file.path) && is_known(rows, file.path, again, sha)
                ==> is_changed(sha, file.blob_sha)
        }),
{
}

} // verus!
