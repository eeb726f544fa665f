//! The work on a task: its steps, what each step does, and what holds of the whole run.
use vstd::prelude::*;
use crate::command::{Task, TaskView};
use crate::config;
use crate::config::Config;
use crate::edit;
use crate::edit::{
    copy_in, delete_all, delete_single_node, make_directory, move_in, move_within, rename_node,
    take_node,
};
use crate::fault::{CommandError, Fault, Reason};
use crate::guid::{Mint, MintState};
use crate::text;
use crate::tree;
use crate::tree::navigate_node_ref;
use crate::value::{Json, Doc};

verus! {

/// A step of the work on a task. Profiles are given by their position in the configuration.
#[derive(Debug, Clone, Copy, PartialEq, Eq, Structural)]
pub enum Step {
    /// The bookmark file of a profile is backed up, if a copy is due.
    Backup(usize),
    /// The document in hand becomes that of a profile.
    Load(usize),
    /// The document in hand is changed.
    Edit,
    /// A node is taken out of the document in hand.
    Take,
    /// A node of the document in hand is copied.
    Pick,
    /// The node that was taken or copied is put into the document in hand.
    Put,
    /// The document in hand is written to a profile.
    Save(usize),
}

/// The steps of a task.
pub open spec fn steps_of(task: TaskView) -> Seq<Step> {
    match task {
        TaskView::Delete { profile, .. } => edit_steps(profile),
        TaskView::RemoveFolder { profile, .. } => edit_steps(profile),
        TaskView::MakeFolder { profile, .. } => edit_steps(profile),
        TaskView::Rename { profile, .. } => edit_steps(profile),
        TaskView::Move { source, target, .. } => if source == target {
            edit_steps(source)
        } else {
            seq![
                Step::Backup(source as usize),
                Step::Load(source as usize),
                Step::Take,
                Step::Save(source as usize),
                Step::Backup(target as usize),
                Step::Load(target as usize),
                Step::Put,
                Step::Save(target as usize),
            ]
        },
        TaskView::Copy { source, target, .. } => if source == target {
            seq![
                Step::Load(source as usize),
                Step::Pick,
                Step::Backup(target as usize),
                Step::Put,
                Step::Save(target as usize),
            ]
        } else {
            seq![
                Step::Load(source as usize),
                Step::Pick,
                Step::Backup(target as usize),
                Step::Load(target as usize),
                Step::Put,
                Step::Save(target as usize),
            ]
        },
    }
}

/// The steps of a change to one profile.
pub open spec fn edit_steps(profile: int) -> Seq<Step> {
    seq![
        Step::Backup(profile as usize),
        Step::Load(profile as usize),
        Step::Edit,
        Step::Save(profile as usize),
    ]
}

/// What is in hand during the work: a document, perhaps a node, the mint, and the failure that
/// ended the work.
pub struct Hand {
    pub doc: Json,
    pub held: Option<Json>,
    pub mint: MintState,
    pub fault: Option<Fault>,
}

/// The hand after an edit.
pub open spec fn after_edit(hand: Hand, e: edit::Edited) -> Hand {
    Hand { doc: e.doc, held: hand.held, mint: e.mint, fault: e.fault }
}

/// What a step on the document in hand does.
pub open spec fn performed(task: TaskView, step: Step, hand: Hand) -> Hand {
    match (step, task) {
        (Step::Edit, TaskView::Delete { folder, items, .. }) => after_edit(
            hand,
            edit::deleted_all(hand.doc, folder, items, hand.mint),
        ),
        (Step::Edit, TaskView::RemoveFolder { path, .. }) => after_edit(
            hand,
            edit::deleted(hand.doc, path, hand.mint),
        ),
        (Step::Edit, TaskView::MakeFolder { parents, name, written, .. }) => after_edit(
            hand,
            edit::made(hand.doc, parents, name, written, hand.mint),
        ),
        (Step::Edit, TaskView::Rename { path, name, .. }) => after_edit(
            hand,
            edit::renamed(hand.doc, path, name, hand.mint),
        ),
        (Step::Edit, TaskView::Move { from, to, .. }) => after_edit(
            hand,
            edit::moved_within(hand.doc, from, to, hand.mint),
        ),
        (Step::Take, TaskView::Move { from, .. }) => {
            let (doc, mint, out) = edit::taken(hand.doc, from, hand.mint);
            match out {
                Ok(n) => Hand { doc, held: Some(n), mint, fault: None },
                Err(e) => Hand { doc, held: hand.held, mint, fault: Some(e) },
            }
        },
        (Step::Pick, TaskView::Copy { from, written, .. }) => match tree::navigated(hand.doc, from) {
            Some(n) => Hand { held: Some(n), fault: None, ..hand },
            None => Hand {
                fault: Some(Fault { reason: Reason::SourceNotFound, detail: written }),
                ..hand
            },
        },
        (Step::Put, TaskView::Move { to, to_table, .. }) => match hand.held {
            Some(n) => after_edit(
                Hand { held: None, ..hand },
                edit::moved_in(hand.doc, to, n, hand.mint, to_table),
            ),
            None => Hand { fault: None, ..hand },
        },
        (Step::Put, TaskView::Copy { to, to_table, .. }) => match hand.held {
            Some(n) => after_edit(
                Hand { held: None, ..hand },
                edit::copied_in(hand.doc, to, n, hand.mint, to_table),
            ),
            None => Hand { fault: None, ..hand },
        },
        _ => Hand { fault: None, ..hand },
    }
}

/// The model of a node that may be missing.
pub open spec fn held_view(held: Option<Doc>) -> Option<Json> {
    match held {
        Some(v) => Some(v@),
        None => None,
    }
}

/// A list of steps.
fn step_list(a: Step, b: Step, c: Step, d: Step) -> (r: Vec<Step>)
    ensures
        r@ == seq![a, b, c, d],
{
    let mut out: Vec<Step> = Vec::new();
    out.push(a);
    out.push(b);
    out.push(c);
    out.push(d);
    assert(out@ =~= seq![a, b, c, d]);
    out
}

impl Task {
    /// The steps of the task.
    pub fn steps(&self) -> (r: Vec<Step>)
        ensures
            r@ == steps_of(self@),
    {
        match self {
            Task::Delete { profile, .. } => step_list(
                Step::Backup(*profile),
                Step::Load(*profile),
                Step::Edit,
                Step::Save(*profile),
            ),
            Task::RemoveFolder { profile, .. } => step_list(
                Step::Backup(*profile),
                Step::Load(*profile),
                Step::Edit,
                Step::Save(*profile),
            ),
            Task::MakeFolder { profile, .. } => step_list(
                Step::Backup(*profile),
                Step::Load(*profile),
                Step::Edit,
                Step::Save(*profile),
            ),
            Task::Rename { profile, .. } => step_list(
                Step::Backup(*profile),
                Step::Load(*profile),
                Step::Edit,
                Step::Save(*profile),
            ),
            Task::Move { source, target, .. } => if *source == *target {
                step_list(
                    Step::Backup(*source),
                    Step::Load(*source),
                    Step::Edit,
                    Step::Save(*source),
                )
            } else {
                let mut out: Vec<Step> = step_list(
                    Step::Backup(*source),
                    Step::Load(*source),
                    Step::Take,
                    Step::Save(*source),
                );
                out.push(Step::Backup(*target));
                out.push(Step::Load(*target));
                out.push(Step::Put);
                out.push(Step::Save(*target));
                assert(out@ =~= steps_of(self@));
                out
            },
            Task::Copy { source, target, .. } => {
                let mut out: Vec<Step> = Vec::new();
                out.push(Step::Load(*source));
                out.push(Step::Pick);
                out.push(Step::Backup(*target));
                if *source != *target {
                    out.push(Step::Load(*target));
                }
                out.push(Step::Put);
                out.push(Step::Save(*target));
                assert(out@ =~= steps_of(self@));
                out
            },
        }
    }

    /// Does a step on the document in hand. `held` is the node that was taken or copied.
    pub fn perform(
        &self,
        step: Step,
        doc: &mut Doc,
        held: &mut Option<Doc>,
        mint: &mut Mint,
    ) -> (r: Result<(), CommandError>)
        ensures
            ({
                let hand = performed(
                    self@,
                    step,
                    Hand {
                        doc: old(doc)@,
                        held: held_view(*old(held)),
                        mint: old(mint)@,
                        fault: None,
                    },
                );
                &&& final(doc)@ == hand.doc
                &&& held_view(*final(held)) == hand.held
                &&& final(mint)@ == hand.mint
                &&& edit::reports(r, hand.fault)
            }),
    {
        match step {
            Step::Edit => match self {
                Task::Delete { folder, items, .. } => delete_all(
                    doc,
                    folder,
                    items.as_slice(),
                    mint,
                ),
                Task::RemoveFolder { path, .. } => delete_single_node(doc, path.as_slice(), mint),
                Task::MakeFolder { parents, name, written, .. } => make_directory(
                    doc,
                    parents.as_slice(),
                    name.as_str(),
                    written.as_str(),
                    mint,
                ),
                Task::Rename { path, name, .. } => rename_node(
                    doc,
                    path.as_slice(),
                    name.as_str(),
                    mint,
                ),
                Task::Move { from, to, .. } => move_within(
                    doc,
                    from.as_slice(),
                    to.as_slice(),
                    mint,
                ),
                Task::Copy { .. } => Ok(()),
            },
            Step::Take => match self {
                Task::Move { from, .. } => match take_node(doc, from.as_slice(), mint) {
                    Ok(n) => {
                        *held = Some(n);
                        Ok(())
                    },
                    Err(e) => Err(e),
                },
                _ => Ok(()),
            },
            Step::Pick => match self {
                Task::Copy { from, written, .. } => match navigate_node_ref(doc, from.as_slice()) {
                    Some(n) => {
                        *held = Some(n.clone());
                        Ok(())
                    },
                    None => Err(CommandError::new(Reason::SourceNotFound, written.as_str())),
                },
                _ => Ok(()),
            },
            Step::Put => match self {
                Task::Move { to, to_table, .. } => match held.take() {
                    Some(n) => move_in(doc, to.as_slice(), n, mint, *to_table),
                    None => Ok(()),
                },
                Task::Copy { to, to_table, .. } => match held.take() {
                    Some(n) => copy_in(doc, to.as_slice(), n, mint, *to_table),
                    None => Ok(()),
                },
                _ => Ok(()),
            },
            Step::Backup(_) | Step::Load(_) | Step::Save(_) => Ok(()),
        }
    }
}

// ---------------------------------------------------------------------------
// The whole run
// ---------------------------------------------------------------------------

/// The bookmark files of the profiles, which of them have been offered for backup and read, and
/// what is in hand.
pub struct World {
    pub stores: Map<int, Json>,
    pub backed: Set<int>,
    pub loaded: Set<int>,
    pub hand: Hand,
}

/// The world after a step, where `f` says what a step does on what is in hand; after a failure
/// nothing more is done.
pub open spec fn after_step(f: spec_fn(Step, Hand) -> Hand, step: Step, w: World) -> World {
    if w.hand.fault is Some {
        w
    } else {
        match step {
            Step::Backup(p) => World { backed: w.backed.insert(p as int), ..w },
            Step::Load(p) => World {
                loaded: w.loaded.insert(p as int),
                hand: Hand { doc: w.stores[p as int], ..w.hand },
                ..w
            },
            Step::Save(p) => World { stores: w.stores.insert(p as int, w.hand.doc), ..w },
            _ => World { hand: f(step, w.hand), ..w },
        }
    }
}

/// The world after the first `n` of some steps.
pub open spec fn after_steps(
    f: spec_fn(Step, Hand) -> Hand,
    steps: Seq<Step>,
    n: int,
    w: World,
) -> World
    decreases n,
{
    if n <= 0 {
        w
    } else {
        after_step(f, steps[n - 1], after_steps(f, steps, n - 1, w))
    }
}

/// What the steps of a task do on what is in hand.
pub open spec fn worker(task: TaskView) -> spec_fn(Step, Hand) -> Hand {
    |step: Step, hand: Hand| performed(task, step, hand)
}

/// The world after the first `n` steps of a task.
pub open spec fn worked(task: TaskView, n: int, w: World) -> World {
    after_steps(worker(task), steps_of(task), n, w)
}

/// The world after a task.
pub open spec fn finished(task: TaskView, w: World) -> World {
    worked(task, steps_of(task).len() as int, w)
}

/// The profiles of a task are positions in a configuration.
pub open spec fn well_placed(task: TaskView) -> bool {
    match task {
        TaskView::Delete { profile, .. } => 0 <= profile <= usize::MAX,
        TaskView::RemoveFolder { profile, .. } => 0 <= profile <= usize::MAX,
        TaskView::MakeFolder { profile, .. } => 0 <= profile <= usize::MAX,
        TaskView::Rename { profile, .. } => 0 <= profile <= usize::MAX,
        TaskView::Move { source, target, .. } => {
            0 <= source <= usize::MAX && 0 <= target <= usize::MAX
        },
        TaskView::Copy { source, target, .. } => {
            0 <= source <= usize::MAX && 0 <= target <= usize::MAX
        },
    }
}

/// The profile whose bookmarks a task writes last.
pub open spec fn written_last(task: TaskView) -> int {
    match task {
        TaskView::Delete { profile, .. } => profile,
        TaskView::RemoveFolder { profile, .. } => profile,
        TaskView::MakeFolder { profile, .. } => profile,
        TaskView::Rename { profile, .. } => profile,
        TaskView::Move { target, .. } => target,
        TaskView::Copy { target, .. } => target,
    }
}

/// The task moves a node from one browser to another.
pub open spec fn crosses(task: TaskView) -> bool {
    task matches TaskView::Move { source, target, .. } && source != target
}

/// The three courses of work, with what they read and write.
spec fn course(task: TaskView, steps: Seq<Step>) -> bool {
    let t = written_last(task) as usize;
    ||| steps == edit_steps(t as int)
    ||| {
        &&& task matches TaskView::Copy { source, .. }
        &&& steps == seq![
            Step::Load(source as usize),
            Step::Pick,
            Step::Backup(t),
            Step::Put,
            Step::Save(t),
        ]
        &&& source as usize == t
    }
    ||| {
        &&& task matches TaskView::Copy { source, .. }
        &&& steps == seq![
            Step::Load(source as usize),
            Step::Pick,
            Step::Backup(t),
            Step::Load(t),
            Step::Put,
            Step::Save(t),
        ]
    }
}

/// A task that does not cross takes one of the courses.
proof fn lemma_course(task: TaskView)
    requires
        !crosses(task),
    ensures
        course(task, steps_of(task)),
{
}

/// The world after a course of work, whatever its steps do on what is in hand.
proof fn lemma_course_run(
    task: TaskView,
    steps: Seq<Step>,
    f: spec_fn(Step, Hand) -> Hand,
    w: World,
)
    requires
        well_placed(task),
        course(task, steps),
        w.hand.fault is None,
    ensures
        ({
            let end = after_steps(f, steps, steps.len() as int, w);
            &&& end.hand.fault is Some ==> end.stores == w.stores
            &&& end.hand.fault is None ==> end.stores == w.stores.insert(
                written_last(task),
                end.hand.doc,
            )
            &&& steps == edit_steps(written_last(task)) ==> end.hand == f(
                Step::Edit,
                Hand { doc: w.stores[written_last(task)], ..w.hand },
            )
        }),
{
    reveal_with_fuel(after_steps, 7);
}

/// The steps of a move to another browser.
spec fn crossing_steps(source: usize, target: usize) -> Seq<Step> {
    seq![
        Step::Backup(source),
        Step::Load(source),
        Step::Take,
        Step::Save(source),
        Step::Backup(target),
        Step::Load(target),
        Step::Put,
        Step::Save(target),
    ]
}

/// The world after a move to another browser, whatever its steps do on what is in hand.
proof fn lemma_crossing_run(source: usize, target: usize, f: spec_fn(Step, Hand) -> Hand, w: World)
    requires
        source != target,
        w.hand.fault is None,
    ensures
        ({
            let end = after_steps(f, crossing_steps(source, target), 8, w);
            &&& end.hand.fault is Some ==> end.stores == w.stores || exists|doc: Json|
                end.stores == #[trigger] w.stores.insert(source as int, doc)
            &&& end.hand.fault is None ==> exists|doc: Json|
                end.stores == (#[trigger] w.stores.insert(source as int, doc)).insert(
                    target as int,
                    end.hand.doc,
                )
        }),
{
    reveal_with_fuel(after_steps, 9);
    let steps = crossing_steps(source, target);
    let mid = after_steps(f, steps, 4, w);
    assert(mid.stores == w.stores || mid.stores == w.stores.insert(source as int, mid.hand.doc));
}

/// What a run has been offered for backup and has read by the time of each of its writes.
proof fn lemma_ready_to_save(task: TaskView, f: spec_fn(Step, Hand) -> Hand, w: World, n: int)
    requires
        well_placed(task),
        0 <= n < steps_of(task).len(),
        steps_of(task)[n] is Save,
        after_steps(f, steps_of(task), n, w).hand.fault is None,
    ensures
        ({
            let p = steps_of(task)[n]->Save_0 as int;
            &&& after_steps(f, steps_of(task), n, w).backed.contains(p)
            &&& after_steps(f, steps_of(task), n, w).loaded.contains(p)
        }),
{
    reveal_with_fuel(after_steps, 8);
    if crosses(task) {
        let steps = crossing_steps(task->Move_source as usize, task->Move_target as usize);
        assert(steps_of(task) =~= steps);
        assert(n == 3 || n == 7);
    } else {
        lemma_course(task);
        assert(n == steps_of(task).len() - 1);
    }
}

/// No file is written before it was offered for backup and read.
pub proof fn law_backed_up_before_saved(task: TaskView, w: World, n: int)
    requires
        well_placed(task),
        0 <= n < steps_of(task).len(),
        steps_of(task)[n] is Save,
        worked(task, n, w).hand.fault is None,
    ensures
        ({
            let p = steps_of(task)[n]->Save_0 as int;
            &&& worked(task, n, w).backed.contains(p)
            &&& worked(task, n, w).loaded.contains(p)
        }),
{
    lemma_ready_to_save(task, worker(task), w, n);
}

/// A task that fails changes no file, unless it moves a node to another browser.
pub proof fn law_failure_changes_nothing(task: TaskView, w: World)
    requires
        well_placed(task),
        !crosses(task),
        w.hand.fault is None,
        finished(task, w).hand.fault is Some,
    ensures
        finished(task, w).stores == w.stores,
{
    lemma_course(task);
    lemma_course_run(task, steps_of(task), worker(task), w);
}

/// A task that succeeds writes what it has in hand to the profile it is for, and touches no other
/// file but that which a node leaves for another browser.
pub proof fn law_success_is_saved(task: TaskView, w: World)
    requires
        well_placed(task),
        w.hand.fault is None,
        finished(task, w).hand.fault is None,
    ensures
        finished(task, w).stores[written_last(task)] == finished(task, w).hand.doc,
        !crosses(task) ==> finished(task, w).stores == w.stores.insert(
            written_last(task),
            finished(task, w).hand.doc,
        ),
        crosses(task) ==> exists|doc: Json|
            finished(task, w).stores == (#[trigger] w.stores.insert(
                task->Move_source,
                doc,
            )).insert(task->Move_target, finished(task, w).hand.doc),
{
    if crosses(task) {
        let steps = crossing_steps(task->Move_source as usize, task->Move_target as usize);
        assert(steps_of(task) =~= steps);
        lemma_crossing_run(
            task->Move_source as usize,
            task->Move_target as usize,
            worker(task),
            w,
        );
    } else {
        lemma_course(task);
        lemma_course_run(task, steps_of(task), worker(task), w);
    }
}

/// A node that moves to another browser leaves the file of the one and enters that of the other.
pub proof fn law_move_reaches_another_browser(task: TaskView, w: World)
    requires
        well_placed(task),
        crosses(task),
        w.hand.fault is None,
        finished(task, w).hand.fault is None,
    ensures
        task matches TaskView::Move { source, target, from, to, to_table } && ({
            let (left, mint, out) = edit::taken(w.stores[source], from, w.hand.mint);
            &&& out matches Ok(n)
            &&& finished(task, w).stores == w.stores.insert(source, left).insert(
                target,
                edit::moved_in(w.stores[target], to, n, mint, to_table).doc,
            )
        }),
{
    let source = task->Move_source;
    let target = task->Move_target;
    let steps = crossing_steps(source as usize, target as usize);
    let f = worker(task);
    assert(steps_of(task) =~= steps);
    assert(finished(task, w) == after_steps(f, steps, 8, w));
    lemma_crossing_saves(source as usize, target as usize, f, w);
    lemma_move_steps(task, w.stores[source], w.stores[target], w.hand);
}

/// What the steps of a move do that do not fail.
proof fn lemma_move_steps(task: TaskView, source: Json, target: Json, hand: Hand)
    requires
        task is Move,
        worker(task)(Step::Take, Hand { doc: source, ..hand }).fault is None,
    ensures
        ({
            let (left, mint, out) = edit::taken(source, task->Move_from, hand.mint);
            let taken = worker(task)(Step::Take, Hand { doc: source, ..hand });
            let put = worker(task)(Step::Put, Hand { doc: target, ..taken });
            &&& out is Ok
            &&& taken.doc == left
            &&& put.doc == edit::moved_in(
                target,
                task->Move_to,
                out->Ok_0,
                mint,
                task->Move_to_table,
            ).doc
        }),
{
}

/// What a move to another browser that succeeds writes, whatever its steps do on what is in hand.
proof fn lemma_crossing_saves(
    source: usize,
    target: usize,
    f: spec_fn(Step, Hand) -> Hand,
    w: World,
)
    requires
        source != target,
        w.hand.fault is None,
        after_steps(f, crossing_steps(source, target), 8, w).hand.fault is None,
    ensures
        ({
            let taken = f(Step::Take, Hand { doc: w.stores[source as int], ..w.hand });
            let put = f(Step::Put, Hand { doc: w.stores[target as int], ..taken });
            &&& taken.fault is None
            &&& put.fault is None
            &&& after_steps(f, crossing_steps(source, target), 8, w).stores == w.stores.insert(
                source as int,
                taken.doc,
            ).insert(target as int, put.doc)
        }),
{
    reveal_with_fuel(after_steps, 9);
}

/// A copy enters the file of the browser that it is for, and no other file changes.
pub proof fn law_copy_is_saved(task: TaskView, w: World)
    requires
        well_placed(task),
        task is Copy,
        w.hand.fault is None,
        finished(task, w).hand.fault is None,
    ensures
        task matches TaskView::Copy { source, target, from, to, to_table, .. } && ({
            &&& tree::navigated(w.stores[source], from) matches Some(n)
            &&& finished(task, w).stores == w.stores.insert(
                target,
                edit::copied_in(w.stores[target], to, n, w.hand.mint, to_table).doc,
            )
        }),
{
    let source = task->Copy_source;
    let target = task->Copy_target;
    lemma_copy_saves(task, steps_of(task), worker(task), w);
    let picked = performed(task, Step::Pick, Hand { doc: w.stores[source], ..w.hand });
    let put = performed(task, Step::Put, Hand { doc: w.stores[target], ..picked });
    assert(worker(task)(Step::Pick, Hand { doc: w.stores[source], ..w.hand }) == picked);
    assert(worker(task)(Step::Put, Hand { doc: w.stores[target], ..picked }) == put);
    assert(source == target ==> Hand { doc: w.stores[target], ..picked } == picked);
}

/// What a copy that succeeds writes, whatever its steps do on what is in hand.
proof fn lemma_copy_saves(
    task: TaskView,
    steps: Seq<Step>,
    f: spec_fn(Step, Hand) -> Hand,
    w: World,
)
    requires
        well_placed(task),
        task is Copy,
        steps == steps_of(task),
        w.hand.fault is None,
        after_steps(f, steps, steps.len() as int, w).hand.fault is None,
    ensures
        ({
            let source = task->Copy_source;
            let target = task->Copy_target;
            let picked = f(Step::Pick, Hand { doc: w.stores[source], ..w.hand });
            let ready = if source == target {
                picked
            } else {
                Hand { doc: w.stores[target], ..picked }
            };
            &&& picked.fault is None
            &&& f(Step::Put, ready).fault is None
            &&& after_steps(f, steps, steps.len() as int, w).stores == w.stores.insert(
                target,
                f(Step::Put, ready).doc,
            )
        }),
{
    reveal_with_fuel(after_steps, 7);
}

/// When the move of a node to another browser fails, no file has changed but that which the node
/// was to leave.
pub proof fn law_failed_move_keeps_the_target(task: TaskView, w: World)
    requires
        well_placed(task),
        crosses(task),
        w.hand.fault is None,
        finished(task, w).hand.fault is Some,
    ensures
        finished(task, w).stores == w.stores || exists|doc: Json|
            finished(task, w).stores == #[trigger] w.stores.insert(task->Move_source, doc),
{
    let steps = crossing_steps(task->Move_source as usize, task->Move_target as usize);
    assert(steps_of(task) =~= steps);
    lemma_crossing_run(task->Move_source as usize, task->Move_target as usize, worker(task), w);
}

/// A change to one profile leaves in its file what the edit makes of what was there.
pub proof fn law_edit_is_what_is_saved(task: TaskView, w: World)
    requires
        well_placed(task),
        steps_of(task) == edit_steps(written_last(task)),
        w.hand.fault is None,
        finished(task, w).hand.fault is None,
    ensures
        finished(task, w).stores == w.stores.insert(
            written_last(task),
            performed(
                task,
                Step::Edit,
                Hand { doc: w.stores[written_last(task)], ..w.hand },
            ).doc,
        ),
{
    lemma_course_run(task, steps_of(task), worker(task), w);
}

/// Two profiles that are found by name are the same one if and only if their names are the same
/// up to the case of ASCII letters.
pub proof fn law_same_name_same_profile(config: Config, a: Seq<char>, b: Seq<char>)
    requires
        config::profile_index(config, a) is Some,
        config::profile_index(config, b) is Some,
    ensures
        ({
            let all = config::profiles_of(config.profiles@);
            let i = config::profile_index(config, a)->0;
            let j = config::profile_index(config, b)->0;
            i == j <==> text::same_ignoring_case(all[i].name, all[j].name)
        }),
{
    let all = config::profiles_of(config.profiles@);
    text::lemma_first_index(all, config::has_name(a));
    text::lemma_first_index(all, config::has_name(b));
    let i = config::profile_index(config, a)->0;
    let j = config::profile_index(config, b)->0;
    assert(config::has_name(a)(all[i]));
    assert(config::has_name(b)(all[j]));
    if text::same_ignoring_case(all[i].name, all[j].name) {
        assert(config::has_name(a)(all[j]));
        assert(config::has_name(b)(all[i]));
    }
}

/// History is read only: no task that takes, puts, makes or renames reaches into it.
pub proof fn law_history_is_never_edited(task: TaskView, hand: Hand)
    requires
        match task {
            TaskView::Delete { folder, .. } => folder.len() > 0 && tree::names_history(folder[0]),
            TaskView::RemoveFolder { path, .. } => path.len() > 1 && tree::names_history(path[0]),
            TaskView::MakeFolder { parents, .. } => {
                parents.len() > 0 && tree::names_history(parents[0])
            },
            TaskView::Rename { path, .. } => path.len() > 1 && tree::names_history(path[0]),
            TaskView::Move { from, .. } => from.len() > 1 && tree::names_history(from[0]),
            TaskView::Copy { .. } => false,
        },
    ensures
        performed(task, Step::Edit, hand).doc == hand.doc,
        performed(task, Step::Edit, hand).fault is Some,
        performed(task, Step::Take, hand).doc == hand.doc,
{
    match task {
        TaskView::RemoveFolder { path, .. } => {
            edit::law_history_is_out_of_reach(hand.doc, path[0]);
            edit::lemma_history_needs_nothing(hand.doc, path[0], hand.mint);
        },
        TaskView::Rename { path, .. } => {
            edit::law_history_is_out_of_reach(hand.doc, path[0]);
            edit::lemma_history_needs_nothing(hand.doc, path[0], hand.mint);
        },
        TaskView::Move { from, .. } => {
            edit::law_history_is_out_of_reach(hand.doc, from[0]);
            edit::lemma_history_needs_nothing(hand.doc, from[0], hand.mint);
        },
        _ => {},
    }
}

/// Nothing is put into the history: a node that is to go there is refused.
pub proof fn law_nothing_enters_the_history(doc: Json, dest: Seq<Seq<char>>, n: Json, mint: MintState)
    requires
        dest.len() > 0,
        tree::names_history(dest[0]),
    ensures
        edit::inserted(doc, dest, n, mint).doc == doc,
        edit::inserted(doc, dest, n, mint).fault is Some,
{
    let to = edit::destination(doc, dest);
    assert(to[0] == dest[0]);
    edit::law_history_is_out_of_reach(doc, to[0]);
    edit::lemma_history_needs_nothing(doc, to[0], mint);
}

/// The edit that a task on one profile asks for.
pub open spec fn asked_edit(task: TaskView, doc: Json, mint: MintState) -> edit::Edited {
    match task {
        TaskView::Delete { folder, items, .. } => edit::deleted_all(doc, folder, items, mint),
        TaskView::RemoveFolder { path, .. } => edit::deleted(doc, path, mint),
        TaskView::MakeFolder { parents, name, written, .. } => edit::made(
            doc,
            parents,
            name,
            written,
            mint,
        ),
        TaskView::Rename { path, name, .. } => edit::renamed(doc, path, name, mint),
        TaskView::Move { from, to, .. } => edit::moved_within(doc, from, to, mint),
        TaskView::Copy { .. } => edit::Edited { doc, mint, fault: None },
    }
}

/// A task on one profile does to the bookmarks of that profile what it is named for: it deletes,
/// removes, makes, renames or moves what it says, saves the outcome there, and changes no other
/// file; it fails exactly if that edit fails, and changes no file then.
pub proof fn law_task_does_what_it_says(task: TaskView, w: World, profile: int)
    requires
        well_placed(task),
        !crosses(task),
        w.hand.fault is None,
        match task {
            TaskView::Delete { profile: p, .. } => p == profile,
            TaskView::RemoveFolder { profile: p, .. } => p == profile,
            TaskView::MakeFolder { profile: p, .. } => p == profile,
            TaskView::Rename { profile: p, .. } => p == profile,
            TaskView::Move { source: p, target: q, .. } => p == profile && q == profile,
            TaskView::Copy { .. } => false,
        },
    ensures
        ({
            let e = asked_edit(task, w.stores[profile], w.hand.mint);
            let end = finished(task, w);
            &&& end.hand.fault == e.fault
            &&& e.fault is None ==> end.stores == w.stores.insert(profile, e.doc)
            &&& e.fault is Some ==> end.stores == w.stores
        }),
{
    lemma_course(task);
    assert(steps_of(task) == edit_steps(profile));
    lemma_course_run(task, steps_of(task), worker(task), w);
    let hand = Hand { doc: w.stores[profile], ..w.hand };
    lemma_edit_step(task, hand);
}

/// What the step of a task on one profile does.
proof fn lemma_edit_step(task: TaskView, hand: Hand)
    requires
        !(task is Copy),
    ensures
        ({
            let e = asked_edit(task, hand.doc, hand.mint);
            let after = worker(task)(Step::Edit, hand);
            after.doc == e.doc && after.fault == e.fault
        }),
{
}

} // verus!
