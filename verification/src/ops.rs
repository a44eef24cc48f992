//! The five commands over the in-memory task list, with exact contracts.
//!
//! Edit and complete touch the first task whose identifier matches and fail
//! with `TaskError::NotFound` when none does; delete removes every task with
//! the given identifier and always succeeds; add appends a fresh task whose
//! identifier is the current count plus one.

use vstd::prelude::*;
use vstd::string::{StrSliceExecFns, StringExecFns};
use crate::json::{bool_lit, dec_digits, lit_false, lit_true};
use crate::task::{Task, TaskView};

verus! {

/// One invocation's operation, as the command line names it.
pub enum Command {
    Add { description: String },
    List,
    Edit { id: u32, description: String },
    Delete { id: u32 },
    Complete { id: u32 },
}

/// The one recoverable command failure: edit or complete aimed at an
/// identifier that no task carries.
#[derive(PartialEq, Eq, Structural, Clone, Copy, Debug)]
pub enum TaskError {
    NotFound,
}

/// The views of a sequence of tasks.
pub open spec fn views(ts: Seq<Task>) -> Seq<TaskView> {
    ts.map_values(|t: Task| t@)
}

/// Whether some task in the sequence carries the identifier.
pub open spec fn contains_id(ts: Seq<TaskView>, id: nat) -> bool {
    exists|i: int| 0 <= i < ts.len() && ts[i].id == id
}

/// The index of the first task carrying the identifier, or -1.
pub open spec fn find_id(ts: Seq<TaskView>, id: nat) -> int
    decreases ts.len(),
{
    if ts.len() == 0 {
        -1
    } else if ts[0].id == id {
        0
    } else {
        let r = find_id(ts.drop_first(), id);
        if r == -1 {
            -1
        } else {
            r + 1
        }
    }
}

/// `find_id` returns the first matching index exactly when one exists.
pub proof fn lemma_find_id(ts: Seq<TaskView>, id: nat)
    ensures
        contains_id(ts, id) <==> 0 <= find_id(ts, id) < ts.len(),
        !contains_id(ts, id) ==> find_id(ts, id) == -1,
        contains_id(ts, id) ==> ts[find_id(ts, id)].id == id,
        contains_id(ts, id) ==> forall|j: int|
            0 <= j < find_id(ts, id) ==> ts[j].id != id,
    decreases ts.len(),
{
    if ts.len() != 0 && ts[0].id != id {
        let sub = ts.drop_first();
        lemma_find_id(sub, id);
        if contains_id(ts, id) {
            let w = choose|i: int| 0 <= i < ts.len() && ts[i].id == id;
            assert(sub[w - 1] == ts[w]);
            assert(contains_id(sub, id));
            assert(ts[find_id(ts, id)] == sub[find_id(sub, id)]);
            assert forall|j: int| 0 <= j < find_id(ts, id) implies ts[j].id != id by {
                if j > 0 {
                    assert(ts[j] == sub[j - 1]);
                }
            }
        }
        if contains_id(sub, id) {
            let w2 = choose|i: int| 0 <= i < sub.len() && sub[i].id == id;
            assert(ts[w2 + 1] == sub[w2]);
            assert(contains_id(ts, id));
        }
    }
}

/// Appends a fresh task: identifier is the old count plus one, not yet
/// completed, the description kept verbatim. Always succeeds.
pub fn add_task(description: String, tasks: &mut Vec<Task>)
    requires
        old(tasks)@.len() < u32::MAX,
    ensures
        views(final(tasks)@) == views(old(tasks)@).push(
            TaskView {
                id: (old(tasks)@.len() + 1) as nat,
                description: description@,
                completed: false,
            },
        ),
{
    let id = tasks.len() as u32 + 1;
    let new_task = Task { id, description, completed: false };
    let ghost prev = tasks@;
    tasks.push(new_task);
    proof {
        assert(views(tasks@) =~= views(prev).push(
            TaskView {
                id: (prev.len() + 1) as nat,
                description: new_task.description@,
                completed: false,
            },
        ));
    }
}

/// Replaces the description of the first task carrying the identifier;
/// fails with `NotFound`, leaving the list untouched, when none does.
pub fn edit_task(id: u32, description: String, tasks: &mut Vec<Task>) -> (r: Result<
    (),
    TaskError,
>)
    ensures
        r is Ok <==> contains_id(views(old(tasks)@), id as nat),
        r is Ok ==> views(final(tasks)@) == views(old(tasks)@).update(
            find_id(views(old(tasks)@), id as nat),
            TaskView {
                id: id as nat,
                description: description@,
                completed: views(old(tasks)@)[find_id(views(old(tasks)@), id as nat)].completed,
            },
        ),
        r is Err ==> final(tasks)@ == old(tasks)@ && r == Err::<(), TaskError>(
            TaskError::NotFound,
        ),
{
    let ghost vs = views(old(tasks)@);
    let n = tasks.len();
    let mut i: usize = 0;
    while i < n
        invariant
            n == tasks@.len(),
            i <= n,
            tasks@ == old(tasks)@,
            vs == views(tasks@),
            forall|j: int| 0 <= j < i ==> views(tasks@)[j].id != id as nat,
        decreases n - i,
    {
        if tasks[i].id == id {
            proof {
                lemma_find_id(vs, id as nat);
                assert(vs[i as int].id == id as nat);
                assert(find_id(vs, id as nat) == i as int) by {
                    if find_id(vs, id as nat) < i as int {
                        assert(vs[find_id(vs, id as nat)].id == id as nat);
                    }
                }
            }
            tasks[i].description = description;
            proof {
                assert(views(tasks@) =~= vs.update(
                    i as int,
                    TaskView {
                        id: id as nat,
                        description: description@,
                        completed: vs[i as int].completed,
                    },
                ));
            }
            return Ok(());
        }
        i += 1;
    }
    proof {
        lemma_find_id(vs, id as nat);
    }
    Err(TaskError::NotFound)
}

/// Removes every task carrying the identifier; succeeds even when none does.
pub fn delete_task(id: u32, tasks: &mut Vec<Task>)
    ensures
        views(final(tasks)@) == views(old(tasks)@).filter(|t: TaskView| t.id != id as nat),
{
    let n = tasks.len();
    let mut kept: Vec<Task> = Vec::new();
    let mut i: usize = 0;
    while i < n
        invariant
            n == tasks@.len(),
            i <= n,
            tasks@ == old(tasks)@,
            views(kept@) == views(tasks@.take(i as int)).filter(|t: TaskView| t.id != id as nat),
        decreases n - i,
    {
        proof {
            assert(tasks@.take(i + 1).drop_last() == tasks@.take(i as int));
            assert(tasks@.take(i + 1).last() == tasks@[i as int]);
            reveal_with_fuel(Seq::filter, 2);
            assert(views(tasks@.take(i + 1)).drop_last() =~= views(tasks@.take(i as int)));
            assert(views(tasks@.take(i + 1)).last() == tasks@[i as int]@);
        }
        let ghost prev_kept = kept@;
        if tasks[i].id != id {
            let t = Task {
                id: tasks[i].id,
                description: tasks[i].description.clone(),
                completed: tasks[i].completed,
            };
            assert(t@ == tasks@[i as int]@);
            kept.push(t);
            proof {
                assert(views(kept@) =~= views(prev_kept).push(tasks@[i as int]@));
            }
        }
        i += 1;
    }
    proof {
        assert(tasks@.take(n as int) == tasks@);
    }
    *tasks = kept;
}

/// Marks the first task carrying the identifier as completed; fails with
/// `NotFound`, leaving the list untouched, when none does.
pub fn complete_task(id: u32, tasks: &mut Vec<Task>) -> (r: Result<(), TaskError>)
    ensures
        r is Ok <==> contains_id(views(old(tasks)@), id as nat),
        r is Ok ==> views(final(tasks)@) == views(old(tasks)@).update(
            find_id(views(old(tasks)@), id as nat),
            TaskView {
                id: id as nat,
                description: views(old(tasks)@)[find_id(
                    views(old(tasks)@),
                    id as nat,
                )].description,
                completed: true,
            },
        ),
        r is Err ==> final(tasks)@ == old(tasks)@ && r == Err::<(), TaskError>(
            TaskError::NotFound,
        ),
{
    let ghost vs = views(old(tasks)@);
    let n = tasks.len();
    let mut i: usize = 0;
    while i < n
        invariant
            n == tasks@.len(),
            i <= n,
            tasks@ == old(tasks)@,
            vs == views(tasks@),
            forall|j: int| 0 <= j < i ==> views(tasks@)[j].id != id as nat,
        decreases n - i,
    {
        if tasks[i].id == id {
            proof {
                lemma_find_id(vs, id as nat);
                assert(vs[i as int].id == id as nat);
                assert(find_id(vs, id as nat) == i as int) by {
                    if find_id(vs, id as nat) < i as int {
                        assert(vs[find_id(vs, id as nat)].id == id as nat);
                    }
                }
            }
            tasks[i].completed = true;
            proof {
                assert(views(tasks@) =~= vs.update(
                    i as int,
                    TaskView {
                        id: id as nat,
                        description: vs[i as int].description,
                        completed: true,
                    },
                ));
            }
            return Ok(());
        }
        i += 1;
    }
    proof {
        lemma_find_id(vs, id as nat);
    }
    Err(TaskError::NotFound)
}

/// Applies one command to the in-memory list: the decision the dispatcher
/// takes between loading and saving. Listing never changes the list; add
/// and delete always succeed; edit and complete report `NotFound` for an
/// unknown identifier and leave the list untouched.
pub fn apply_command(cmd: Command, tasks: &mut Vec<Task>) -> (r: Result<(), TaskError>)
    requires
        old(tasks)@.len() < u32::MAX,
    ensures
        cmd is List ==> final(tasks)@ == old(tasks)@ && r is Ok,
        cmd matches Command::Add { description } ==> r is Ok && views(final(tasks)@) == views(
            old(tasks)@,
        ).push(
            TaskView {
                id: (old(tasks)@.len() + 1) as nat,
                description: description@,
                completed: false,
            },
        ),
        cmd matches Command::Delete { id } ==> r is Ok && views(final(tasks)@) == views(
            old(tasks)@,
        ).filter(|t: TaskView| t.id != id as nat),
        cmd matches Command::Edit { id, description } ==> {
            &&& (r is Ok <==> contains_id(views(old(tasks)@), id as nat))
            &&& (r is Ok ==> views(final(tasks)@) == views(old(tasks)@).update(
                find_id(views(old(tasks)@), id as nat),
                TaskView {
                    id: id as nat,
                    description: description@,
                    completed: views(old(tasks)@)[find_id(
                        views(old(tasks)@),
                        id as nat,
                    )].completed,
                },
            ))
            &&& (r is Err ==> final(tasks)@ == old(tasks)@)
        },
        cmd matches Command::Complete { id } ==> {
            &&& (r is Ok <==> contains_id(views(old(tasks)@), id as nat))
            &&& (r is Ok ==> views(final(tasks)@) == views(old(tasks)@).update(
                find_id(views(old(tasks)@), id as nat),
                TaskView {
                    id: id as nat,
                    description: views(old(tasks)@)[find_id(
                        views(old(tasks)@),
                        id as nat,
                    )].description,
                    completed: true,
                },
            ))
            &&& (r is Err ==> final(tasks)@ == old(tasks)@)
        },
        r is Err ==> r == Err::<(), TaskError>(TaskError::NotFound),
{
    match cmd {
        Command::Add { description } => {
            add_task(description, tasks);
            Ok(())
        },
        Command::List => Ok(()),
        Command::Edit { id, description } => edit_task(id, description, tasks),
        Command::Delete { id } => {
            delete_task(id, tasks);
            Ok(())
        },
        Command::Complete { id } => complete_task(id, tasks),
    }
}

/// The line the list command prints for one task.
pub open spec fn line_of(t: TaskView) -> Seq<char> {
    dec_digits(t.id) + ": "@ + t.description + " (Completed: "@ + bool_lit(t.completed) + ")"@
}

/// Renders one task as `id: description (Completed: flag)`.
pub fn render_line(t: &Task) -> (r: String)
    ensures
        r@ == line_of(t@),
{
    let mut out = String::new();
    crate::codec::push_u32(t.id, &mut out);
    out.append(": ");
    out.append(t.description.as_str());
    out.append(" (Completed: ");
    if t.completed {
        out.append("true");
    } else {
        out.append("false");
    }
    out.append(")");
    proof {
        reveal_strlit("true");
        reveal_strlit("false");
        assert("true"@ =~= lit_true());
        assert("false"@ =~= lit_false());
        assert(out@ =~= line_of(t@));
    }
    out
}

} // verus!
