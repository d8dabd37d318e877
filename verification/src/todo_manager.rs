//! The task manager: sole owner of an ordered task sequence and the id
//! counter, and the only authority over identifier assignment. Every query
//! and mutation on tasks goes through it.
//!
//! By-id operations use first-match semantics: they affect the first task in
//! sequence order whose id matches, and fail with
//! [`TodoError::NotFound`] when none does.

use vstd::prelude::*;

use crate::todo::{TaskModel, Todo, TodoStatus};
use crate::TodoError;

verus! {

/// Mathematical model of a manager: the last-assigned id and the task
/// sequence in insertion order.
#[verifier::ext_equal]
pub ghost struct ManagerModel {
    pub counter: nat,
    pub tasks: Seq<TaskModel>,
}

/// The model of a manager that holds no tasks and has assigned no id yet.
pub open spec fn empty_manager() -> ManagerModel {
    ManagerModel { counter: 0, tasks: Seq::empty() }
}

/// Whether some task in `tasks` carries `id`.
pub open spec fn has_task(tasks: Seq<TaskModel>, id: nat) -> bool {
    exists|i: int| 0 <= i < tasks.len() && tasks[i].id == id
}

/// Index of the first task in `tasks` carrying `id`, or -1 if there is none.
pub open spec fn first_idx_of(tasks: Seq<TaskModel>, id: nat) -> int
    decreases tasks.len(),
{
    if tasks.len() == 0 {
        -1
    } else if tasks[0].id == id {
        0
    } else {
        let rest = first_idx_of(tasks.skip(1), id);
        if rest == -1 {
            -1
        } else {
            rest + 1
        }
    }
}

/// The subsequence of `tasks`, in order, whose status equals `status`.
pub open spec fn by_status(tasks: Seq<TaskModel>, status: TodoStatus) -> Seq<TaskModel>
    decreases tasks.len(),
{
    if tasks.len() == 0 {
        Seq::empty()
    } else {
        let rest = by_status(tasks.drop_last(), status);
        if tasks.last().status == status {
            rest.push(tasks.last())
        } else {
            rest
        }
    }
}

/// The largest id occurring in `tasks`, or 0 if `tasks` is empty.
pub open spec fn max_task_id(tasks: Seq<TaskModel>) -> nat
    decreases tasks.len(),
{
    if tasks.len() == 0 {
        0
    } else {
        let rest = max_task_id(tasks.drop_last());
        if tasks.last().id > rest {
            tasks.last().id
        } else {
            rest
        }
    }
}

/// One `add` step on the model: the counter grows by one and a fresh `Open`
/// task with the new counter value is appended.
pub open spec fn spec_add(m: ManagerModel, content: Seq<char>) -> ManagerModel {
    ManagerModel {
        counter: m.counter + 1,
        tasks: m.tasks.push(
            TaskModel { id: m.counter + 1, content, status: TodoStatus::Open },
        ),
    }
}

/// The model reached from `m` by adding each element of `contents` in turn.
pub open spec fn run_adds(m: ManagerModel, contents: Seq<Seq<char>>) -> ManagerModel
    decreases contents.len(),
{
    if contents.len() == 0 {
        m
    } else {
        run_adds(spec_add(m, contents[0]), contents.skip(1))
    }
}

/// Characterization of `first_idx_of`: it is -1 exactly when no task carries
/// the id, and otherwise points at the first match.
pub proof fn lemma_first_idx_of(tasks: Seq<TaskModel>, id: nat)
    ensures
        (first_idx_of(tasks, id) == -1) <==> !has_task(tasks, id),
        first_idx_of(tasks, id) != -1 ==> {
            let k = first_idx_of(tasks, id);
            &&& 0 <= k < tasks.len()
            &&& tasks[k].id == id
            &&& forall|j: int| 0 <= j < k ==> tasks[j].id != id
        },
    decreases tasks.len(),
{
    if tasks.len() == 0 {
    } else if tasks[0].id == id {
    } else {
        let rest = tasks.skip(1);
        lemma_first_idx_of(rest, id);
        assert(forall|i: int| 0 <= i < rest.len() ==> rest[i] == tasks[i + 1]);
        if first_idx_of(rest, id) == -1 {
            assert(!has_task(tasks, id)) by {
                if has_task(tasks, id) {
                    let i = choose|i: int| 0 <= i < tasks.len() && tasks[i].id == id;
                    assert(rest[i - 1].id == id);
                }
            }
        } else {
            let k = first_idx_of(rest, id);
            assert(tasks[k + 1].id == id);
            assert(forall|j: int| 1 <= j < k + 1 ==> tasks[j] == rest[j - 1] && tasks[j].id != id);
        }
    }
}

/// Every id in `tasks` is bounded by `max_task_id(tasks)`.
pub proof fn lemma_max_task_id_ge(tasks: Seq<TaskModel>)
    ensures
        forall|i: int| 0 <= i < tasks.len() ==> tasks[i].id <= max_task_id(tasks),
    decreases tasks.len(),
{
    if tasks.len() > 0 {
        lemma_max_task_id_ge(tasks.drop_last());
        assert(forall|i: int|
            0 <= i < tasks.len() - 1 ==> tasks[i] == tasks.drop_last()[i]);
    }
}

/// A manager over a collection of short textual tasks.
pub struct TodoManager {
    id_counter: usize,
    todos: Vec<Todo>,
}

impl View for TodoManager {
    type V = ManagerModel;

    closed spec fn view(&self) -> ManagerModel {
        ManagerModel {
            counter: self.id_counter as nat,
            tasks: self.todos@.map_values(|t: Todo| t@),
        }
    }
}

impl Default for TodoManager {
    /// An empty manager: no tasks, counter 0.
    fn default() -> (r: Self)
        ensures
            r@ == empty_manager(),
            r.wf(),
    {
        let r = TodoManager { id_counter: 0, todos: Vec::new() };
        proof {
            assert(r@ =~= empty_manager());
        }
        r
    }
}

impl TodoManager {
    /// Well-formedness: the counter bounds every id in the collection, so a
    /// freshly assigned id can never collide with a stored one.
    pub open spec fn wf(&self) -> bool {
        forall|i: int| 0 <= i < self@.tasks.len() ==> self@.tasks[i].id <= self@.counter
    }

    /// Adopts `todos` verbatim; the counter becomes the largest id present,
    /// or 0 if `todos` is empty.
    pub fn new(todos: Vec<Todo>) -> (r: Self)
        ensures
            r@.tasks == todos@.map_values(|t: Todo| t@),
            r@.counter == max_task_id(todos@.map_values(|t: Todo| t@)),
            r.wf(),
    {
        let ghost models = todos@.map_values(|t: Todo| t@);
        let mut last_id: usize = 0;
        let mut i: usize = 0;
        while i < todos.len()
            invariant
                0 <= i <= todos.len(),
                models == todos@.map_values(|t: Todo| t@),
                last_id as nat == max_task_id(models.take(i as int)),
            decreases todos.len() - i,
        {
            let tid = todos[i].id();
            proof {
                assert(models.take(i + 1).drop_last() =~= models.take(i as int));
                assert(models.take(i + 1).last() == models[i as int]);
            }
            if tid > last_id {
                last_id = tid;
            }
            i += 1;
        }
        proof {
            assert(models.take(todos@.len() as int) =~= models);
        }
        let r = TodoManager { id_counter: last_id, todos };
        proof {
            lemma_max_task_id_ge(models);
        }
        r
    }

    /// The last-assigned id (the counter).
    pub fn id_counter(&self) -> (r: usize)
        ensures
            r as nat == self@.counter,
    {
        self.id_counter
    }

    /// Creates a task with the next id and the given content, appends it,
    /// and returns the new id. The counter strictly increases, so the new id
    /// was never issued before and (on a well-formed manager) collides with
    /// no stored task.
    pub fn add_todo(&mut self, content: &str) -> (r: usize)
        requires
            old(self)@.counter < usize::MAX,
        ensures
            r as nat == old(self)@.counter + 1,
            final(self)@ == spec_add(old(self)@, content@),
            old(self).wf() ==> final(self).wf(),
            old(self).wf() ==> forall|i: int|
                0 <= i < old(self)@.tasks.len() ==> old(self)@.tasks[i].id < r as nat,
    {
        self.id_counter = self.id_counter + 1;
        let todo = Todo::new(self.id_counter, content);
        self.todos.push(todo);
        proof {
            assert(self@ =~= spec_add(old(self)@, content@)) by {
                assert(self.todos@ == old(self).todos@.push(todo));
                assert(self.todos@.map_values(|t: Todo| t@)
                    =~= old(self).todos@.map_values(|t: Todo| t@).push(todo@));
            }
        }
        self.id_counter
    }

    /// Every task, in sequence order, as references.
    pub fn all_todos(&self) -> (r: Vec<&Todo>)
        ensures
            r@.len() == self@.tasks.len(),
            forall|i: int| 0 <= i < r@.len() ==> r@[i]@ == self@.tasks[i],
    {
        let mut out: Vec<&Todo> = Vec::new();
        let mut i: usize = 0;
        while i < self.todos.len()
            invariant
                0 <= i <= self.todos.len(),
                out@.len() == i as int,
                forall|j: int| 0 <= j < i as int ==> out@[j]@ == self@.tasks[j],
            decreases self.todos.len() - i,
        {
            out.push(&self.todos[i]);
            i += 1;
        }
        out
    }

    /// A reference to the first task carrying `id`, if any.
    pub fn todo_by_id(&self, id: usize) -> (r: Option<&Todo>)
        ensures
            (r is Some) <==> has_task(self@.tasks, id as nat),
            match r {
                Some(t) => {
                    let k = first_idx_of(self@.tasks, id as nat);
                    &&& k != -1
                    &&& t@ == self@.tasks[k]
                    &&& t@.id == id as nat
                },
                None => first_idx_of(self@.tasks, id as nat) == -1,
            },
    {
        proof {
            lemma_first_idx_of(self@.tasks, id as nat);
        }
        match self.position_of(id) {
            Some(i) => Some(&self.todos[i]),
            None => None,
        }
    }

    /// The tasks whose status equals `status`, in sequence order.
    pub fn todos_by_status(&self, status: TodoStatus) -> (r: Vec<&Todo>)
        ensures
            r@.map_values(|t: &Todo| t@) == by_status(self@.tasks, status),
    {
        let ghost models = self@.tasks;
        let mut out: Vec<&Todo> = Vec::new();
        let mut i: usize = 0;
        while i < self.todos.len()
            invariant
                0 <= i <= self.todos.len(),
                models == self@.tasks,
                out@.map_values(|t: &Todo| t@) == by_status(models.take(i as int), status),
            decreases self.todos.len() - i,
        {
            proof {
                assert(models.take(i + 1).drop_last() =~= models.take(i as int));
                assert(models.take(i + 1).last() == models[i as int]);
            }
            let t = &self.todos[i];
            if t.status() == status {
                out.push(t);
                proof {
                    assert(out@.map_values(|x: &Todo| x@)
                        =~= by_status(models.take(i + 1), status));
                }
            } else {
                proof {
                    assert(out@.map_values(|x: &Todo| x@)
                        =~= by_status(models.take(i + 1), status));
                }
            }
            i += 1;
        }
        proof {
            assert(models.take(models.len() as int) =~= models);
        }
        out
    }

    /// Replaces the content of the first task carrying `id`; fails with
    /// `NotFound(id)` and changes nothing when no task carries it.
    pub fn edit_todo_content(&mut self, id: usize, content: &str) -> (r: Result<(), TodoError>)
        ensures
            final(self)@.counter == old(self)@.counter,
            match r {
                Ok(()) => {
                    let k = first_idx_of(old(self)@.tasks, id as nat);
                    &&& has_task(old(self)@.tasks, id as nat)
                    &&& final(self)@.tasks == old(self)@.tasks.update(
                        k,
                        (TaskModel { content: content@, ..old(self)@.tasks[k] }),
                    )
                },
                Err(e) => {
                    &&& !has_task(old(self)@.tasks, id as nat)
                    &&& e == TodoError::NotFound(id)
                    &&& final(self)@ == old(self)@
                },
            },
            old(self).wf() ==> final(self).wf(),
    {
        proof {
            lemma_first_idx_of(old(self)@.tasks, id as nat);
        }
        match self.position_of(id) {
            Some(i) => {
                let t = &mut self.todos[i];
                t.set_content(content);
                proof {
                    let k = first_idx_of(old(self)@.tasks, id as nat);
                    assert(self.todos@.map_values(|t: Todo| t@)
                        =~= old(self)@.tasks.update(
                            k,
                            (TaskModel { content: content@, ..old(self)@.tasks[k] }),
                        ));
                }
                Ok(())
            },
            None => {
                proof {
                    assert(self@ =~= old(self)@);
                }
                Err(TodoError::NotFound(id))
            },
        }
    }

    /// Replaces the status of the first task carrying `id`; fails with
    /// `NotFound(id)` and changes nothing when no task carries it.
    pub fn change_todo_status(&mut self, id: usize, state: TodoStatus) -> (r: Result<
        (),
        TodoError,
    >)
        ensures
            final(self)@.counter == old(self)@.counter,
            match r {
                Ok(()) => {
                    let k = first_idx_of(old(self)@.tasks, id as nat);
                    &&& has_task(old(self)@.tasks, id as nat)
                    &&& final(self)@.tasks == old(self)@.tasks.update(
                        k,
                        (TaskModel { status: state, ..old(self)@.tasks[k] }),
                    )
                },
                Err(e) => {
                    &&& !has_task(old(self)@.tasks, id as nat)
                    &&& e == TodoError::NotFound(id)
                    &&& final(self)@ == old(self)@
                },
            },
            old(self).wf() ==> final(self).wf(),
    {
        proof {
            lemma_first_idx_of(old(self)@.tasks, id as nat);
        }
        match self.position_of(id) {
            Some(i) => {
                let t = &mut self.todos[i];
                t.set_status(state);
                proof {
                    let k = first_idx_of(old(self)@.tasks, id as nat);
                    assert(self.todos@.map_values(|t: Todo| t@)
                        =~= old(self)@.tasks.update(
                            k,
                            (TaskModel { status: state, ..old(self)@.tasks[k] }),
                        ));
                }
                Ok(())
            },
            None => {
                proof {
                    assert(self@ =~= old(self)@);
                }
                Err(TodoError::NotFound(id))
            },
        }
    }

    /// Removes the first task carrying `id`, keeping the relative order of
    /// the rest; fails with `NotFound(id)` and changes nothing when no task
    /// carries it.
    pub fn delete_todo(&mut self, id: usize) -> (r: Result<(), TodoError>)
        ensures
            final(self)@.counter == old(self)@.counter,
            match r {
                Ok(()) => {
                    let k = first_idx_of(old(self)@.tasks, id as nat);
                    &&& has_task(old(self)@.tasks, id as nat)
                    &&& final(self)@.tasks == old(self)@.tasks.remove(k)
                    &&& final(self)@.tasks.len() == old(self)@.tasks.len() - 1
                },
                Err(e) => {
                    &&& !has_task(old(self)@.tasks, id as nat)
                    &&& e == TodoError::NotFound(id)
                    &&& final(self)@ == old(self)@
                },
            },
            old(self).wf() ==> final(self).wf(),
    {
        proof {
            lemma_first_idx_of(old(self)@.tasks, id as nat);
        }
        match self.position_of(id) {
            Some(i) => {
                self.todos.remove(i);
                proof {
                    let k = first_idx_of(old(self)@.tasks, id as nat);
                    assert(self.todos@.map_values(|t: Todo| t@)
                        =~= old(self)@.tasks.remove(k));
                }
                Ok(())
            },
            None => {
                proof {
                    assert(self@ =~= old(self)@);
                }
                Err(TodoError::NotFound(id))
            },
        }
    }

    /// Position of the first task carrying `id`, as an index into the
    /// collection, matching `first_idx_of` on the model.
    fn position_of(&self, id: usize) -> (r: Option<usize>)
        ensures
            match r {
                Some(i) => i < self@.tasks.len() && first_idx_of(self@.tasks, id as nat)
                    == i as int,
                None => first_idx_of(self@.tasks, id as nat) == -1,
            },
    {
        proof {
            lemma_first_idx_of(self@.tasks, id as nat);
        }
        let mut i: usize = 0;
        while i < self.todos.len()
            invariant
                0 <= i <= self.todos.len(),
                forall|j: int| 0 <= j < i as int ==> self@.tasks[j].id != id as nat,
            decreases self.todos.len() - i,
        {
            if self.todos[i].id() == id {
                proof {
                    lemma_first_idx_of(self@.tasks, id as nat);
                    let k = first_idx_of(self@.tasks, id as nat);
                    assert(self@.tasks[i as int] == self.todos@[i as int]@);
                    assert(self@.tasks[i as int].id == id as nat);
                    assert(has_task(self@.tasks, id as nat));
                    assert(k != -1);
                    if k < i as int {
                        assert(self@.tasks[k].id != id as nat);
                    }
                    if k > i as int {
                        assert(self@.tasks[i as int].id != id as nat);
                    }
                }
                return Some(i);
            }
            i += 1;
        }
        proof {
            assert(!has_task(self@.tasks, id as nat));
        }
        None
    }
}

/// Law: on an empty manager no id is present, so `todo_by_id` returns
/// `None` for every id (its contract makes `Some` equivalent to
/// `has_task`), and it never fails.
pub proof fn lemma_find_on_empty(id: nat)
    ensures
        !has_task(empty_manager().tasks, id),
        first_idx_of(empty_manager().tasks, id) == -1,
{
}

/// Law: starting from an empty manager, any sequence of `add` calls returns
/// the ids 1, 2, 3, ... in order — strictly increasing from 1, with no gaps
/// and no reuse — and stores the given contents in order, all `Open`.
pub proof fn lemma_add_ids_consecutive(contents: Seq<Seq<char>>)
    ensures
        ({
            let m = run_adds(empty_manager(), contents);
            &&& m.counter == contents.len()
            &&& m.tasks.len() == contents.len()
            &&& forall|i: int|
                0 <= i < contents.len() ==> m.tasks[i] == (TaskModel {
                    id: (i + 1) as nat,
                    content: contents[i],
                    status: TodoStatus::Open,
                })
        }),
{
    lemma_run_adds(empty_manager(), contents);
}

/// Generalized induction behind [`lemma_add_ids_consecutive`]: running a
/// batch of adds appends tasks with the consecutive ids after the counter.
proof fn lemma_run_adds(m: ManagerModel, contents: Seq<Seq<char>>)
    ensures
        ({
            let r = run_adds(m, contents);
            &&& r.counter == m.counter + contents.len()
            &&& r.tasks.len() == m.tasks.len() + contents.len()
            &&& forall|i: int| 0 <= i < m.tasks.len() ==> r.tasks[i] == m.tasks[i]
            &&& forall|i: int|
                m.tasks.len() <= i < r.tasks.len() ==> r.tasks[i] == (TaskModel {
                    id: (m.counter + i - m.tasks.len() + 1) as nat,
                    content: contents[i - m.tasks.len()],
                    status: TodoStatus::Open,
                })
        }),
    decreases contents.len(),
{
    if contents.len() == 0 {
    } else {
        let m1 = spec_add(m, contents[0]);
        let rest = contents.skip(1);
        lemma_run_adds(m1, rest);
        assert(forall|i: int| 0 <= i < rest.len() ==> rest[i] == contents[i + 1]);
    }
}

} // verus!
