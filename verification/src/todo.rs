//! The in-memory task store: an ordered sequence of task records with
//! count-based id assignment, lookup by id, removal, and done-flag toggling.

use vstd::prelude::*;

use crate::json;
use crate::TodoError;

verus! {

/// Mathematical model of one task record.
pub ghost struct TaskView {
    pub id: u32,
    pub title: Seq<char>,
    pub description: Seq<char>,
    pub done: bool,
}

/// One task record: an id assigned at creation, free-form title and
/// description, and a completion flag that starts out false.
#[derive(Debug)]
pub struct TODO {
    pub id: u32,
    pub title: String,
    pub description: String,
    pub done: bool,
}

impl View for TODO {
    type V = TaskView;

    open spec fn view(&self) -> TaskView {
        TaskView {
            id: self.id,
            title: self.title@,
            description: self.description@,
            done: self.done,
        }
    }
}

/// An ordered collection of task records, insertion order preserved.
#[derive(Debug)]
pub struct TodoList {
    list: Vec<TODO>,
}

/// The models of a sequence of task records, in order.
pub open spec fn views_of(l: Seq<TODO>) -> Seq<TaskView> {
    Seq::new(l.len(), |i: int| l[i]@)
}

impl View for TodoList {
    type V = Seq<TaskView>;

    closed spec fn view(&self) -> Seq<TaskView> {
        views_of(self.list@)
    }
}

/// Position of the first task at or after `i` whose id is `id`, or -1.
pub open spec fn find_from(s: Seq<TaskView>, id: u32, i: int) -> int
    decreases s.len() - i,
{
    if i < 0 || i >= s.len() {
        -1
    } else if s[i].id == id {
        i
    } else {
        find_from(s, id, i + 1)
    }
}

/// Position of the first task in `s` whose id is `id`, or -1 if none.
pub open spec fn find_index(s: Seq<TaskView>, id: u32) -> int {
    find_from(s, id, 0)
}

/// The task appended by `add`: its id is the count of tasks already stored.
pub open spec fn spec_add(s: Seq<TaskView>, title: Seq<char>, description: Seq<char>) -> Seq<
    TaskView,
> {
    s.push(TaskView { id: s.len() as u32, title, description, done: false })
}

/// The store after setting the done flag of the first task with id `id`;
/// the store unchanged if no task has that id.
pub open spec fn spec_mark(s: Seq<TaskView>, id: u32, done: bool) -> Seq<TaskView> {
    let i = find_index(s, id);
    if i >= 0 {
        s.update(i, TaskView { done, ..s[i] })
    } else {
        s
    }
}

proof fn lemma_find_from_props(s: Seq<TaskView>, id: u32, i: int)
    requires
        0 <= i <= s.len(),
    ensures
        find_from(s, id, i) == -1 || i <= find_from(s, id, i) < s.len(),
        find_from(s, id, i) == -1 ==> forall|j: int| i <= j < s.len() ==> s[j].id != id,
        find_from(s, id, i) >= 0 ==> i <= find_from(s, id, i) < s.len() && s[find_from(
            s,
            id,
            i,
        )].id == id,
        find_from(s, id, i) >= 0 ==> forall|j: int| i <= j < find_from(s, id, i) ==> s[j].id != id,
    decreases s.len() - i,
{
    if i < s.len() && s[i].id != id {
        lemma_find_from_props(s, id, i + 1);
    }
}

/// The first task found under an id carries that id; a result of -1 means no
/// task in the store carries it; every earlier task carries another id.
pub proof fn lemma_find_characterizes(s: Seq<TaskView>, id: u32)
    ensures
        find_index(s, id) == -1 || 0 <= find_index(s, id) < s.len(),
        find_index(s, id) == -1 <==> forall|j: int| 0 <= j < s.len() ==> s[j].id != id,
        find_index(s, id) >= 0 ==> 0 <= find_index(s, id) < s.len() && s[find_index(s, id)].id
            == id,
        find_index(s, id) >= 0 ==> forall|j: int| 0 <= j < find_index(s, id) ==> s[j].id != id,
{
    lemma_find_from_props(s, id, 0);
}

impl TodoList {
    /// A store with zero tasks.
    pub fn new() -> (r: TodoList)
        ensures
            r@ == Seq::<TaskView>::empty(),
    {
        let r = TodoList { list: Vec::new() };
        proof {
            assert(r@ =~= Seq::<TaskView>::empty());
        }
        r
    }

    /// Appends a new task whose id is the current task count (truncated to
    /// 32 bits, as [`spec_add`] states, in the unreachable case of more than
    /// four billion tasks) and whose done flag is false. Always succeeds; the
    /// store grows by one. After a removal the count can equal an id still in
    /// use, so a later task may repeat an id; lookups then act on the first
    /// match.
    pub fn add(&mut self, title: String, description: String)
        ensures
            final(self)@ == spec_add(old(self)@, title@, description@),
    {
        let id = self.list.len() as u32;
        let todo = TODO { id, title, description, done: false };
        self.list.push(todo);
        proof {
            assert(self@ =~= spec_add(old(self)@, todo@.title, todo@.description));
        }
    }

    /// Index of the first task with the given id, if any. The store is not
    /// changed.
    fn position_of(&self, id: u32) -> (r: Option<usize>)
        ensures
            match r {
                Some(i) => i == find_index(self@, id),
                None => find_index(self@, id) == -1,
            },
    {
        let n = self.list.len();
        let mut i: usize = 0;
        while i < n
            invariant
                0 <= i <= n == self@.len(),
                find_index(self@, id) == find_from(self@, id, i as int),
            decreases n - i,
        {
            if self.list[i].id == id {
                return Some(i);
            }
            i = i + 1;
        }
        None
    }

    /// The first task (in sequence order) whose id matches, or none. The
    /// returned task always carries the requested id.
    pub fn get(&self, id: u32) -> (r: Option<&TODO>)
        ensures
            match r {
                Some(t) => find_index(self@, id) >= 0 && t@ == self@[find_index(self@, id)]
                    && t@.id == id,
                None => find_index(self@, id) == -1,
            },
    {
        proof {
            lemma_find_characterizes(self@, id);
        }
        match self.position_of(id) {
            Some(i) => Some(&self.list[i]),
            None => None,
        }
    }

    /// Same lookup as `get`, but yields a mutable handle, through which the
    /// caller may rewrite the fields of that one task.
    pub fn get_mut(&mut self, id: u32) -> (r: Option<&mut TODO>)
        ensures
            match r {
                Some(t) => {
                    let i = find_index(old(self)@, id);
                    &&& i >= 0
                    &&& (*t)@ == old(self)@[i]
                    &&& (*t)@.id == id
                    &&& final(self)@ =~= old(self)@.update(i, final(t)@)
                },
                None => find_index(old(self)@, id) == -1 && final(self)@ == old(self)@,
            },
    {
        proof {
            lemma_find_characterizes(self@, id);
        }
        match self.position_of(id) {
            Some(i) => Some(&mut self.list[i]),
            None => None,
        }
    }

    /// The full ordered sequence of tasks, read-only, in store order.
    pub fn get_all(&self) -> (r: &Vec<TODO>)
        ensures
            r@.len() == self@.len(),
            forall|i: int| 0 <= i < r@.len() ==> r@[i]@ == self@[i],
    {
        &self.list
    }

    /// Removes the first task with the given id and returns it; later tasks
    /// shift left by one and keep their ids. Returns none, with the store
    /// unchanged, if no task has that id.
    pub fn remove(&mut self, id: u32) -> (r: Option<TODO>)
        ensures
            match r {
                Some(t) => {
                    let i = find_index(old(self)@, id);
                    &&& i >= 0
                    &&& t@ == old(self)@[i]
                    &&& t@.id == id
                    &&& final(self)@ == old(self)@.remove(i)
                },
                None => find_index(old(self)@, id) == -1 && final(self)@ == old(self)@,
            },
    {
        proof {
            lemma_find_characterizes(self@, id);
        }
        match self.position_of(id) {
            Some(i) => {
                let t = self.list.remove(i);
                proof {
                    assert(self@ =~= old(self)@.remove(find_index(old(self)@, id)));
                }
                Some(t)
            },
            None => None,
        }
    }

    /// Sets the done flag of the first task with the given id to `done` and
    /// returns a reference to the updated task, or none if no task matches.
    fn set_done(&mut self, id: u32, done: bool) -> (r: Option<&TODO>)
        ensures
            final(self)@ == spec_mark(old(self)@, id, done),
            match r {
                Some(t) => find_index(old(self)@, id) >= 0 && t@ == final(self)@[find_index(
                    old(self)@,
                    id,
                )],
                None => find_index(old(self)@, id) == -1,
            },
    {
        proof {
            lemma_find_characterizes(self@, id);
        }
        match self.position_of(id) {
            Some(i) => {
                let t = &mut self.list[i];
                t.done = done;
                proof {
                    let j = find_index(old(self)@, id);
                    assert(self@ =~= old(self)@.update(j, TaskView { done, ..old(self)@[j] }));
                }
                Some(&self.list[i])
            },
            None => None,
        }
    }

    /// Sets `done` to true on the task with the given id, or reports that no
    /// task matches.
    pub fn mark_done(&mut self, id: u32) -> (r: Option<&TODO>)
        ensures
            final(self)@ == spec_mark(old(self)@, id, true),
            match r {
                Some(t) => find_index(old(self)@, id) >= 0 && t@ == final(self)@[find_index(
                    old(self)@,
                    id,
                )],
                None => find_index(old(self)@, id) == -1,
            },
    {
        self.set_done(id, true)
    }

    /// Sets `done` to false on the task with the given id, or reports that no
    /// task matches.
    pub fn mark_undone(&mut self, id: u32) -> (r: Option<&TODO>)
        ensures
            final(self)@ == spec_mark(old(self)@, id, false),
            match r {
                Some(t) => find_index(old(self)@, id) >= 0 && t@ == final(self)@[find_index(
                    old(self)@,
                    id,
                )],
                None => find_index(old(self)@, id) == -1,
            },
    {
        self.set_done(id, false)
    }

    /// Serializes the task sequence as a JSON array, fields in the order id,
    /// title, description, done, exactly as [`json::render_tasks`] states.
    pub fn to_json(&self) -> (r: String)
        ensures
            r@ == json::render_tasks(self@),
    {
        json::render_tasks_exec(&self.list)
    }

    /// Parses the full contents of a saved file as a JSON array of task
    /// records, as [`json::spec_parse`] states; any failure aborts the whole
    /// load with a parse error and produces no store.
    pub fn from_json(s: &str) -> (r: Result<TodoList, TodoError>)
        ensures
            match r {
                Ok(list) => json::spec_parse(s@) == Some(list@),
                Err(e) => json::spec_parse(s@) is None && e == TodoError::ParseError,
            },
    {
        match json::parse_tasks_exec(s) {
            Some(list) => Ok(TodoList { list }),
            None => Err(TodoError::ParseError),
        }
    }
}

/// Marking a task done and then undone leaves the store exactly as marking it
/// undone alone would: every task other than the matched one is untouched, and
/// the matched task keeps its id, title and description while its done flag
/// ends false.
pub proof fn lemma_mark_done_then_undone(s: Seq<TaskView>, id: u32)
    ensures
        spec_mark(spec_mark(s, id, true), id, false) == spec_mark(s, id, false),
        find_index(s, id) >= 0 ==> {
            let i = find_index(s, id);
            let r = spec_mark(spec_mark(s, id, true), id, false);
            &&& r.len() == s.len()
            &&& (forall|j: int| 0 <= j < s.len() && j != i ==> r[j] == s[j])
            &&& r[i].id == s[i].id
            &&& r[i].title == s[i].title
            &&& r[i].description == s[i].description
            &&& r[i].done == false
        },
{
    let i = find_index(s, id);
    lemma_find_characterizes(s, id);
    if i >= 0 {
        let s1 = spec_mark(s, id, true);
        lemma_mark_preserves_find(s, id, true);
        assert(find_index(s1, id) == i);
        lemma_find_characterizes(s1, id);
        assert(spec_mark(s1, id, false) =~= spec_mark(s, id, false));
    }
}

/// Setting the done flag changes no id, so the first position holding an id
/// is the same before and after.
pub proof fn lemma_mark_preserves_find(s: Seq<TaskView>, id: u32, done: bool)
    ensures
        forall|q: u32| find_index(spec_mark(s, id, done), q) == #[trigger] find_index(s, q),
{
    let i = find_index(s, id);
    lemma_find_characterizes(s, id);
    if i >= 0 {
        let s1 = spec_mark(s, id, done);
        assert forall|q: u32| find_index(s1, q) == find_index(s, q) by {
            lemma_find_from_ids(s, s1, q, 0);
        }
    }
}

proof fn lemma_find_from_ids(s: Seq<TaskView>, t: Seq<TaskView>, id: u32, i: int)
    requires
        s.len() == t.len(),
        forall|j: int| 0 <= j < s.len() ==> s[j].id == t[j].id,
    ensures
        find_from(s, id, i) == find_from(t, id, i),
    decreases s.len() - i,
{
    if 0 <= i < s.len() && s[i].id != id {
        lemma_find_from_ids(s, t, id, i + 1);
    }
}

/// Ids are assigned sequentially by count: the task appended by `add` carries
/// an id equal to the number of tasks already stored, so a fresh store hands
/// out 0, 1, 2, ... in creation order.
pub proof fn lemma_add_assigns_count_id(s: Seq<TaskView>, title: Seq<char>, description: Seq<char>)
    requires
        s.len() <= u32::MAX,
    ensures
        spec_add(s, title, description).len() == s.len() + 1,
        spec_add(s, title, description)[s.len() as int] == (TaskView {
            id: s.len() as u32,
            title,
            description,
            done: false,
        }),
        forall|j: int| 0 <= j < s.len() ==> spec_add(s, title, description)[j] == s[j],
{
}

} // verus!

