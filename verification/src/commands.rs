//! The pure core of the command handlers: everything the commands decide or
//! compute, with the file reads and writes left to the caller.

use vstd::prelude::*;

use crate::json;
use crate::todo::{self, TaskView, TodoList, TODO};
use crate::TodoError;

verus! {

/// The `add` command on the contents of the backing file (`None` when the
/// file does not yet exist): parses the current list, or starts an empty one,
/// appends the new task, and yields the exact text to write back.
pub fn add(contents: Option<&str>, title: String, description: String) -> (r: Result<
    String,
    TodoError,
>)
    ensures
        match r {
            Ok(out) => match contents {
                Some(s) => json::spec_parse(s@) matches Some(ts) && out@ == json::render_tasks(
                    todo::spec_add(ts, title@, description@),
                ),
                None => out@ == json::render_tasks(
                    todo::spec_add(Seq::<TaskView>::empty(), title@, description@),
                ),
            },
            Err(e) => e == TodoError::ParseError && (match contents {
                Some(s) => json::spec_parse(s@) is None,
                None => false,
            }),
        },
{
    let mut list = match contents {
        Some(s) => match TodoList::from_json(s) {
            Ok(l) => l,
            Err(e) => {
                return Err(e);
            },
        },
        None => TodoList::new(),
    };
    list.add(title, description);
    Ok(list.to_json())
}

/// The `remove` command on the contents of the backing file: the removed
/// task and the exact text to write back, or the report that no task has the
/// id, in which case nothing is to be written.
pub fn remove(contents: &str, id: u32) -> (r: Result<Option<(TODO, String)>, TodoError>)
    ensures
        match r {
            Ok(Some((t, out))) => (json::spec_parse(contents@) matches Some(ts) && todo::find_index(
                ts,
                id,
            ) >= 0 && t@ == ts[todo::find_index(ts, id)] && out@ == json::render_tasks(
                ts.remove(todo::find_index(ts, id)),
            )),
            Ok(None) => (json::spec_parse(contents@) matches Some(ts) && todo::find_index(ts, id)
                == -1),
            Err(e) => e == TodoError::ParseError && json::spec_parse(contents@) is None,
        },
{
    let mut list = match TodoList::from_json(contents) {
        Ok(l) => l,
        Err(e) => {
            return Err(e);
        },
    };
    match list.remove(id) {
        Some(t) => {
            let out = list.to_json();
            Ok(Some((t, out)))
        },
        None => Ok(None),
    }
}

/// The `done` command on the contents of the backing file: the updated task
/// and the exact text to write back, or the report that no task has the id,
/// in which case nothing is to be written.
pub fn done(contents: &str, id: u32) -> (r: Result<Option<(TODO, String)>, TodoError>)
    ensures
        match r {
            Ok(Some((t, out))) => (json::spec_parse(contents@) matches Some(ts) && todo::find_index(
                ts,
                id,
            ) >= 0 && t@ == todo::spec_mark(ts, id, true)[todo::find_index(ts, id)] && out@
                == json::render_tasks(todo::spec_mark(ts, id, true))),
            Ok(None) => (json::spec_parse(contents@) matches Some(ts) && todo::find_index(ts, id)
                == -1),
            Err(e) => e == TodoError::ParseError && json::spec_parse(contents@) is None,
        },
{
    let mut list = match TodoList::from_json(contents) {
        Ok(l) => l,
        Err(e) => {
            return Err(e);
        },
    };
    let updated = match list.mark_done(id) {
        Some(t) => Some(
            TODO {
                id: t.id,
                title: t.title.clone(),
                description: t.description.clone(),
                done: t.done,
            },
        ),
        None => None,
    };
    match updated {
        Some(t) => {
            let out = list.to_json();
            Ok(Some((t, out)))
        },
        None => Ok(None),
    }
}

/// The `undone` command on the contents of the backing file: the updated
/// task and the exact text to write back, or the report that no task has the
/// id, in which case nothing is to be written.
pub fn undone(contents: &str, id: u32) -> (r: Result<Option<(TODO, String)>, TodoError>)
    ensures
        match r {
            Ok(Some((t, out))) => (json::spec_parse(contents@) matches Some(ts) && todo::find_index(
                ts,
                id,
            ) >= 0 && t@ == todo::spec_mark(ts, id, false)[todo::find_index(ts, id)] && out@
                == json::render_tasks(todo::spec_mark(ts, id, false))),
            Ok(None) => (json::spec_parse(contents@) matches Some(ts) && todo::find_index(ts, id)
                == -1),
            Err(e) => e == TodoError::ParseError && json::spec_parse(contents@) is None,
        },
{
    let mut list = match TodoList::from_json(contents) {
        Ok(l) => l,
        Err(e) => {
            return Err(e);
        },
    };
    let updated = match list.mark_undone(id) {
        Some(t) => Some(
            TODO {
                id: t.id,
                title: t.title.clone(),
                description: t.description.clone(),
                done: t.done,
            },
        ),
        None => None,
    };
    match updated {
        Some(t) => {
            let out = list.to_json();
            Ok(Some((t, out)))
        },
        None => Ok(None),
    }
}

} // verus!
