//! The task store.

use crate::error::StoreError;
use crate::key::{parse_task_key, task_key, task_key_text};
use crate::model::{
    done_text, lemma_added_task_is_found, lemma_change_keeps_identifiers,
    lemma_key_names_one_slot, lemma_remove_slot, lemma_removed_key_is_unknown, lemma_task_of_slot,
    Slot, StoreModel,
};
use crate::page::{page_bounds, paginate};
use crate::task::{Task, TaskView};
use vstd::prelude::*;
use vstd::string::*;

verus! {

/// A live task and the number it was given.
#[derive(Debug)]
struct Entry {
    id: u64,
    task: Task,
}

impl Entry {
    spec fn slot(self) -> Slot {
        Slot { id: self.id as nat, task: self.task@ }
    }
}

/// A store of tasks, each known under an identifier that the store chose.
///
/// The live tasks are kept in ascending order of their numbers, which is the
/// order in which they were added. Every store that [`TaskStore::new`] makes
/// is well-formed, and every operation keeps it so.
///
/// Reading takes `&self` and changing takes `&mut self`: any number of
/// readers may look at a store at once, and a change has it to itself. Each
/// operation is complete when it returns; there is nothing that spans two.
#[derive(Debug)]
pub struct TaskStore {
    entries: Vec<Entry>,
    issued: u64,
}

impl View for TaskStore {
    type V = StoreModel;

    closed spec fn view(&self) -> StoreModel {
        StoreModel {
            issued: self.issued as nat,
            slots: self.entries@.map_values(|entry: Entry| entry.slot()),
        }
    }
}

/// The text `done.`, which reports a change as made.
fn done() -> (text: String)
    ensures
        text@ == done_text(),
{
    proof {
        reveal_strlit("done.");
    }
    let text: String = String::from_str("done.");
    assert(text@ =~= done_text());
    text
}

impl TaskStore {
    /// What well-formedness of the view says of the entries themselves.
    proof fn lemma_entries_ascend(&self)
        requires
            self@.wf(),
        ensures
            forall|i: int|
                0 <= i < self.entries.len() ==> 1 <= (#[trigger] self.entries[i]).id
                    <= self.issued,
            forall|i: int, j: int|
                0 <= i < j < self.entries.len() ==> (#[trigger] self.entries[i]).id < (
                #[trigger] self.entries[j]).id,
    {
        assert forall|i: int| 0 <= i < self.entries.len() implies 1 <= (
        #[trigger] self.entries[i]).id <= self.issued by {
            assert(self@.slots[i].id == self.entries[i].id);
        }
        assert forall|i: int, j: int| 0 <= i < j < self.entries.len() implies (
        #[trigger] self.entries[i]).id < (#[trigger] self.entries[j]).id by {
            assert(self@.slots[i].id == self.entries[i].id);
            assert(self@.slots[j].id == self.entries[j].id);
        }
    }

    /// A store without tasks, which has handed out no identifier yet.
    pub fn new() -> (store: TaskStore)
        ensures
            store@ == StoreModel::empty(),
            store@.wf(),
    {
        let store = TaskStore { entries: Vec::new(), issued: 0 };
        assert(store@.slots =~= StoreModel::empty().slots);
        store
    }

    /// The number of live tasks.
    pub fn len(&self) -> (len: usize)
        ensures
            len == self@.slots.len(),
    {
        self.entries.len()
    }

    /// How many identifiers the store has handed out so far.
    pub fn issued(&self) -> (issued: u64)
        ensures
            issued == self@.issued,
    {
        self.issued
    }

    /// The position of the live task with the number `id`, if there is one.
    fn position_of(&self, id: u64) -> (at: Option<usize>)
        requires
            self@.wf(),
        ensures
            match at {
                Some(i) => i < self.entries.len() && self.entries[i as int].id == id,
                None => forall|i: int| 0 <= i < self.entries.len() ==> self.entries[i].id != id,
            },
    {
        proof {
            self.lemma_entries_ascend();
        }
        let mut low: usize = 0;
        let mut high: usize = self.entries.len();
        while low < high
            invariant
                low <= high <= self.entries.len(),
                forall|i: int, j: int|
                    0 <= i < j < self.entries.len() ==> (#[trigger] self.entries[i]).id < (
                    #[trigger] self.entries[j]).id,
                forall|i: int| 0 <= i < low ==> (#[trigger] self.entries[i]).id < id,
                forall|i: int|
                    high <= i < self.entries.len() ==> (#[trigger] self.entries[i]).id > id,
            decreases high - low,
        {
            let mid: usize = low + (high - low) / 2;
            let here: u64 = self.entries[mid].id;
            if here == id {
                return Some(mid);
            } else if here < id {
                low = mid + 1;
            } else {
                high = mid;
            }
        }
        None
    }

    /// The position of the live task known under `key`, if there is one.
    fn locate(&self, key: &str) -> (at: Option<usize>)
        requires
            self@.wf(),
        ensures
            match at {
                Some(i) => i < self@.slots.len() && task_key(self@.slots[i as int].id) == key@,
                None => !self@.holds(key@),
            },
    {
        let found: Option<usize> = match parse_task_key(key) {
            Some(id) => self.position_of(id),
            None => None,
        };
        proof {
            if found is None && self@.holds(key@) {
                // The key is the text of a number that was handed out, which
                // fits a `u64`: the search for that number cannot have failed.
                let at = self@.position(key@);
                assert(self@.slots[at].id == self.entries[at].id);
            }
        }
        found
    }

    /// The live task known under `key`, if there is one.
    pub fn get(&self, key: &str) -> (task: Option<&Task>)
        requires
            self@.wf(),
        ensures
            match task {
                Some(found) => self@.by_key().contains_key(key@) && self@.by_key()[key@] == found@,
                None => !self@.by_key().contains_key(key@),
            },
    {
        match self.locate(key) {
            Some(i) => {
                proof {
                    lemma_task_of_slot(self@, i as int);
                }
                Some(&self.entries[i].task)
            },
            None => None,
        }
    }

    /// Adds `task` under the next identifier and returns that identifier.
    ///
    /// The identifier is the text of a number one above the last one handed
    /// out, whatever was deleted in between. The counter is a `u64`: the
    /// store takes no task once it has handed out `u64::MAX` identifiers.
    pub fn add_task(&mut self, task: Task) -> (key: String)
        requires
            old(self)@.wf(),
            old(self)@.issued < u64::MAX,
        ensures
            final(self)@.wf(),
            final(self)@ == old(self)@.add(task@),
            key@ == task_key(old(self)@.next_id()),
            forall|earlier: nat|
                earlier <= old(self)@.issued ==> #[trigger] task_key(earlier) != key@,
            !old(self)@.by_key().contains_key(key@),
            final(self)@.by_key() == old(self)@.by_key().insert(key@, task@),
            final(self)@.tasks() == old(self)@.tasks().push(task@),
    {
        let id: u64 = self.issued + 1;
        self.issued = id;
        self.entries.push(Entry { id, task });
        proof {
            assert(self@.slots =~= old(self)@.add(task@).slots);
            lemma_added_task_is_found(old(self)@, task@);
        }
        task_key_text(id)
    }

    /// All live tasks, in ascending order of their identifiers.
    pub fn get_tasks(&self) -> (tasks: Vec<Task>)
        ensures
            tasks.deep_view() == self@.tasks(),
    {
        let tasks: Vec<Task> = self.copy_range(0, self.entries.len());
        assert(self@.tasks().subrange(0, self.entries.len() as int) =~= self@.tasks());
        tasks
    }

    /// Copies of the tasks at the positions from `start` up to, not
    /// including, `end`.
    fn copy_range(&self, start: usize, end: usize) -> (tasks: Vec<Task>)
        requires
            start <= end <= self.entries.len(),
        ensures
            tasks.deep_view() == self@.tasks().subrange(start as int, end as int),
    {
        let mut tasks: Vec<Task> = Vec::new();
        let mut at: usize = start;
        while at < end
            invariant
                start <= at <= end <= self.entries.len(),
                tasks.len() == at - start,
                forall|i: int| 0 <= i < at - start ==> tasks[i]@ == self.entries[start + i].task@,
            decreases end - at,
        {
            tasks.push(self.entries[at].task.clone());
            at = at + 1;
        }
        assert(tasks.deep_view() =~= self@.tasks().subrange(start as int, end as int));
        tasks
    }

    /// Page `page_no` of the live tasks, cut into pages of `page_size` tasks
    /// in ascending order of their identifiers. Pages are numbered from one;
    /// the ranks are those among the tasks that are live now.
    ///
    /// Fails with [`StoreError::InvalidArgument`] exactly when `page_no` or
    /// `page_size` is zero, and with [`StoreError::NotFound`] when a page
    /// after the first would start behind the last live task. The first page
    /// of an empty store is empty.
    pub fn get_task_with_pagination(&self, page_no: u128, page_size: u128) -> (page: Result<
        Vec<Task>,
        StoreError,
    >)
        ensures
            match page {
                Ok(tasks) => paginate(self@.tasks(), page_no as nat, page_size as nat) == Ok::<
                    Seq<TaskView>,
                    StoreError,
                >(tasks.deep_view()),
                Err(e) => paginate(self@.tasks(), page_no as nat, page_size as nat) == Err::<
                    Seq<TaskView>,
                    StoreError,
                >(e),
            },
            (page_no == 0 || page_size == 0) <==> page matches Err(StoreError::InvalidArgument),
    {
        match page_bounds(self.entries.len(), page_no, page_size) {
            Ok((start, end)) => Ok(self.copy_range(start, end)),
            Err(e) => Err(e),
        }
    }

    /// Gives the task known under `task_id` the status `status`, which may
    /// be any text.
    ///
    /// Returns `done.` if a live task is known under `task_id`; otherwise
    /// fails with [`StoreError::NotFound`] and changes nothing.
    pub fn change_task_status(&mut self, task_id: String, status: String) -> (reply: Result<
        String,
        StoreError,
    >)
        requires
            old(self)@.wf(),
        ensures
            final(self)@.wf(),
            final(self)@ == old(self)@.set_status(task_id@, status@),
            old(self)@.by_key().contains_key(task_id@) ==> final(self)@.by_key()
                == old(self)@.by_key().insert(
                task_id@,
                old(self)@.by_key()[task_id@].with_status(status@),
            ),
            !old(self)@.by_key().contains_key(task_id@) ==> final(self)@ == old(self)@,
            match reply {
                Ok(text) => old(self)@.reply(task_id@) == Ok::<Seq<char>, StoreError>(text@),
                Err(e) => old(self)@.reply(task_id@) == Err::<Seq<char>, StoreError>(e),
            },
    {
        match self.locate(task_id.as_str()) {
            Some(i) => {
                self.entries[i].task.status = status;
                proof {
                    let changed = old(self)@.set_status(task_id@, status@);
                    assert forall|j: int| 0 <= j < self@.slots.len() implies self@.slots[j]
                        == changed.slots[j] by {
                        if task_key(old(self)@.slots[j].id) == task_id@ {
                            lemma_key_names_one_slot(old(self)@, task_id@, i as int, j);
                        }
                    }
                    assert(self@.slots =~= changed.slots);
                    lemma_change_keeps_identifiers(old(self)@, task_id@, status@);
                }
                Ok(done())
            },
            None => {
                proof {
                    lemma_change_keeps_identifiers(self@, task_id@, status@);
                }
                Err(StoreError::NotFound)
            },
        }
    }

    /// Gives the task known under `task_id` the description `description`.
    ///
    /// Returns `done.` if a live task is known under `task_id`; otherwise
    /// fails with [`StoreError::NotFound`] and changes nothing.
    pub fn update_task_description(&mut self, task_id: String, description: String) -> (reply:
        Result<String, StoreError>)
        requires
            old(self)@.wf(),
        ensures
            final(self)@.wf(),
            final(self)@ == old(self)@.set_description(task_id@, description@),
            old(self)@.by_key().contains_key(task_id@) ==> final(self)@.by_key()
                == old(self)@.by_key().insert(
                task_id@,
                old(self)@.by_key()[task_id@].with_description(description@),
            ),
            !old(self)@.by_key().contains_key(task_id@) ==> final(self)@ == old(self)@,
            match reply {
                Ok(text) => old(self)@.reply(task_id@) == Ok::<Seq<char>, StoreError>(text@),
                Err(e) => old(self)@.reply(task_id@) == Err::<Seq<char>, StoreError>(e),
            },
    {
        match self.locate(task_id.as_str()) {
            Some(i) => {
                self.entries[i].task.description = description;
                proof {
                    let changed = old(self)@.set_description(task_id@, description@);
                    assert forall|j: int| 0 <= j < self@.slots.len() implies self@.slots[j]
                        == changed.slots[j] by {
                        if task_key(old(self)@.slots[j].id) == task_id@ {
                            lemma_key_names_one_slot(old(self)@, task_id@, i as int, j);
                        }
                    }
                    assert(self@.slots =~= changed.slots);
                    lemma_change_keeps_identifiers(old(self)@, task_id@, description@);
                }
                Ok(done())
            },
            None => {
                proof {
                    lemma_change_keeps_identifiers(self@, task_id@, description@);
                }
                Err(StoreError::NotFound)
            },
        }
    }

    /// Removes the task known under `task_id`. Its identifier is not handed
    /// out again.
    ///
    /// Returns `done.` if a live task was known under `task_id`; otherwise
    /// fails with [`StoreError::NotFound`] and changes nothing.
    pub fn delete_task_by_id(&mut self, task_id: String) -> (reply: Result<String, StoreError>)
        requires
            old(self)@.wf(),
        ensures
            final(self)@.wf(),
            final(self)@ == old(self)@.remove(task_id@),
            final(self)@.by_key() == old(self)@.by_key().remove(task_id@),
            old(self)@.by_key().contains_key(task_id@) ==> final(self)@.tasks()
                == old(self)@.tasks().remove(old(self)@.position(task_id@)),
            !old(self)@.by_key().contains_key(task_id@) ==> final(self)@ == old(self)@,
            match reply {
                Ok(text) => old(self)@.reply(task_id@) == Ok::<Seq<char>, StoreError>(text@),
                Err(e) => old(self)@.reply(task_id@) == Err::<Seq<char>, StoreError>(e),
            },
    {
        match self.locate(task_id.as_str()) {
            Some(i) => {
                self.entries.remove(i);
                proof {
                    assert(self@.slots =~= old(self)@.slots.remove(i as int));
                    lemma_remove_slot(old(self)@, i as int);
                    lemma_removed_key_is_unknown(old(self)@, task_id@, task_id@);
                }
                Ok(done())
            },
            None => {
                proof {
                    lemma_removed_key_is_unknown(self@, task_id@, task_id@);
                }
                Err(StoreError::NotFound)
            },
        }
    }
}

} // verus!
