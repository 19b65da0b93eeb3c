//! The store as a mathematical value, and what each operation makes of it.
//!
//! A [`StoreModel`] is the count of identifiers handed out and the listing of
//! live tasks. It can be looked at in two ways: as the listing itself
//! ([`StoreModel::tasks`]), and as a map from keys to tasks
//! ([`StoreModel::by_key`]). The contracts of [`crate::store::TaskStore`] are
//! stated over it; the laws in the second half of this module say what
//! follows for every store and every sequence of operations.

use crate::error::StoreError;
use crate::key::{lemma_task_key_injective, task_key};
use crate::task::TaskView;
use vstd::prelude::*;

verus! {

/// A live task together with the number it was given.
pub struct Slot {
    pub id: nat,
    pub task: TaskView,
}

/// The state of a store: how many identifiers it has handed out so far, and
/// its live tasks in the order in which they were added.
#[verifier::ext_equal]
pub struct StoreModel {
    pub issued: nat,
    pub slots: Seq<Slot>,
}

/// The text that reports a change as made: `done.`
pub open spec fn done_text() -> Seq<char> {
    seq!['d', 'o', 'n', 'e', '.']
}

impl StoreModel {
    /// The store before anything was added.
    pub open spec fn empty() -> StoreModel {
        StoreModel { issued: 0, slots: Seq::empty() }
    }

    /// Every live task has a number that was handed out, and the live tasks
    /// stand in strictly ascending order of their numbers.
    pub open spec fn wf(self) -> bool {
        &&& forall|i: int|
            0 <= i < self.slots.len() ==> 1 <= (#[trigger] self.slots[i]).id <= self.issued
        &&& forall|i: int, j: int|
            0 <= i < j < self.slots.len() ==> (#[trigger] self.slots[i]).id < (
            #[trigger] self.slots[j]).id
    }

    /// The live tasks, in ascending order of their identifiers.
    pub open spec fn tasks(self) -> Seq<TaskView> {
        self.slots.map_values(|slot: Slot| slot.task)
    }

    /// Whether a live task is known under `key`.
    pub open spec fn holds(self, key: Seq<char>) -> bool {
        exists|i: int| 0 <= i < self.slots.len() && task_key((#[trigger] self.slots[i]).id) == key
    }

    /// The place in the listing, counted from zero, of the live task known
    /// under `key`. It says nothing for a key that names no live task.
    pub open spec fn position(self, key: Seq<char>) -> int {
        choose|i: int| 0 <= i < self.slots.len() && task_key((#[trigger] self.slots[i]).id) == key
    }

    /// The live task known under `key`, if there is one.
    pub open spec fn task_of(self, key: Seq<char>) -> Option<TaskView> {
        if self.holds(key) {
            Some(self.slots[self.position(key)].task)
        } else {
            None
        }
    }

    /// The live tasks, each under the key it is known by.
    pub open spec fn by_key(self) -> Map<Seq<char>, TaskView> {
        Map::new(|key: Seq<char>| self.holds(key), |key: Seq<char>| self.task_of(key)->0)
    }

    /// The number that the next task will get.
    pub open spec fn next_id(self) -> nat {
        self.issued + 1
    }

    /// The store after `task` was added: the task stands last, under the
    /// next number.
    pub open spec fn add(self, task: TaskView) -> StoreModel {
        StoreModel {
            issued: self.next_id(),
            slots: self.slots.push(Slot { id: self.next_id(), task }),
        }
    }

    /// The store without the task known under `key`. Nothing else changes;
    /// the numbers handed out so far stay handed out.
    pub open spec fn remove(self, key: Seq<char>) -> StoreModel {
        StoreModel { slots: self.slots.filter(|slot: Slot| task_key(slot.id) != key), ..self }
    }

    /// The store in which the task known under `key` has the status `status`.
    pub open spec fn set_status(self, key: Seq<char>, status: Seq<char>) -> StoreModel {
        StoreModel {
            slots: self.slots.map_values(
                |slot: Slot|
                    if task_key(slot.id) == key {
                        Slot { task: slot.task.with_status(status), ..slot }
                    } else {
                        slot
                    },
            ),
            ..self
        }
    }

    /// The store in which the task known under `key` has the description
    /// `description`.
    pub open spec fn set_description(self, key: Seq<char>, description: Seq<char>) -> StoreModel {
        StoreModel {
            slots: self.slots.map_values(
                |slot: Slot|
                    if task_key(slot.id) == key {
                        Slot { task: slot.task.with_description(description), ..slot }
                    } else {
                        slot
                    },
            ),
            ..self
        }
    }

    /// What a change or a removal under `key` reports: `done.` if a live
    /// task is known under `key`, and that nothing was found otherwise.
    pub open spec fn reply(self, key: Seq<char>) -> Result<Seq<char>, StoreError> {
        if self.by_key().contains_key(key) {
            Ok(done_text())
        } else {
            Err(StoreError::NotFound)
        }
    }
}

/// A filter that every item passes keeps the sequence as it is.
proof fn lemma_filter_keeps_all<A>(s: Seq<A>, pred: spec_fn(A) -> bool)
    requires
        forall|i: int| 0 <= i < s.len() ==> pred(#[trigger] s[i]),
    ensures
        s.filter(pred) == s,
    decreases s.len(),
{
    reveal(Seq::filter);
    if s.len() > 0 {
        lemma_filter_keeps_all(s.drop_last(), pred);
        assert(s.drop_last().push(s.last()) =~= s);
    }
}

/// A filter that every item passes but the one at `at` removes that item.
proof fn lemma_filter_drops_one<A>(s: Seq<A>, pred: spec_fn(A) -> bool, at: int)
    requires
        0 <= at < s.len(),
        !pred(s[at]),
        forall|i: int| 0 <= i < s.len() && i != at ==> pred(#[trigger] s[i]),
    ensures
        s.filter(pred) == s.remove(at),
    decreases s.len(),
{
    reveal(Seq::filter);
    let front = s.drop_last();
    if at == s.len() - 1 {
        lemma_filter_keeps_all(front, pred);
        assert(front =~= s.remove(at));
    } else {
        lemma_filter_drops_one(front, pred, at);
        assert(front.remove(at).push(s.last()) =~= s.remove(at));
    }
}

/// In a well-formed store a key names at most one position.
pub proof fn lemma_key_names_one_slot(model: StoreModel, key: Seq<char>, i: int, j: int)
    requires
        model.wf(),
        0 <= i < model.slots.len(),
        0 <= j < model.slots.len(),
        task_key(model.slots[i].id) == key,
        task_key(model.slots[j].id) == key,
    ensures
        i == j,
{
    lemma_task_key_injective(model.slots[i].id, model.slots[j].id);
}

/// In a well-formed store, the task at a position is the task known under
/// the key of that position.
pub proof fn lemma_task_of_slot(model: StoreModel, at: int)
    requires
        model.wf(),
        0 <= at < model.slots.len(),
    ensures
        model.holds(task_key(model.slots[at].id)),
        model.position(task_key(model.slots[at].id)) == at,
        model.task_of(task_key(model.slots[at].id)) == Some(model.slots[at].task),
{
    let key = task_key(model.slots[at].id);
    lemma_key_names_one_slot(model, key, at, model.position(key));
}

/// Removing the task at position `at` is removing the task known under the
/// key of that position.
pub proof fn lemma_remove_slot(model: StoreModel, at: int)
    requires
        model.wf(),
        0 <= at < model.slots.len(),
    ensures
        model.remove(task_key(model.slots[at].id)).slots == model.slots.remove(at),
{
    let key = task_key(model.slots[at].id);
    let others = |slot: Slot| task_key(slot.id) != key;
    assert forall|i: int| 0 <= i < model.slots.len() && i != at implies others(
        #[trigger] model.slots[i],
    ) by {
        if task_key(model.slots[i].id) == key {
            lemma_key_names_one_slot(model, key, i, at);
        }
    }
    lemma_filter_drops_one(model.slots, others, at);
}

/// A removal, a change of status or a change of description under a key
/// that names no live task leaves the store as it is.
pub proof fn lemma_unknown_key_changes_nothing(
    model: StoreModel,
    key: Seq<char>,
    text: Seq<char>,
)
    requires
        !model.holds(key),
    ensures
        model.remove(key) == model,
        model.set_status(key, text) == model,
        model.set_description(key, text) == model,
{
    lemma_filter_keeps_all(model.slots, |slot: Slot| task_key(slot.id) != key);
    assert(model.set_status(key, text).slots =~= model.slots);
    assert(model.set_description(key, text).slots =~= model.slots);
}

/// One request that changes a store.
pub enum Command {
    /// Add `task` under the next identifier.
    Add { task: TaskView },
    /// Give the task known under `key` the status `status`.
    SetStatus { key: Seq<char>, status: Seq<char> },
    /// Give the task known under `key` the description `description`.
    SetDescription { key: Seq<char>, description: Seq<char> },
    /// Remove the task known under `key`.
    Remove { key: Seq<char> },
}

impl StoreModel {
    /// The store after `command`.
    pub open spec fn apply(self, command: Command) -> StoreModel {
        match command {
            Command::Add { task } => self.add(task),
            Command::SetStatus { key, status } => self.set_status(key, status),
            Command::SetDescription { key, description } => self.set_description(key, description),
            Command::Remove { key } => self.remove(key),
        }
    }

    /// The store after all of `commands`, first to last.
    pub open spec fn run(self, commands: Seq<Command>) -> StoreModel
        decreases commands.len(),
    {
        if commands.len() == 0 {
            self
        } else {
            self.run(commands.drop_last()).apply(commands.last())
        }
    }

    /// The numbers that the additions among `commands` are given, in the
    /// order of the additions.
    pub open spec fn handed_out(self, commands: Seq<Command>) -> Seq<nat>
        decreases commands.len(),
    {
        if commands.len() == 0 {
            Seq::empty()
        } else {
            let earlier = self.handed_out(commands.drop_last());
            match commands.last() {
                Command::Add { .. } => earlier.push(self.run(commands.drop_last()).next_id()),
                _ => earlier,
            }
        }
    }
}

/// Adding a task keeps a store well-formed. The identifier it is given is
/// one that was never handed out before; the task is then found under it,
/// equal to what was added, and stands last in the listing, behind the tasks
/// that were there before. Every other key names what it named before.
pub proof fn lemma_added_task_is_found(model: StoreModel, task: TaskView)
    requires
        model.wf(),
    ensures
        model.add(task).wf(),
        model.add(task).issued == model.issued + 1,
        forall|earlier: nat|
            earlier <= model.issued ==> #[trigger] task_key(earlier) != task_key(model.next_id()),
        !model.by_key().contains_key(task_key(model.next_id())),
        model.add(task).by_key() == model.by_key().insert(task_key(model.next_id()), task),
        model.add(task).tasks() == model.tasks().push(task),
{
    let after = model.add(task);
    let last = model.slots.len() as int;
    let key = task_key(model.next_id());
    assert forall|i: int| 0 <= i < last implies (#[trigger] after.slots[i]) == model.slots[i] by {}
    assert(after.wf());
    lemma_task_of_slot(after, last);
    assert(after.tasks() =~= model.tasks().push(task));
    if model.holds(key) {
        let at = model.position(key);
        lemma_task_key_injective(model.slots[at].id, model.next_id());
    }
    assert forall|k: Seq<char>| model.holds(k) implies after.holds(k) && after.task_of(k)
        == model.task_of(k) by {
        let at = model.position(k);
        lemma_task_of_slot(model, at);
        lemma_task_of_slot(after, at);
    }
    assert forall|k: Seq<char>| after.holds(k) implies model.holds(k) || k == key by {
        let at = after.position(k);
        if at < last {
            assert(after.slots[at] == model.slots[at]);
        }
    }
    assert(after.by_key() =~= model.by_key().insert(key, task));
    assert forall|earlier: nat| earlier <= model.issued implies #[trigger] task_key(earlier)
        != key by {
        if task_key(earlier) == key {
            lemma_task_key_injective(earlier, model.next_id());
        }
    }
}

/// Changing the status or the description of a task keeps a store
/// well-formed and keeps every task in its place. The task known under the
/// key has the new text in the one field and is otherwise as it was; every
/// other key names what it named before. Under a key that names no live
/// task, nothing changes.
pub proof fn lemma_change_keeps_identifiers(model: StoreModel, key: Seq<char>, text: Seq<char>)
    requires
        model.wf(),
    ensures
        model.set_status(key, text).wf(),
        model.set_description(key, text).wf(),
        model.set_status(key, text).tasks().len() == model.tasks().len(),
        model.set_description(key, text).tasks().len() == model.tasks().len(),
        model.by_key().contains_key(key) ==> model.set_status(key, text).by_key()
            == model.by_key().insert(key, model.by_key()[key].with_status(text)),
        model.by_key().contains_key(key) ==> model.set_description(key, text).by_key()
            == model.by_key().insert(key, model.by_key()[key].with_description(text)),
        !model.by_key().contains_key(key) ==> model.set_status(key, text) == model
            && model.set_description(key, text) == model,
{
    let status = model.set_status(key, text);
    let description = model.set_description(key, text);
    assert forall|i: int| 0 <= i < model.slots.len() implies (#[trigger] status.slots[i]).id
        == model.slots[i].id && (#[trigger] description.slots[i]).id == model.slots[i].id by {}
    assert(status.wf());
    assert(description.wf());
    assert forall|k: Seq<char>| status.holds(k) == model.holds(k) && description.holds(k)
        == model.holds(k) by {
        if model.holds(k) {
            let at = model.position(k);
            assert(task_key(status.slots[at].id) == k);
            assert(task_key(description.slots[at].id) == k);
        }
    }
    assert forall|k: Seq<char>| model.holds(k) implies status.task_of(k) == Some(
        if k == key {
            model.task_of(k)->0.with_status(text)
        } else {
            model.task_of(k)->0
        },
    ) && description.task_of(k) == Some(
        if k == key {
            model.task_of(k)->0.with_description(text)
        } else {
            model.task_of(k)->0
        },
    ) by {
        let at = model.position(k);
        lemma_task_of_slot(model, at);
        lemma_task_of_slot(status, at);
        lemma_task_of_slot(description, at);
    }
    if model.holds(key) {
        assert(status.by_key() =~= model.by_key().insert(
            key,
            model.by_key()[key].with_status(text),
        ));
        assert(description.by_key() =~= model.by_key().insert(
            key,
            model.by_key()[key].with_description(text),
        ));
    } else {
        lemma_unknown_key_changes_nothing(model, key, text);
    }
}

/// What removing the task under `key` does to each key.
proof fn lemma_remove_by_key(model: StoreModel, key: Seq<char>)
    requires
        model.wf(),
    ensures
        model.remove(key).wf(),
        !model.remove(key).holds(key),
        model.holds(key) ==> model.remove(key).slots == model.slots.remove(model.position(key)),
        !model.holds(key) ==> model.remove(key) == model,
        forall|k: Seq<char>|
            k != key ==> model.remove(key).holds(k) == model.holds(k) && model.remove(
                key,
            ).task_of(k) == model.task_of(k),
{
    let after = model.remove(key);
    if model.holds(key) {
        let at = model.position(key);
        lemma_remove_slot(model, at);
        // What stood before `at` stays where it was; what stood behind it
        // moves one place forward.
        assert forall|i: int| 0 <= i < after.slots.len() implies (#[trigger] after.slots[i])
            == model.slots[if i < at { i } else { i + 1 }] by {}
        assert(after.wf());
        if after.holds(key) {
            let i = after.position(key);
            lemma_key_names_one_slot(model, key, if i < at { i } else { i + 1 }, at);
        }
        assert forall|k: Seq<char>| k != key implies after.holds(k) == model.holds(k)
            && after.task_of(k) == model.task_of(k) by {
            if model.holds(k) {
                let i = model.position(k);
                lemma_task_of_slot(model, i);
                lemma_task_of_slot(after, if i < at { i } else { i - 1 });
            }
        }
    } else {
        lemma_unknown_key_changes_nothing(model, key, key);
    }
}

/// Removing a task keeps a store well-formed and takes away that one task:
/// the listing is as before but for the place of that task, and every other
/// key names what it named before. The key that was removed names nothing
/// afterwards: a change or a second removal under it is answered with
/// [`StoreError::NotFound`] and leaves the store as it is.
pub proof fn lemma_removed_key_is_unknown(model: StoreModel, key: Seq<char>, text: Seq<char>)
    requires
        model.wf(),
    ensures
        model.remove(key).wf(),
        model.remove(key).issued == model.issued,
        model.remove(key).by_key() == model.by_key().remove(key),
        model.by_key().contains_key(key) ==> model.remove(key).tasks() == model.tasks().remove(
            model.position(key),
        ),
        !model.by_key().contains_key(key) ==> model.remove(key) == model,
        !model.remove(key).holds(key),
        model.remove(key).task_of(key) is None,
        model.remove(key).reply(key) == Err::<Seq<char>, StoreError>(StoreError::NotFound),
        model.remove(key).set_status(key, text) == model.remove(key),
        model.remove(key).set_description(key, text) == model.remove(key),
        model.remove(key).remove(key) == model.remove(key),
{
    let after = model.remove(key);
    lemma_remove_by_key(model, key);
    assert(after.by_key() =~= model.by_key().remove(key));
    if model.holds(key) {
        assert(after.tasks() =~= model.tasks().remove(model.position(key)));
    }
    assert(after.set_status(key, text) == after && after.set_description(key, text) == after
        && after.remove(key) == after) by {
        lemma_unknown_key_changes_nothing(after, key, text);
    }
}

/// Every command keeps a store well-formed, never lowers the count of
/// identifiers handed out, and brings in no key but the one that an addition
/// hands out, which is the text of a number above that count.
pub proof fn lemma_apply_keeps_wf(model: StoreModel, command: Command)
    requires
        model.wf(),
    ensures
        model.apply(command).wf(),
        model.issued <= model.apply(command).issued,
        forall|k: Seq<char>|
            model.apply(command).holds(k) && !model.holds(k) ==> command is Add && k == task_key(
                model.next_id(),
            ),
{
    let after = model.apply(command);
    match command {
        Command::Add { task } => {
            lemma_added_task_is_found(model, task);
        },
        Command::SetStatus { key, status } => {
            lemma_change_keeps_identifiers(model, key, status);
        },
        Command::SetDescription { key, description } => {
            lemma_change_keeps_identifiers(model, key, description);
        },
        Command::Remove { key } => {
            lemma_removed_key_is_unknown(model, key, key);
        },
    }
    assert forall|k: Seq<char>| after.holds(k) && !model.holds(k) implies command is Add && k
        == task_key(model.next_id()) by {
        assert(after.by_key().contains_key(k));
        assert(!model.by_key().contains_key(k));
    }
}

/// Whatever commands a store runs, additions interleaved with changes and
/// removals in any order, the identifiers it hands out are strictly
/// increasing in the order of the additions, so none is handed out twice:
/// neither the number nor its text. Each lies above the count the store
/// started with, and the store stays well-formed.
pub proof fn lemma_identifiers_ascend(start: StoreModel, commands: Seq<Command>)
    requires
        start.wf(),
    ensures
        start.run(commands).wf(),
        start.issued <= start.run(commands).issued,
        forall|i: int|
            0 <= i < start.handed_out(commands).len() ==> start.issued < (
            #[trigger] start.handed_out(commands)[i]) <= start.run(commands).issued,
        forall|i: int, j: int|
            0 <= i < j < start.handed_out(commands).len() ==> (#[trigger] start.handed_out(
                commands,
            )[i]) < (#[trigger] start.handed_out(commands)[j]),
        forall|i: int, j: int|
            0 <= i < j < start.handed_out(commands).len() ==> task_key(
                #[trigger] start.handed_out(commands)[i],
            ) != task_key(#[trigger] start.handed_out(commands)[j]),
    decreases commands.len(),
{
    let ids = start.handed_out(commands);
    if commands.len() > 0 {
        let earlier = commands.drop_last();
        let before = start.handed_out(earlier);
        lemma_identifiers_ascend(start, earlier);
        lemma_apply_keeps_wf(start.run(earlier), commands.last());
        // The numbers handed out earlier are still there, and a number
        // handed out now lies above the count that bounds them.
        assert forall|i: int| 0 <= i < before.len() implies (#[trigger] ids[i]) == before[i] by {}
    }
    assert forall|i: int, j: int| 0 <= i < j < ids.len() implies task_key(#[trigger] ids[i])
        != task_key(#[trigger] ids[j]) by {
        if task_key(ids[i]) == task_key(ids[j]) {
            lemma_task_key_injective(ids[i], ids[j]);
        }
    }
}

/// An identifier is never used again: once the task known under `key` has
/// been removed, no command brings that key back, whatever is added later.
pub proof fn lemma_removed_key_never_returns(
    model: StoreModel,
    key: Seq<char>,
    commands: Seq<Command>,
)
    requires
        model.wf(),
        model.holds(key),
    ensures
        !model.remove(key).run(commands).holds(key),
    decreases commands.len(),
{
    let removed = model.remove(key);
    lemma_removed_key_is_unknown(model, key, key);
    if commands.len() > 0 {
        let earlier = commands.drop_last();
        let before = removed.run(earlier);
        lemma_removed_key_never_returns(model, key, earlier);
        lemma_identifiers_ascend(removed, earlier);
        lemma_apply_keeps_wf(before, commands.last());
        if before.apply(commands.last()).holds(key) {
            // Only an addition could bring the key in, under a number that
            // is above every number handed out so far, the key's own too.
            let at = model.position(key);
            lemma_task_key_injective(model.slots[at].id, before.next_id());
        }
    }
}

} // verus!
