//! The asynchronous export/import protocol: background tasks compute over
//! the store and deliver exactly one completion signal each through a
//! single-producer/single-consumer slot.
//!
//! The outside work of a task — writing or reading the backup file — is done
//! by the caller between the verified steps; its outcome comes back in as a
//! plain value (`write_ok`, or the file's bytes / `None` when unreadable).

use vstd::prelude::*;

use crate::codec::spec_parse_backup;
use crate::model::{GroupData, tree_data};
use crate::store::{Store, backup_fits, store_wf};

verus! {

/// One-shot single-producer/single-consumer completion carrier: the producer
/// sends exactly once, the consumer takes the value exactly once.
pub struct CompletionSlot {
    pub signal: Option<bool>,
}

impl CompletionSlot {
    pub fn new() -> (s: CompletionSlot)
        ensures
            s.signal is None,
    {
        CompletionSlot { signal: Option::None }
    }

    /// Delivers the terminal result of one task; at most once per slot.
    pub fn send(&mut self, value: bool)
        requires
            old(self).signal is None,
        ensures
            final(self).signal == Option::Some(value),
    {
        self.signal = Option::Some(value);
    }

    /// Consumes the delivered result, leaving the slot empty.
    pub fn try_take(&mut self) -> (r: Option<bool>)
        ensures
            final(self).signal is None,
            r == old(self).signal,
    {
        let r = match &self.signal {
            Option::Some(b) => Option::Some(*b),
            Option::None => Option::None,
        };
        self.signal = Option::None;
        r
    }
}

/// One unit of background work together with the outcome of its outside
/// part: for an export, whether the serialized bytes reached the file; for
/// an import, the file's bytes, or `None` when the file could not be read.
pub enum TaskEvent {
    Export { write_ok: bool },
    Import { file: Option<Vec<u8>> },
}

/// The completion signal a task delivers.
pub open spec fn task_signal(e: TaskEvent) -> bool {
    match e {
        TaskEvent::Export { write_ok } => write_ok,
        TaskEvent::Import { file } => match file {
            Option::Some(d) => match spec_parse_backup(d@) {
                Option::Some(gs) => backup_fits(gs),
                Option::None => false,
            },
            Option::None => false,
        },
    }
}

/// The store's logical tree after one task: only a successful import
/// changes it, and then to exactly the parsed tree.
pub open spec fn tree_after(t: Seq<GroupData>, e: TaskEvent) -> Seq<GroupData> {
    match e {
        TaskEvent::Export { .. } => t,
        TaskEvent::Import { file } => match file {
            Option::Some(d) => if task_signal(e) {
                spec_parse_backup(d@).unwrap()
            } else {
                t
            },
            Option::None => t,
        },
    }
}

/// The store's logical tree after a whole queue of tasks, in order.
pub open spec fn tree_after_all(t: Seq<GroupData>, es: Seq<TaskEvent>) -> Seq<GroupData>
    decreases es.len(),
{
    if es.len() == 0 {
        t
    } else {
        tree_after_all(tree_after(t, es[0]), es.skip(1))
    }
}

pub proof fn lemma_tree_after_all_push(t: Seq<GroupData>, es: Seq<TaskEvent>, e: TaskEvent)
    ensures
        tree_after_all(t, es.push(e)) == tree_after(tree_after_all(t, es), e),
    decreases es.len(),
{
    if es.len() == 0 {
        assert(es.push(e)[0] == e);
        assert(es.push(e).skip(1) =~= Seq::<TaskEvent>::empty());
        assert(tree_after_all(t, es.push(e)) == tree_after_all(
            tree_after(t, e),
            Seq::<TaskEvent>::empty(),
        ));
        assert(tree_after_all(tree_after(t, e), Seq::<TaskEvent>::empty()) == tree_after(t, e));
        assert(tree_after_all(t, es) == t);
    } else {
        assert(es.push(e)[0] == es[0]);
        assert(es.push(e).skip(1) =~= es.skip(1).push(e));
        lemma_tree_after_all_push(tree_after(t, es[0]), es.skip(1), e);
        assert(tree_after_all(t, es.push(e)) == tree_after_all(
            tree_after(t, es[0]),
            es.skip(1).push(e),
        ));
        assert(tree_after_all(t, es) == tree_after_all(tree_after(t, es[0]), es.skip(1)));
    }
}

/// One import task run to completion: applies the file contents to the
/// store as a single logical step and sends exactly one completion signal.
/// A missing or unreadable file (`None`), or malformed contents, signal
/// failure and leave the store untouched.
pub fn import_task(store: &mut Store, file: Option<Vec<u8>>, done: &mut CompletionSlot)
    requires
        store_wf(*old(store)),
        old(done).signal is None,
    ensures
        store_wf(*final(store)),
        final(done).signal is Some,
        final(done).signal == Option::Some(task_signal(TaskEvent::Import { file })),
        tree_data(final(store).groups@) == tree_after(
            tree_data(old(store).groups@),
            TaskEvent::Import { file },
        ),
        !task_signal(TaskEvent::Import { file }) ==> *final(store) == *old(store),
{
    let ok = match &file {
        Option::None => false,
        Option::Some(d) => store.import_bytes(d.as_slice()),
    };
    done.send(ok);
}

/// Completes one export task: the bytes themselves come from
/// [`Store::export_bytes`]; the caller's file write cannot be verified, so
/// its reported outcome is forwarded as the one completion signal.
pub fn finish_export(write_ok: bool, done: &mut CompletionSlot)
    requires
        old(done).signal is None,
    ensures
        final(done).signal == Option::Some(task_signal(TaskEvent::Export { write_ok })),
{
    done.send(write_ok);
}

/// The task runner's protocol over a whole queue: tasks start in submission
/// order, every submitted task runs to completion, and exactly one
/// completion signal per task comes back — a failed task still signals,
/// none is silently dropped.
pub fn process_tasks(store: &mut Store, tasks: Vec<TaskEvent>) -> (signals: Vec<bool>)
    requires
        store_wf(*old(store)),
    ensures
        store_wf(*final(store)),
        signals@.len() == tasks@.len(),
        forall|i: int| 0 <= i < tasks@.len() ==> signals@[i] == task_signal(tasks@[i]),
        tree_data(final(store).groups@) == tree_after_all(
            tree_data(old(store).groups@),
            tasks@,
        ),
{
    let mut signals: Vec<bool> = Vec::new();
    let n = tasks.len();
    let mut i: usize = 0;
    proof {
        assert(tasks@.take(0) =~= Seq::<TaskEvent>::empty());
    }
    while i < n
        invariant
            store_wf(*store),
            n == tasks@.len(),
            i <= n,
            signals@.len() == i,
            forall|j: int| 0 <= j < i ==> signals@[j] == task_signal(tasks@[j]),
            tree_data(store.groups@) == tree_after_all(
                tree_data(old(store).groups@),
                tasks@.take(i as int),
            ),
        decreases n - i,
    {
        let ghost pre = tree_data(store.groups@);
        let ok: bool;
        match &tasks[i] {
            TaskEvent::Export { write_ok } => {
                ok = *write_ok;
            },
            TaskEvent::Import { file } => {
                match file {
                    Option::Some(d) => {
                        ok = store.import_bytes(d.as_slice());
                    },
                    Option::None => {
                        ok = false;
                    },
                }
            },
        }
        signals.push(ok);
        proof {
            assert(ok == task_signal(tasks@[i as int]));
            assert(tree_data(store.groups@) == tree_after(pre, tasks@[i as int]));
            assert(tasks@.take(i as int + 1) =~= tasks@.take(i as int).push(tasks@[i as int]));
            lemma_tree_after_all_push(
                tree_data(old(store).groups@),
                tasks@.take(i as int),
                tasks@[i as int],
            );
        }
        i = i + 1;
    }
    proof {
        assert(tasks@.take(n as int) =~= tasks@);
    }
    signals
}

} // verus!
