//! The conversion queue behind the GUI: which files are queued, their
//! status, the bounded console log, the worker plan for a batch, and how
//! worker reports change the queue.
use vstd::prelude::*;

verus! {

/// Console lines kept; older lines are dropped first.
pub const MAX_LOG_LINES: usize = 1000;

/// Status of one queued file. Progress is in thousandths (0..=1000).
pub enum Status {
    Queued,
    Converting(u16),
    Done(String),
    Failed(String),
}

/// A queued input file. `path` is the platform encoding of the path's
/// components joined again (a path rebuilt from `Path::components`), so two
/// items name the same path exactly when these bytes are equal.
pub struct Item {
    pub path: Vec<u8>,
    pub status: Status,
}

/// A report from a conversion worker.
pub enum Msg {
    Progress(usize, u16),
    Done(usize, String),
    Failed(usize, String),
    Log(String),
    Batch,
}

pub open spec fn finished(s: Status) -> bool {
    s is Done || s is Failed
}

impl Status {
    /// Done or failed: nothing more will happen to this file in this batch.
    pub fn is_finished(&self) -> (b: bool)
        ensures
            b == finished(*self),
    {
        match self {
            Status::Done(_) => true,
            Status::Failed(_) => true,
            _ => false,
        }
    }
}

/// Gives row `i` a new status, keeping its path.
fn set_status(items: &mut Vec<Item>, i: usize, status: Status)
    requires
        i < old(items)@.len(),
    ensures
        final(items)@ == old(items)@.update(i as int, Item { path: old(items)@[i as int].path, status }),
{
    let it = items.remove(i);
    items.insert(i, Item { path: it.path, status });
    assert(final(items)@ =~= old(items)@.update(i as int, Item { path: old(items)@[i as int].path, status }));
}

fn is_done(s: &Status) -> (b: bool)
    ensures
        b == (*s is Done),
{
    match s {
        Status::Done(_) => true,
        _ => false,
    }
}

// ---------------------------------------------------------------------------
// Console log
// ---------------------------------------------------------------------------

/// The log after appending `line` and keeping only the newest
/// `MAX_LOG_LINES` lines.
pub open spec fn log_after(log: Seq<String>, line: String) -> Seq<String> {
    let all = log.push(line);
    if all.len() > MAX_LOG_LINES {
        all.subrange(all.len() - MAX_LOG_LINES, all.len() as int)
    } else {
        all
    }
}

/// Appends a line to the console log, dropping the oldest lines beyond the
/// retention cap.
pub fn push_log(log: &mut Vec<String>, line: String)
    requires
        old(log)@.len() < usize::MAX,
    ensures
        final(log)@ == log_after(old(log)@, line),
        final(log)@.len() <= MAX_LOG_LINES,
{
    let ghost all = old(log)@.push(line);
    log.push(line);
    let ghost mut dropped: int = 0;
    while log.len() > MAX_LOG_LINES
        invariant
            0 <= dropped <= all.len(),
            log@ == all.subrange(dropped, all.len() as int),
            log@.len() >= MAX_LOG_LINES ==> dropped == all.len() - log@.len(),
            all.len() > MAX_LOG_LINES ==> dropped <= all.len() - MAX_LOG_LINES,
            all.len() <= MAX_LOG_LINES ==> dropped == 0,
        decreases log@.len(),
    {
        log.remove(0);
        proof {
            dropped = dropped + 1;
        }
        assert(log@ =~= all.subrange(dropped, all.len() as int));
    }
    assert(log@ =~= log_after(old(log)@, line));
}

// ---------------------------------------------------------------------------
// Queue contents
// ---------------------------------------------------------------------------

pub open spec fn has_path(items: Seq<Item>, path: Vec<u8>) -> bool {
    exists|i: int| 0 <= i < items.len() && #[trigger] items[i].path@ == path@
}

/// The queue after offering `paths` in order: each path not yet queued
/// (nor earlier in `paths`) is appended as `Queued`.
pub open spec fn queue_after_add(items: Seq<Item>, paths: Seq<Vec<u8>>) -> Seq<Item>
    decreases paths.len(),
{
    if paths.len() == 0 {
        items
    } else {
        let q = queue_after_add(items, paths.drop_last());
        if has_path(q, paths.last()) {
            q
        } else {
            q.push(Item { path: paths.last(), status: Status::Queued })
        }
    }
}

fn same_bytes(a: &Vec<u8>, b: &Vec<u8>) -> (same: bool)
    ensures
        same == (a@ == b@),
{
    if a.len() != b.len() {
        return false;
    }
    let mut i: usize = 0;
    while i < a.len()
        invariant
            i <= a@.len(),
            a@.len() == b@.len(),
            forall|j: int| 0 <= j < i ==> a@[j] == b@[j],
        decreases a@.len() - i,
    {
        if a[i] != b[i] {
            return false;
        }
        i = i + 1;
    }
    assert(a@ =~= b@);
    true
}

fn contains_path(items: &Vec<Item>, path: &Vec<u8>) -> (found: bool)
    ensures
        found == has_path(items@, *path),
{
    let mut i: usize = 0;
    while i < items.len()
        invariant
            i <= items@.len(),
            forall|j: int| 0 <= j < i ==> items@[j].path@ != path@,
        decreases items@.len() - i,
    {
        if same_bytes(&items[i].path, path) {
            return true;
        }
        i = i + 1;
    }
    false
}

/// Queues each of `paths` that is not queued yet, in order, and returns how
/// many were added.
pub fn add_unique(items: &mut Vec<Item>, paths: Vec<Vec<u8>>) -> (added: usize)
    requires
        old(items)@.len() + paths@.len() <= usize::MAX,
    ensures
        final(items)@ == queue_after_add(old(items)@, paths@),
        added == final(items)@.len() - old(items)@.len(),
{
    let ghost start = items@;
    let ghost all = paths@;
    let mut rest = paths;
    let mut added: usize = 0;
    let mut k: usize = 0;
    while rest.len() > 0
        invariant
            k <= all.len(),
            rest@ == all.subrange(k as int, all.len() as int),
            items@ == queue_after_add(start, all.subrange(0, k as int)),
            added == items@.len() - start.len(),
            items@.len() <= start.len() + k,
            start.len() + all.len() <= usize::MAX,
        decreases rest@.len(),
    {
        let p = rest.remove(0);
        let ghost cur = all.subrange(0, k + 1);
        assert(cur.drop_last() =~= all.subrange(0, k as int));
        assert(cur.last() == p);
        if !contains_path(items, &p) {
            items.push(Item { path: p, status: Status::Queued });
            added = added + 1;
        }
        k = k + 1;
        assert(rest@ =~= all.subrange(k as int, all.len() as int));
    }
    assert(all.subrange(0, all.len() as int) =~= all);
    added
}

/// The queue without its finished (done or failed) rows, order kept.
pub open spec fn unfinished_items(items: Seq<Item>) -> Seq<Item>
    decreases items.len(),
{
    if items.len() == 0 {
        Seq::empty()
    } else {
        let r = unfinished_items(items.drop_last());
        if finished(items.last().status) {
            r
        } else {
            r.push(items.last())
        }
    }
}

/// Removes the finished rows from the queue.
pub fn clear_finished(items: &mut Vec<Item>)
    ensures
        final(items)@ == unfinished_items(old(items)@),
{
    let ghost orig = items@;
    let n0 = items.len();
    let mut i: usize = 0;
    let mut j: usize = 0;
    while i < items.len()
        invariant
            n0 == orig.len(),
            j <= orig.len(),
            i == unfinished_items(orig.subrange(0, j as int)).len(),
            items@ == unfinished_items(orig.subrange(0, j as int)) + orig.subrange(
                j as int,
                orig.len() as int,
            ),
        decreases items@.len() - i,
    {
        let ghost pre = orig.subrange(0, j as int);
        let ghost next = orig.subrange(0, j + 1);
        assert(next.drop_last() =~= pre);
        assert(items@[i as int] == orig[j as int]);
        if items[i].status.is_finished() {
            items.remove(i);
        } else {
            i = i + 1;
        }
        j = j + 1;
        assert(items@ =~= unfinished_items(orig.subrange(0, j as int)) + orig.subrange(
            j as int,
            orig.len() as int,
        ));
    }
    assert(orig.subrange(0, orig.len() as int) =~= orig);
    assert(items@ =~= unfinished_items(orig));
}

/// Some row is done or failed.
pub fn has_finished(items: &Vec<Item>) -> (b: bool)
    ensures
        b == exists|i: int| 0 <= i < items@.len() && finished(#[trigger] items@[i].status),
{
    let mut i: usize = 0;
    while i < items.len()
        invariant
            i <= items@.len(),
            forall|j: int| 0 <= j < i ==> !finished(#[trigger] items@[j].status),
        decreases items@.len() - i,
    {
        if items[i].status.is_finished() {
            return true;
        }
        i = i + 1;
    }
    false
}

/// Some row still needs converting (anything not done, failed rows included).
pub fn has_pending(items: &Vec<Item>) -> (b: bool)
    ensures
        b == exists|i: int| 0 <= i < items@.len() && !(#[trigger] items@[i].status is Done),
{
    let mut i: usize = 0;
    while i < items.len()
        invariant
            i <= items@.len(),
            forall|j: int| 0 <= j < i ==> #[trigger] items@[j].status is Done,
        decreases items@.len() - i,
    {
        if !is_done(&items[i].status) {
            return true;
        }
        i = i + 1;
    }
    false
}

// ---------------------------------------------------------------------------
// Starting a batch
// ---------------------------------------------------------------------------

/// Indices, in queue order, of the rows a batch converts: all not yet done.
pub fn pending_jobs(items: &Vec<Item>) -> (jobs: Vec<usize>)
    ensures
        forall|k: int| 0 <= k < jobs@.len() ==> #[trigger] jobs@[k] < items@.len(),
        forall|k: int| 0 <= k < jobs@.len() ==> !(items@[#[trigger] jobs@[k] as int].status is Done),
        forall|a: int, b: int| 0 <= a < b < jobs@.len() ==> #[trigger] jobs@[a] < #[trigger] jobs@[b],
        forall|i: int|
            0 <= i < items@.len() && !(#[trigger] items@[i].status is Done) ==> jobs@.contains(
                i as usize,
            ),
{
    let mut jobs: Vec<usize> = Vec::new();
    let mut i: usize = 0;
    while i < items.len()
        invariant
            i <= items@.len(),
            forall|k: int| 0 <= k < jobs@.len() ==> #[trigger] jobs@[k] < i,
            forall|k: int|
                0 <= k < jobs@.len() ==> !(items@[#[trigger] jobs@[k] as int].status is Done),
            forall|a: int, b: int|
                0 <= a < b < jobs@.len() ==> #[trigger] jobs@[a] < #[trigger] jobs@[b],
            forall|j: int|
                0 <= j < i && !(#[trigger] items@[j].status is Done) ==> jobs@.contains(j as usize),
        decreases items@.len() - i,
    {
        if !is_done(&items[i].status) {
            let ghost before = jobs@;
            jobs.push(i);
            proof {
                assert forall|j: int|
                    0 <= j < i + 1 && !(#[trigger] items@[j].status is Done) implies jobs@.contains(
                    j as usize,
                ) by {
                    if j < i {
                        let w = choose|w: int| 0 <= w < before.len() && before[w] == j as usize;
                        assert(jobs@[w] == j as usize);
                    } else {
                        assert(jobs@[before.len() as int] == i);
                    }
                }
            }
        }
        i = i + 1;
    }
    jobs
}

/// Marks every row that is not done as queued again (done rows keep their
/// status).
pub fn requeue_pending(items: &mut Vec<Item>)
    ensures
        final(items)@.len() == old(items)@.len(),
        forall|i: int|
            0 <= i < old(items)@.len() ==> #[trigger] final(items)@[i].path == old(items)@[i].path,
        forall|i: int|
            0 <= i < old(items)@.len() ==> (old(items)@[i].status is Done ==> #[trigger] final(items)@[i].status == old(items)@[i].status),
        forall|i: int|
            0 <= i < old(items)@.len() ==> (!(old(items)@[i].status is Done) ==> #[trigger] final(items)@[i].status is Queued),
{
    let ghost orig = items@;
    let mut i: usize = 0;
    while i < items.len()
        invariant
            i <= items@.len(),
            items@.len() == orig.len(),
            forall|j: int| 0 <= j < orig.len() ==> #[trigger] items@[j].path == orig[j].path,
            forall|j: int| i <= j < orig.len() ==> #[trigger] items@[j] == orig[j],
            forall|j: int|
                0 <= j < i ==> (orig[j].status is Done ==> #[trigger] items@[j].status
                    == orig[j].status),
            forall|j: int|
                0 <= j < i ==> (!(orig[j].status is Done) ==> #[trigger] items@[j].status is Queued),
        decreases orig.len() - i,
    {
        if !is_done(&items[i].status) {
            set_status(items, i, Status::Queued);
        }
        i = i + 1;
    }
}

/// Simultaneous conversions by default for a machine with `cpus` logical
/// CPUs: a quarter of them, at least 2 and at most 8.
pub fn default_concurrency(cpus: usize) -> (c: usize)
    ensures
        c == (if cpus / 4 < 2 {
            2
        } else if cpus / 4 > 8 {
            8
        } else {
            cpus / 4
        }),
        2 <= c <= 8,
{
    let q = cpus / 4;
    if q < 2 {
        2
    } else if q > 8 {
        8
    } else {
        q
    }
}

/// A remembered concurrency setting, limited to `1..=cpus`; the default when
/// none was remembered.
pub fn restored_concurrency(stored: Option<usize>, cpus: usize, default: usize) -> (c: usize)
    requires
        cpus >= 1,
    ensures
        stored is None ==> c == default,
        stored is Some ==> 1 <= c <= cpus,
        stored is Some ==> (c == stored->0 || (stored->0 < 1 && c == 1) || (stored->0 > cpus && c
            == cpus)),
{
    match stored {
        Some(n) => if n < 1 {
            1
        } else if n > cpus {
            cpus
        } else {
            n
        },
        None => default,
    }
}

/// Workers for a batch of `n_jobs` files (the configured concurrency, at
/// least one and no more than there are jobs) and the decode threads each
/// worker uses, so that workers times threads roughly covers the CPUs.
pub fn worker_plan(concurrency: usize, n_jobs: usize, cpus: usize) -> (plan: (usize, usize))
    requires
        n_jobs >= 1,
    ensures
        1 <= plan.0 <= n_jobs,
        plan.0 == (if concurrency < 1 {
            1
        } else if concurrency > n_jobs {
            n_jobs
        } else {
            concurrency
        }),
        plan.1 == (if cpus / plan.0 < 1 {
            1
        } else {
            cpus / plan.0
        }),
        plan.1 >= 1,
{
    let workers = if concurrency < 1 {
        1
    } else if concurrency > n_jobs {
        n_jobs
    } else {
        concurrency
    };
    let per = cpus / workers;
    let threads = if per < 1 {
        1
    } else {
        per
    };
    (workers, threads)
}

// ---------------------------------------------------------------------------
// Worker reports
// ---------------------------------------------------------------------------

/// The row index a report is about, if any.
pub open spec fn msg_row(m: Msg) -> Option<usize> {
    match m {
        Msg::Progress(i, _) => Some(i),
        Msg::Done(i, _) => Some(i),
        Msg::Failed(i, _) => Some(i),
        _ => None,
    }
}

/// What applying one worker report does: progress, done and failed reports
/// set that row's status; log lines are appended to `log`; the batch report
/// ends the batch (`true` is returned).
pub fn apply_msg(items: &mut Vec<Item>, logged: &mut Vec<String>, msg: Msg) -> (batch_done: bool)
    requires
        msg_row(msg) is Some ==> msg_row(msg)->0 < old(items)@.len(),
    ensures
        batch_done == (msg is Batch),
        final(items)@.len() == old(items)@.len(),
        forall|i: int|
            0 <= i < old(items)@.len() ==> #[trigger] final(items)@[i].path == old(items)@[i].path,
        forall|i: int|
            0 <= i < old(items)@.len() && Some(i as usize) != msg_row(msg) ==> #[trigger] final(items)@[i] == old(items)@[i],
        match msg {
            Msg::Progress(i, f) => final(items)@[i as int].status == Status::Converting(f),
            Msg::Done(i, p) => final(items)@[i as int].status == Status::Done(p),
            Msg::Failed(i, e) => final(items)@[i as int].status == Status::Failed(e),
            _ => true,
        },
        msg matches Msg::Log(line) ==> final(logged)@ == old(logged)@.push(line),
        !(msg is Log) ==> final(logged)@ == old(logged)@,
{
    match msg {
        Msg::Progress(i, f) => {
            set_status(items, i, Status::Converting(f));
            false
        },
        Msg::Done(i, p) => {
            set_status(items, i, Status::Done(p));
            false
        },
        Msg::Failed(i, e) => {
            set_status(items, i, Status::Failed(e));
            false
        },
        Msg::Log(line) => {
            logged.push(line);
            false
        },
        Msg::Batch => true,
    }
}

// ---------------------------------------------------------------------------
// Sizes for the console
// ---------------------------------------------------------------------------

/// The unit a byte count is shown in.
#[derive(PartialEq, Eq, Structural, Clone, Copy, Debug)]
pub enum SizeUnit {
    Bytes,
    Kilobytes,
    Megabytes,
}

/// Megabytes from 1 MiB up, kilobytes from 1 KiB up, bytes below that.
pub fn size_unit(bytes: u64) -> (u: SizeUnit)
    ensures
        u == (if bytes >= 1048576 {
            SizeUnit::Megabytes
        } else if bytes >= 1024 {
            SizeUnit::Kilobytes
        } else {
            SizeUnit::Bytes
        }),
{
    if bytes >= 1048576 {
        SizeUnit::Megabytes
    } else if bytes >= 1024 {
        SizeUnit::Kilobytes
    } else {
        SizeUnit::Bytes
    }
}

// ---------------------------------------------------------------------------
// Laws
// ---------------------------------------------------------------------------

/// No path is queued twice.
pub open spec fn distinct_paths(items: Seq<Item>) -> bool {
    forall|a: int, b: int| 0 <= a < b < items.len() ==> #[trigger] items[a].path@ != #[trigger] items[b].path@
}

/// Adding files never queues a path twice, and every offered path ends up
/// queued.
pub proof fn lemma_add_keeps_paths_distinct(items: Seq<Item>, paths: Seq<Vec<u8>>)
    requires
        distinct_paths(items),
    ensures
        distinct_paths(queue_after_add(items, paths)),
        forall|k: int| 0 <= k < paths.len() ==> has_path(queue_after_add(items, paths), #[trigger] paths[k]),
        queue_after_add(items, paths).len() >= items.len(),
        queue_after_add(items, paths).subrange(0, items.len() as int) == items,
    decreases paths.len(),
{
    if paths.len() > 0 {
        let pre = paths.drop_last();
        lemma_add_keeps_paths_distinct(items, pre);
        let q = queue_after_add(items, pre);
        let r = queue_after_add(items, paths);
        if !has_path(q, paths.last()) {
            assert(r == q.push(Item { path: paths.last(), status: Status::Queued }));
            assert forall|k: int| 0 <= k < pre.len() implies has_path(r, #[trigger] pre[k]) by {
                assert(has_path(q, pre[k]));
                let i = choose|i: int| 0 <= i < q.len() && #[trigger] q[i].path@ == pre[k]@;
                assert(r[i] == q[i]);
            }
            assert(has_path(r, paths.last())) by {
                assert(r[q.len() as int].path == paths.last());
            }
        }
        assert forall|k: int| 0 <= k < paths.len() implies has_path(r, #[trigger] paths[k]) by {
            if k < pre.len() {
                assert(paths[k] == pre[k]);
                assert(has_path(r, pre[k]));
            }
        }
        assert(r.subrange(0, items.len() as int) =~= q.subrange(0, items.len() as int));
    } else {
        assert(items.subrange(0, items.len() as int) =~= items);
    }
}

/// Offering the same files twice queues nothing the second time.
pub proof fn lemma_add_idempotent(items: Seq<Item>, paths: Seq<Vec<u8>>)
    requires
        distinct_paths(items),
    ensures
        queue_after_add(queue_after_add(items, paths), paths) == queue_after_add(items, paths),
{
    let q = queue_after_add(items, paths);
    lemma_add_keeps_paths_distinct(items, paths);
    lemma_add_all_present(q, paths);
}

proof fn lemma_add_all_present(q: Seq<Item>, paths: Seq<Vec<u8>>)
    requires
        forall|k: int| 0 <= k < paths.len() ==> has_path(q, #[trigger] paths[k]),
    ensures
        queue_after_add(q, paths) == q,
    decreases paths.len(),
{
    if paths.len() > 0 {
        let pre = paths.drop_last();
        assert forall|k: int| 0 <= k < pre.len() implies has_path(q, #[trigger] pre[k]) by {
            assert(pre[k] == paths[k]);
        }
        lemma_add_all_present(q, pre);
        assert(has_path(q, paths[paths.len() - 1]));
    }
}

/// After clearing, no done or failed row is left, and every unfinished row
/// is still there.
pub proof fn lemma_cleared_rows(items: Seq<Item>)
    ensures
        forall|i: int|
            0 <= i < unfinished_items(items).len() ==> !finished(
                #[trigger] unfinished_items(items)[i].status,
            ),
        forall|i: int|
            0 <= i < items.len() && !finished(items[i].status) ==> unfinished_items(items).contains(
                #[trigger] items[i],
            ),
        unfinished_items(items).len() <= items.len(),
    decreases items.len(),
{
    if items.len() > 0 {
        let pre = items.drop_last();
        lemma_cleared_rows(pre);
        let r = unfinished_items(pre);
        assert forall|i: int|
            0 <= i < items.len() && !finished(items[i].status) implies unfinished_items(
            items,
        ).contains(#[trigger] items[i]) by {
            if i < pre.len() {
                assert(pre[i] == items[i]);
                assert(r.contains(pre[i]));
                let w = choose|w: int| 0 <= w < r.len() && r[w] == pre[i];
                assert(unfinished_items(items)[w] == r[w]);
            } else {
                assert(unfinished_items(items)[r.len() as int] == items.last());
            }
        }
    }
}

/// The console never holds more than `MAX_LOG_LINES` lines, and the newest
/// line is always the last one kept.
pub proof fn lemma_log_keeps_newest(log: Seq<String>, line: String)
    ensures
        log_after(log, line).len() <= MAX_LOG_LINES,
        log_after(log, line).last() == line,
        log.len() < MAX_LOG_LINES ==> log_after(log, line) == log.push(line),
{
}

} // verus!
